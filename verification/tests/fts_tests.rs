use kb_search::fts::build_fts_query;

#[test]
fn empty_query_compiles_to_wildcard() {
    assert_eq!(build_fts_query(""), "*");
}

#[test]
fn whitespace_query_compiles_to_wildcard() {
    assert_eq!(build_fts_query("   "), "*");
    assert_eq!(build_fts_query(" \t\n "), "*");
}

#[test]
fn two_tokens_join_with_or() {
    assert_eq!(build_fts_query("foo bar"), "\"foo\"* OR \"bar\"*");
}

#[test]
fn single_token_is_quoted_prefix() {
    assert_eq!(build_fts_query("hello"), "\"hello\"*");
}

#[test]
fn internal_quotes_are_doubled() {
    assert_eq!(build_fts_query("a\"b"), "\"a\"\"b\"*");
    assert_eq!(build_fts_query("\""), "\"\"\"\"*");
}

#[test]
fn repeated_whitespace_drops_empty_tokens() {
    assert_eq!(build_fts_query("  foo   bar  "), "\"foo\"* OR \"bar\"*");
}

#[test]
fn three_tokens_keep_order() {
    assert_eq!(build_fts_query("one two three"), "\"one\"* OR \"two\"* OR \"three\"*");
}

#[test]
fn unicode_tokens_pass_through() {
    assert_eq!(build_fts_query("笔记 搜索"), "\"笔记\"* OR \"搜索\"*");
}
