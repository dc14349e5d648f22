//! The text-query compiler: a raw query string is split on whitespace,
//! each token is quote-escaped and wrapped as an exact phrase with a
//! trailing prefix wildcard, and the tokens are joined with OR. An empty
//! or whitespace-only query compiles to the universal wildcard `*`.

use crate::text::{char_is_space, has_sub, is_space, join_with, lemma_join_step, push_char, views_of};
use vstd::prelude::*;
use vstd::string::StrSliceExecFns;

verus! {

/// A left-to-right scan of the query: the tokens finished so far and the
/// token still being read.
pub open spec fn scan_tokens(q: Seq<char>) -> (Seq<Seq<char>>, Seq<char>)
    decreases q.len(),
{
    if q.len() == 0 {
        (Seq::empty(), Seq::empty())
    } else {
        let prev = scan_tokens(q.drop_last());
        let c = q.last();
        if is_space(c) {
            if prev.1.len() > 0 {
                (prev.0.push(prev.1), Seq::empty())
            } else {
                (prev.0, Seq::empty())
            }
        } else {
            (prev.0, prev.1.push(c))
        }
    }
}

/// The whitespace-separated tokens of a query string; empty tokens are
/// discarded.
pub open spec fn tokens(q: Seq<char>) -> Seq<Seq<char>> {
    let s = scan_tokens(q);
    if s.1.len() > 0 {
        s.0.push(s.1)
    } else {
        s.0
    }
}

/// A token with each internal quote doubled.
pub open spec fn escaped(t: Seq<char>) -> Seq<char>
    decreases t.len(),
{
    if t.len() == 0 {
        Seq::empty()
    } else {
        escaped(t.drop_last()) + (if t.last() == '"' {
            seq!['"', '"']
        } else {
            seq![t.last()]
        })
    }
}

/// A token as the predicate emits it: quoted, escaped, and with a
/// trailing prefix wildcard, so the token matches itself or any word it
/// is a prefix of.
pub open spec fn quoted(t: Seq<char>) -> Seq<char> {
    seq!['"'] + escaped(t) + seq!['"', '*']
}

pub open spec fn or_sep() -> Seq<char> {
    seq![' ', 'O', 'R', ' ']
}

/// The compiled predicate: the universal wildcard for a tokenless query,
/// otherwise the quoted tokens joined with OR. Any one matching token
/// makes a document match; the combination is deliberately OR, not AND.
pub open spec fn compiled_query(q: Seq<char>) -> Seq<char> {
    let ts = tokens(q);
    if ts.len() == 0 {
        seq!['*']
    } else {
        join_with(ts.map_values(|t: Seq<char>| quoted(t)), or_sep())
    }
}

/// Split a query on whitespace, dropping empty tokens.
pub fn tokenize(query: &str) -> (toks: Vec<String>)
    ensures
        views_of(toks@) == tokens(query@),
{
    let n = query.unicode_len();
    let mut toks: Vec<String> = Vec::new();
    let mut cur = String::new();
    let mut i: usize = 0;
    while i < n
        invariant
            i <= n,
            n == query@.len(),
            (views_of(toks@), cur@) == scan_tokens(query@.take(i as int)),
        decreases n - i,
    {
        let c = query.get_char(i);
        proof {
            assert(query@.take(i as int + 1).drop_last() =~= query@.take(i as int));
            assert(query@.take(i as int + 1).last() == query@[i as int]);
        }
        let ghost old_views = views_of(toks@);
        let ghost old_cur = cur@;
        if char_is_space(c) {
            if cur.as_str().unicode_len() > 0 {
                toks.push(cur);
                cur = String::new();
                proof {
                    assert(views_of(toks@) =~= old_views.push(old_cur));
                }
            }
        } else {
            push_char(&mut cur, c);
        }
        i += 1;
    }
    proof {
        assert(query@.take(n as int) =~= query@);
    }
    if cur.as_str().unicode_len() > 0 {
        let ghost old_views = views_of(toks@);
        let ghost old_cur = cur@;
        toks.push(cur);
        proof {
            assert(views_of(toks@) =~= old_views.push(old_cur));
        }
    }
    toks
}

/// Compile a raw query string into the backend search predicate.
pub fn build_fts_query(query: &str) -> (r: String)
    ensures
        r@ == compiled_query(query@),
{
    let toks = tokenize(query);
    let count = toks.len();
    if count == 0 {
        let mut s = String::new();
        push_char(&mut s, '*');
        proof {
            assert(s@ =~= seq!['*']);
        }
        return s;
    }
    let ghost quoted_parts = tokens(query@).map_values(|t: Seq<char>| quoted(t));
    let mut out = String::new();
    let mut i: usize = 0;
    while i < count
        invariant
            i <= count,
            0 < count == toks@.len(),
            views_of(toks@) == tokens(query@),
            quoted_parts == tokens(query@).map_values(|t: Seq<char>| quoted(t)),
            i == 0 ==> out@ == Seq::<char>::empty(),
            i > 0 ==> out@ == join_with(quoted_parts.take(i as int), or_sep()),
        decreases count - i,
    {
        if i > 0 {
            out.append(" OR ");
            proof {
                reveal_strlit(" OR ");
                assert(" OR "@ =~= or_sep());
            }
        }
        let ghost mid = out@;
        push_char(&mut out, '"');
        let t = &toks[i];
        let m = t.as_str().unicode_len();
        let mut j: usize = 0;
        while j < m
            invariant
                j <= m,
                m == t@.len(),
                out@ == mid + seq!['"'] + escaped(t@.take(j as int)),
            decreases m - j,
        {
            let c = t.as_str().get_char(j);
            proof {
                assert(t@.take(j as int + 1).drop_last() =~= t@.take(j as int));
                assert(t@.take(j as int + 1).last() == t@[j as int]);
            }
            if c == '"' {
                push_char(&mut out, '"');
                push_char(&mut out, '"');
            } else {
                push_char(&mut out, c);
            }
            j += 1;
        }
        proof {
            assert(t@.take(m as int) =~= t@);
        }
        push_char(&mut out, '"');
        push_char(&mut out, '*');
        proof {
            assert(t@ == tokens(query@)[i as int]);
            assert(quoted_parts[i as int] == quoted(t@));
            assert(out@ =~= mid + quoted(t@));
            lemma_join_step(quoted_parts, or_sep(), i as int);
        }
        i += 1;
    }
    proof {
        assert(quoted_parts.take(count as int) =~= quoted_parts);
    }
    out
}

/// Appending onto the end of a haystack keeps every run it already has.
proof fn lemma_has_sub_extend(x: Seq<char>, y: Seq<char>, n: Seq<char>)
    requires
        has_sub(x, n),
    ensures
        has_sub(x + y, n),
{
    let k = choose|k: int|
        0 <= k && k + n.len() <= x.len() && #[trigger] x.subrange(k, k + n.len() as int) == n;
    assert((x + y).subrange(k, k + n.len() as int) =~= x.subrange(k, k + n.len() as int));
}

/// Every part of a join occurs in the joined whole.
proof fn lemma_join_contains(parts: Seq<Seq<char>>, sep: Seq<char>, i: int)
    requires
        0 <= i < parts.len(),
    ensures
        has_sub(join_with(parts, sep), parts[i]),
    decreases parts.len(),
{
    let whole = join_with(parts, sep);
    if parts.len() == 1 {
        assert(whole.subrange(0, 0 + parts[0].len() as int) =~= parts[0]);
    } else if i == parts.len() - 1 {
        let k = whole.len() - parts[i].len();
        assert(whole.subrange(k as int, k + parts[i].len() as int) =~= parts[i]);
    } else {
        lemma_join_contains(parts.drop_last(), sep, i);
        assert(parts.drop_last()[i] == parts[i]);
        lemma_has_sub_extend(join_with(parts.drop_last(), sep), sep + parts.last(), parts[i]);
        assert(join_with(parts.drop_last(), sep) + (sep + parts.last()) =~= whole);
    }
}

/// The compiled predicate of any query is non-empty; when the query has
/// tokens, the predicate is exactly their quote-escaped forms joined with
/// OR, and each such form occurs in it.
pub proof fn lemma_compiled_query_covers(q: Seq<char>)
    ensures
        compiled_query(q).len() > 0,
        tokens(q).len() > 0 ==> compiled_query(q) == join_with(
            tokens(q).map_values(|t: Seq<char>| quoted(t)),
            or_sep(),
        ),
        forall|i: int|
            0 <= i < tokens(q).len() ==> has_sub(compiled_query(q), quoted(tokens(q)[i])),
{
    let ts = tokens(q);
    let parts = ts.map_values(|t: Seq<char>| quoted(t));
    if ts.len() == 0 {
    } else {
        lemma_join_len(parts, or_sep());
        assert forall|i: int| 0 <= i < ts.len() implies has_sub(
            compiled_query(q),
            quoted(ts[i]),
        ) by {
            lemma_join_contains(parts, or_sep(), i);
        }
    }
}

/// A join of non-empty parts is non-empty.
proof fn lemma_join_len(parts: Seq<Seq<char>>, sep: Seq<char>)
    requires
        parts.len() > 0,
        forall|i: int| 0 <= i < parts.len() ==> #[trigger] parts[i].len() > 0,
    ensures
        join_with(parts, sep).len() > 0,
    decreases parts.len(),
{
    if parts.len() > 1 {
        lemma_join_len(parts.drop_last(), sep);
    }
}

} // verus!
