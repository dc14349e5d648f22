//! The filter composer: search requests become parameterized statements,
//! built as one ordered run of fragments where every placeholder's
//! parameter is appended in the same step as the fragment that holds it.
//! Fragment text and parameter list can never drift apart, which is the
//! correctness-critical invariant of any parameterized backend.

use crate::fts::{build_fts_query, compiled_query};
use crate::models::{SearchQuery, UpdateFile, UpdateWorkspace};
use crate::numfmt::{dec_digits, dec_signed, i64_to_dec, usize_to_dec};
use crate::text::{lemma_views_push, views_of};
use vstd::prelude::*;
use vstd::string::StringExecFns;

verus! {

/// A backend statement: the predicate text and its bound parameters, in
/// placeholder order.
pub struct Statement {
    pub sql: String,
    pub params: Vec<String>,
}

impl Statement {
    pub fn new() -> (st: Statement)
        ensures
            st.sql@ == Seq::<char>::empty(),
            st.params@ == Seq::<String>::empty(),
    {
        Statement { sql: String::new(), params: Vec::new() }
    }

    /// Append a fragment that holds no placeholder.
    pub fn frag(&mut self, text: &str)
        ensures
            final(self).sql@ == old(self).sql@ + text@,
            final(self).params == old(self).params,
    {
        self.sql.append(text);
    }

    /// Append a fragment together with the parameter for the one
    /// placeholder it holds, so that emission order and binding order
    /// cannot diverge.
    pub fn frag_bound(&mut self, text: &str, param: String)
        ensures
            final(self).sql@ == old(self).sql@ + text@,
            final(self).params@ == old(self).params@.push(param),
    {
        self.sql.append(text);
        self.params.push(param);
    }
}

/// `n` placeholders, comma-separated.
pub open spec fn placeholders(n: nat) -> Seq<char>
    decreases n,
{
    if n == 0 {
        Seq::empty()
    } else if n == 1 {
        seq!['?']
    } else {
        placeholders((n - 1) as nat) + seq![',', '?']
    }
}

pub open spec fn limit_of(q: SearchQuery) -> int {
    match q.limit {
        Some(l) => l as int,
        None => 50,
    }
}

pub open spec fn tags_present(q: SearchQuery) -> bool {
    match q.tags {
        Some(ts) => ts.len() > 0,
        None => false,
    }
}

pub open spec fn tag_views(q: SearchQuery) -> Seq<Seq<char>> {
    match q.tags {
        Some(ts) => views_of(ts@),
        None => Seq::empty(),
    }
}

pub open spec fn tag_count(q: SearchQuery) -> nat {
    match q.tags {
        Some(ts) => ts@.len(),
        None => 0,
    }
}

/// The membership sub-predicate on the tag association, under match-all
/// semantics: an exact distinct-count against the number of named tags.
pub open spec fn tag_filter_sql(n: nat) -> Seq<char> {
    " AND f.id IN (SELECT ft.file_id FROM file_tags ft INNER JOIN tags t ON ft.tag_id = t.id WHERE t.name IN ("@
        + placeholders(n) + ")"@ + " GROUP BY ft.file_id HAVING COUNT(DISTINCT t.id) = "@
        + dec_digits(n) + ")"@
}

/// The text of a full search statement, fragment by fragment in the
/// order the composer conjoins them.
pub open spec fn search_sql(q: SearchQuery) -> Seq<char> {
    "SELECT f.id, f.workspace_id, f.file_type, f.title, f.content, f.file_path, f.created_at, f.updated_at, fts.rank AS rank FROM files f INNER JOIN files_fts fts ON f.id = fts.file_id WHERE files_fts MATCH ?"@
        + (match q.workspace_id {
        Some(_) => " AND f.workspace_id = ?"@,
        None => Seq::empty(),
    }) + (match q.file_type {
        Some(_) => " AND f.file_type = ?"@,
        None => Seq::empty(),
    }) + (if tags_present(q) {
        tag_filter_sql(tag_count(q))
    } else {
        Seq::empty()
    }) + " ORDER BY rank DESC LIMIT ?"@
}

/// The parameters of a full search statement, in exactly the order the
/// placeholders appear in `search_sql`.
pub open spec fn search_params(q: SearchQuery) -> Seq<Seq<char>> {
    seq![compiled_query(q.query@)] + (match q.workspace_id {
        Some(w) => seq![w@],
        None => Seq::empty(),
    }) + (match q.file_type {
        Some(t) => seq![t@],
        None => Seq::empty(),
    }) + (if tags_present(q) {
        tag_views(q)
    } else {
        Seq::empty()
    }) + seq![dec_signed(limit_of(q))]
}

/// Compose the full search statement: the compiled text predicate,
/// conjoined with each present scope filter and the optional match-all
/// tag constraint, ordered by backend rank, truncated by the limit.
pub fn search_statement(q: &SearchQuery) -> (st: Statement)
    ensures
        st.sql@ == search_sql(*q),
        views_of(st.params@) == search_params(*q),
{
    let mut st = Statement::new();
    let fq = build_fts_query(q.query.as_str());
    st.frag_bound(
        "SELECT f.id, f.workspace_id, f.file_type, f.title, f.content, f.file_path, f.created_at, f.updated_at, fts.rank AS rank FROM files f INNER JOIN files_fts fts ON f.id = fts.file_id WHERE files_fts MATCH ?",
        fq,
    );
    let ghost pa = seq![compiled_query(q.query@)];
    let ghost pb = pa + (match &q.workspace_id {
        Some(w) => seq![w@],
        None => Seq::<Seq<char>>::empty(),
    });
    let ghost pc = pb + (match &q.file_type {
        Some(t) => seq![t@],
        None => Seq::<Seq<char>>::empty(),
    });
    let ghost pd = pc + (if tags_present(*q) {
        tag_views(*q)
    } else {
        Seq::<Seq<char>>::empty()
    });
    proof {
        assert(views_of(st.params@) =~= pa);
    }
    if let Some(w) = &q.workspace_id {
        st.frag_bound(" AND f.workspace_id = ?", w.clone());
    }
    proof {
        assert(views_of(st.params@) =~= pb);
    }
    if let Some(t) = &q.file_type {
        st.frag_bound(" AND f.file_type = ?", t.clone());
    }
    proof {
        assert(views_of(st.params@) =~= pc);
    }
    if let Some(tags) = &q.tags {
        if tags.len() > 0 {
            push_tag_membership(
                &mut st,
                tags,
                " AND f.id IN (SELECT ft.file_id FROM file_tags ft INNER JOIN tags t ON ft.tag_id = t.id WHERE t.name IN (",
            );
            st.frag(")");
            st.frag(" GROUP BY ft.file_id HAVING COUNT(DISTINCT t.id) = ");
            let n = usize_to_dec(tags.len());
            st.frag(n.as_str());
            st.frag(")");
        }
    }
    proof {
        assert(views_of(st.params@) =~= pd);
    }
    let lim: i64 = match q.limit {
        Some(l) => l,
        None => 50,
    };
    st.frag_bound(" ORDER BY rank DESC LIMIT ?", i64_to_dec(lim));
    proof {
        assert(st.sql@ =~= search_sql(*q));
        assert(views_of(st.params@) =~= pd + seq![dec_signed(limit_of(*q))]);
        assert(search_params(*q) == pd + seq![dec_signed(limit_of(*q))]);
    }
    st
}

/// The text of a standalone tag-search statement: membership in the
/// named tags, an optional workspace filter, grouping per item with an
/// exact distinct-count under match-all, ordered by recency.
pub open spec fn tag_search_sql(ws: Option<String>, n: nat, match_all: bool) -> Seq<char> {
    "SELECT f.id, f.workspace_id, f.file_type, f.title, f.content, f.file_path, f.created_at, f.updated_at, 0.0 AS rank FROM files f INNER JOIN file_tags ft ON f.id = ft.file_id INNER JOIN tags t ON ft.tag_id = t.id WHERE t.name IN ("@
        + placeholders(n) + ")"@ + (match ws {
        Some(_) => " AND f.workspace_id = ?"@,
        None => Seq::empty(),
    }) + (if match_all {
        " GROUP BY f.id HAVING COUNT(DISTINCT t.id) = "@ + dec_digits(n)
    } else {
        " GROUP BY f.id"@
    }) + " ORDER BY f.updated_at DESC"@
}

pub open spec fn tag_search_params(ws: Option<String>, names: Seq<Seq<char>>) -> Seq<Seq<char>> {
    names + (match ws {
        Some(w) => seq![w@],
        None => Seq::empty(),
    })
}

/// Compose the standalone tag-search statement. An empty name list
/// yields no statement at all: the search returns the empty result
/// without touching the backend.
pub fn tag_search_statement(
    workspace_id: &Option<String>,
    tag_names: &Vec<String>,
    match_all: bool,
) -> (r: Option<Statement>)
    ensures
        (r is Some) == (tag_names@.len() > 0),
        r matches Some(st) ==> st.sql@ == tag_search_sql(
            *workspace_id,
            tag_names@.len() as nat,
            match_all,
        ) && views_of(st.params@) == tag_search_params(*workspace_id, views_of(tag_names@)),
{
    if tag_names.len() == 0 {
        return None;
    }
    let mut st = Statement::new();
    push_tag_membership(
        &mut st,
        tag_names,
        "SELECT f.id, f.workspace_id, f.file_type, f.title, f.content, f.file_path, f.created_at, f.updated_at, 0.0 AS rank FROM files f INNER JOIN file_tags ft ON f.id = ft.file_id INNER JOIN tags t ON ft.tag_id = t.id WHERE t.name IN (",
    );
    st.frag(")");
    let ghost pa = views_of(tag_names@);
    let ghost pb = pa + (match workspace_id {
        Some(w) => seq![w@],
        None => Seq::<Seq<char>>::empty(),
    });
    proof {
        assert(views_of(st.params@) =~= pa);
    }
    if let Some(w) = workspace_id {
        st.frag_bound(" AND f.workspace_id = ?", w.clone());
    }
    proof {
        assert(views_of(st.params@) =~= pb);
    }
    if match_all {
        st.frag(" GROUP BY f.id HAVING COUNT(DISTINCT t.id) = ");
        let n = usize_to_dec(tag_names.len());
        st.frag(n.as_str());
    } else {
        st.frag(" GROUP BY f.id");
    }
    st.frag(" ORDER BY f.updated_at DESC");
    proof {
        assert(st.sql@ =~= tag_search_sql(*workspace_id, tag_names@.len() as nat, match_all));
        assert(views_of(st.params@) =~= tag_search_params(*workspace_id, views_of(tag_names@)));
    }
    Some(st)
}

/// The text of the similarity statement: candidates joined through any
/// tag they share with the reference item, the reference itself
/// excluded, ranked by the distinct shared-tag count with recency as the
/// tie-break.
pub open spec fn similar_sql() -> Seq<char> {
    "SELECT DISTINCT f.id, f.workspace_id, f.file_type, f.title, f.content, f.file_path, f.created_at, f.updated_at, COUNT(DISTINCT ft2.tag_id) AS rank FROM files f INNER JOIN file_tags ft2 ON f.id = ft2.file_id WHERE ft2.tag_id IN (SELECT tag_id FROM file_tags WHERE file_id = ?"@
        + ") AND f.id != ?"@
        + " GROUP BY f.id ORDER BY rank DESC, f.updated_at DESC LIMIT ?"@
}

/// Compose the similarity statement for a reference item.
pub fn similar_statement(file_id: &str, limit: i64) -> (st: Statement)
    ensures
        st.sql@ == similar_sql(),
        views_of(st.params@) == seq![file_id@, file_id@, dec_signed(limit as int)],
{
    let mut st = Statement::new();
    st.frag_bound(
        "SELECT DISTINCT f.id, f.workspace_id, f.file_type, f.title, f.content, f.file_path, f.created_at, f.updated_at, COUNT(DISTINCT ft2.tag_id) AS rank FROM files f INNER JOIN file_tags ft2 ON f.id = ft2.file_id WHERE ft2.tag_id IN (SELECT tag_id FROM file_tags WHERE file_id = ?",
        file_id.to_owned(),
    );
    st.frag_bound(") AND f.id != ?", file_id.to_owned());
    st.frag_bound(" GROUP BY f.id ORDER BY rank DESC, f.updated_at DESC LIMIT ?", i64_to_dec(limit));
    proof {
        assert(views_of(st.params@) =~= seq![file_id@, file_id@, dec_signed(limit as int)]);
    }
    st
}

/// The text of a dynamic item update: always the fresh timestamp, then
/// one assignment per present field, in a fixed order.
pub open spec fn update_file_sql(u: UpdateFile) -> Seq<char> {
    "UPDATE files SET updated_at = ?"@ + (match u.title {
        Some(_) => ", title = ?"@,
        None => Seq::empty(),
    }) + (match u.content {
        Some(_) => ", content = ?"@,
        None => Seq::empty(),
    }) + (match u.file_path {
        Some(_) => ", file_path = ?"@,
        None => Seq::empty(),
    }) + (match u.file_size {
        Some(_) => ", file_size = ?"@,
        None => Seq::empty(),
    }) + (match u.mime_type {
        Some(_) => ", mime_type = ?"@,
        None => Seq::empty(),
    }) + " WHERE id = ? RETURNING *"@
}

pub open spec fn update_file_params(u: UpdateFile, id: Seq<char>, now: Seq<char>) -> Seq<
    Seq<char>,
> {
    seq![now] + (match u.title {
        Some(t) => seq![t@],
        None => Seq::empty(),
    }) + (match u.content {
        Some(c) => seq![c@],
        None => Seq::empty(),
    }) + (match u.file_path {
        Some(p) => seq![p@],
        None => Seq::empty(),
    }) + (match u.file_size {
        Some(s) => seq![dec_signed(s as int)],
        None => Seq::empty(),
    }) + (match u.mime_type {
        Some(m) => seq![m@],
        None => Seq::empty(),
    }) + seq![id]
}

/// Compose the dynamic update statement for an item: parameters bound in
/// exactly the order their assignments are emitted.
pub fn update_file_statement(id: &str, u: &UpdateFile, now: &str) -> (st: Statement)
    ensures
        st.sql@ == update_file_sql(*u),
        views_of(st.params@) == update_file_params(*u, id@, now@),
{
    let mut st = Statement::new();
    st.frag_bound("UPDATE files SET updated_at = ?", now.to_owned());
    let ghost pa = seq![now@];
    let ghost pb = pa + (match &u.title {
        Some(t) => seq![t@],
        None => Seq::<Seq<char>>::empty(),
    });
    let ghost pc = pb + (match &u.content {
        Some(c) => seq![c@],
        None => Seq::<Seq<char>>::empty(),
    });
    let ghost pd = pc + (match &u.file_path {
        Some(p) => seq![p@],
        None => Seq::<Seq<char>>::empty(),
    });
    let ghost pe = pd + (match &u.file_size {
        Some(s) => seq![dec_signed(*s as int)],
        None => Seq::<Seq<char>>::empty(),
    });
    let ghost pf = pe + (match &u.mime_type {
        Some(m) => seq![m@],
        None => Seq::<Seq<char>>::empty(),
    });
    if let Some(t) = &u.title {
        st.frag_bound(", title = ?", t.clone());
    }
    proof {
        assert(views_of(st.params@) =~= pb);
    }
    if let Some(c) = &u.content {
        st.frag_bound(", content = ?", c.clone());
    }
    proof {
        assert(views_of(st.params@) =~= pc);
    }
    if let Some(p) = &u.file_path {
        st.frag_bound(", file_path = ?", p.clone());
    }
    proof {
        assert(views_of(st.params@) =~= pd);
    }
    if let Some(s) = &u.file_size {
        st.frag_bound(", file_size = ?", i64_to_dec(*s));
    }
    proof {
        assert(views_of(st.params@) =~= pe);
    }
    if let Some(m) = &u.mime_type {
        st.frag_bound(", mime_type = ?", m.clone());
    }
    proof {
        assert(views_of(st.params@) =~= pf);
    }
    st.frag_bound(" WHERE id = ? RETURNING *", id.to_owned());
    proof {
        assert(st.sql@ =~= update_file_sql(*u));
        assert(views_of(st.params@) =~= pf + seq![id@]);
        assert(update_file_params(*u, id@, now@) == pf + seq![id@]);
    }
    st
}

/// The text of a dynamic workspace update.
pub open spec fn update_workspace_sql(u: UpdateWorkspace) -> Seq<char> {
    "UPDATE workspaces SET updated_at = ?"@ + (match u.name {
        Some(_) => ", name = ?"@,
        None => Seq::empty(),
    }) + (match u.description {
        Some(_) => ", description = ?"@,
        None => Seq::empty(),
    }) + " WHERE id = ? RETURNING *"@
}

pub open spec fn update_workspace_params(u: UpdateWorkspace, id: Seq<char>, now: Seq<char>) -> Seq<
    Seq<char>,
> {
    seq![now] + (match u.name {
        Some(n) => seq![n@],
        None => Seq::empty(),
    }) + (match u.description {
        Some(d) => seq![d@],
        None => Seq::empty(),
    }) + seq![id]
}

/// Compose the dynamic update statement for a workspace.
pub fn update_workspace_statement(id: &str, u: &UpdateWorkspace, now: &str) -> (st: Statement)
    ensures
        st.sql@ == update_workspace_sql(*u),
        views_of(st.params@) == update_workspace_params(*u, id@, now@),
{
    let mut st = Statement::new();
    st.frag_bound("UPDATE workspaces SET updated_at = ?", now.to_owned());
    let ghost pa = seq![now@];
    let ghost pb = pa + (match &u.name {
        Some(n) => seq![n@],
        None => Seq::<Seq<char>>::empty(),
    });
    let ghost pc = pb + (match &u.description {
        Some(d) => seq![d@],
        None => Seq::<Seq<char>>::empty(),
    });
    if let Some(n) = &u.name {
        st.frag_bound(", name = ?", n.clone());
    }
    proof {
        assert(views_of(st.params@) =~= pb);
    }
    if let Some(d) = &u.description {
        st.frag_bound(", description = ?", d.clone());
    }
    proof {
        assert(views_of(st.params@) =~= pc);
    }
    st.frag_bound(" WHERE id = ? RETURNING *", id.to_owned());
    proof {
        assert(st.sql@ =~= update_workspace_sql(*u));
        assert(views_of(st.params@) =~= pc + seq![id@]);
        assert(update_workspace_params(*u, id@, now@) == pc + seq![id@]);
    }
    st
}

/// Append the opening fragment and then one comma-separated placeholder
/// for each name, binding the names in order.
fn push_tag_membership(st: &mut Statement, names: &Vec<String>, opening: &str)
    requires
        names@.len() > 0,
    ensures
        final(st).sql@ == old(st).sql@ + opening@ + placeholders(names@.len() as nat),
        final(st).params@.len() == old(st).params@.len() + names@.len(),
        views_of(final(st).params@) == views_of(old(st).params@) + views_of(names@),
{
    st.frag(opening);
    let ghost pre_sql = st.sql@;
    let ghost pre_params = views_of(st.params@);
    let mut i: usize = 0;
    while i < names.len()
        invariant
            i <= names@.len(),
            st.sql@ == pre_sql + placeholders(i as nat),
            views_of(st.params@) == pre_params + views_of(names@).take(i as int),
        decreases names@.len() - i,
    {
        let ghost before = st.params@;
        if i == 0 {
            st.frag_bound("?", names[i].clone());
            proof {
                reveal_strlit("?");
                assert(st.sql@ =~= pre_sql + placeholders(1));
            }
        } else {
            st.frag_bound(",?", names[i].clone());
            proof {
                reveal_strlit(",?");
                assert(st.sql@ =~= pre_sql + placeholders((i + 1) as nat));
            }
        }
        proof {
            lemma_views_push(before, names@[i as int]);
            assert(views_of(names@).take(i as int + 1) =~= views_of(names@).take(i as int).push(
                names@[i as int]@,
            ));
            assert(views_of(st.params@) =~= pre_params + views_of(names@).take(i as int + 1));
        }
        i += 1;
    }
    proof {
        assert(views_of(names@).take(names@.len() as int) =~= views_of(names@));
    }
}

} // verus!
