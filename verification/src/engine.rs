//! The tag-set matcher, the tag-overlap similarity ranker, and the rule
//! that keeps each item's denormalized tag projection synchronized with
//! the tag association table.
//!
//! `SearchIndex` is the in-memory model of the backing store: the
//! denormalized index records, the tag table, and the item-tag
//! association. The matcher and ranker are defined and verified over it;
//! the statement composer emits the equivalent predicates for an
//! external backend.

use crate::models::{File, Rank, SearchResult, Tag};
use crate::text::{join_with, lex_le, str_eq, views_of};
use vstd::pervasive::VecAdditionalExecFns;
use vstd::prelude::*;

verus! {

/// One row of the item-tag association, unique on the pair.
pub struct ItemTag {
    pub file_id: String,
    pub tag_id: String,
    pub created_at: String,
}

impl Clone for ItemTag {
    fn clone(&self) -> (r: Self)
        ensures
            r == *self,
    {
        ItemTag {
            file_id: self.file_id.clone(),
            tag_id: self.tag_id.clone(),
            created_at: self.created_at.clone(),
        }
    }
}

/// One denormalized index record: the item itself and its tag
/// projection, the space-joined names of its tags.
pub struct IndexEntry {
    pub file: File,
    pub tags_text: String,
}

/// The in-memory store the engine runs on: index records, the tag
/// table, and the item-tag association.
pub struct SearchIndex {
    pub entries: Vec<IndexEntry>,
    pub tags: Vec<Tag>,
    pub links: Vec<ItemTag>,
}

/// The comparison the tag projection is canonicalized by.
pub open spec fn chars_le() -> spec_fn(Seq<char>, Seq<char>) -> bool {
    |a: Seq<char>, b: Seq<char>| lex_le(a, b)
}

impl SearchIndex {
    /// The association holds the pair.
    pub open spec fn linked(self, fid: Seq<char>, tid: Seq<char>) -> bool {
        exists|k: int|
            0 <= k < self.links@.len() && (#[trigger] self.links@[k]).file_id@ == fid
                && self.links@[k].tag_id@ == tid
    }

    pub open spec fn has_file(self, fid: Seq<char>) -> bool {
        exists|i: int| 0 <= i < self.entries@.len() && (#[trigger] self.entries@[i]).file.id@ == fid
    }

    pub open spec fn has_tag_id(self, tid: Seq<char>) -> bool {
        exists|i: int| 0 <= i < self.tags@.len() && (#[trigger] self.tags@[i]).id@ == tid
    }

    /// The distinct tag identities of an item.
    pub open spec fn tag_set(self, fid: Seq<char>) -> Set<Seq<char>> {
        Set::new(|tid: Seq<char>| self.linked(fid, tid))
    }

    /// An item's tags, in tag-table order.
    pub open spec fn linked_tags(self, fid: Seq<char>) -> Seq<Tag> {
        self.tags@.filter(|t: Tag| self.linked(fid, t.id@))
    }

    /// The names of an item's tags, in tag-table order.
    pub open spec fn file_tag_names(self, fid: Seq<char>) -> Seq<Seq<char>> {
        self.linked_tags(fid).map_values(|t: Tag| t.name@)
    }

    /// The canonical tag projection of an item: its tag names sorted and
    /// space-joined.
    #[verifier::opaque]
    pub open spec fn projection_of(self, fid: Seq<char>) -> Seq<char> {
        join_with(self.file_tag_names(fid).sort_by(chars_le()), seq![' '])
    }

    /// The index records carry pairwise distinct item identities.
    pub open spec fn distinct_files(self) -> bool {
        forall|i: int, j: int|
            0 <= i < j < self.entries@.len() ==> (#[trigger] self.entries@[i]).file.id@ != (
            #[trigger] self.entries@[j]).file.id@
    }

    /// The tag table carries pairwise distinct identities and names.
    pub open spec fn distinct_tags(self) -> bool {
        &&& forall|i: int, j: int|
            0 <= i < j < self.tags@.len() ==> (#[trigger] self.tags@[i]).id@ != (
            #[trigger] self.tags@[j]).id@
        &&& forall|i: int, j: int|
            0 <= i < j < self.tags@.len() ==> (#[trigger] self.tags@[i]).name@ != (
            #[trigger] self.tags@[j]).name@
    }

    /// The association is unique on the pair and references existing
    /// items and tags.
    pub open spec fn links_ok(self) -> bool {
        &&& forall|i: int, j: int|
            0 <= i < j < self.links@.len() ==> !((#[trigger] self.links@[i]).file_id@ == (
            #[trigger] self.links@[j]).file_id@ && self.links@[i].tag_id@ == self.links@[j].tag_id@)
        &&& forall|i: int|
            0 <= i < self.links@.len() ==> self.has_file((#[trigger] self.links@[i]).file_id@)
                && self.has_tag_id(self.links@[i].tag_id@)
    }

    /// Every index record's tag projection reflects the association:
    /// the record is fresh, never stale.
    pub open spec fn projections_fresh(self) -> bool {
        forall|i: int|
            0 <= i < self.entries@.len() ==> (#[trigger] self.entries@[i]).tags_text@
                == self.projection_of(self.entries@[i].file.id@)
    }

    pub open spec fn wf(self) -> bool {
        &&& self.distinct_files()
        &&& self.distinct_tags()
        &&& self.links_ok()
        &&& self.projections_fresh()
    }

    /// The item carries at least one of the named tags.
    #[verifier::opaque]
    pub open spec fn matches_any(self, fid: Seq<char>, names: Seq<Seq<char>>) -> bool {
        exists|i: int|
            0 <= i < self.tags@.len() && names.contains((#[trigger] self.tags@[i]).name@)
                && self.linked(fid, self.tags@[i].id@)
    }

    /// The item carries every named tag that resolves, and at least one
    /// resolves: exact coverage of the resolved tag set.
    #[verifier::opaque]
    pub open spec fn matches_all(self, fid: Seq<char>, names: Seq<Seq<char>>) -> bool {
        &&& self.matches_any(fid, names)
        &&& forall|i: int|
            0 <= i < self.tags@.len() && names.contains((#[trigger] self.tags@[i]).name@)
                ==> self.linked(fid, self.tags@[i].id@)
    }

    /// The distinct-tag overlap of a candidate with a reference item,
    /// counted over the tag table.
    #[verifier::opaque]
    pub open spec fn shared_count(self, cid: Seq<char>, rid: Seq<char>) -> nat {
        self.tags@.filter(|t: Tag| self.linked(cid, t.id@) && self.linked(rid, t.id@)).len()
    }
}

/// The scope filter: when a workspace is given, the item must belong to
/// it.
pub open spec fn ws_ok(ws: Option<String>, f: File) -> bool {
    match ws {
        Some(w) => f.workspace_id@ == w@,
        None => true,
    }
}

/// The result row `r` is the projection of item `f` under rank `k`.
#[verifier::opaque]
pub open spec fn from_file(r: SearchResult, f: File, k: Rank) -> bool {
    &&& r.id@ == f.id@
    &&& r.workspace_id@ == f.workspace_id@
    &&& r.file_type@ == f.file_type@
    &&& r.title@ == f.title@
    &&& r.created_at@ == f.created_at@
    &&& r.updated_at@ == f.updated_at@
    &&& r.rank == k
}

/// The numeric part of a rank, for ordering within one query kind.
pub open spec fn rank_num(k: Rank) -> nat {
    match k {
        Rank::TagMatch => 0,
        Rank::Overlap(n) => n as nat,
    }
}

/// `a` may stand no later than `b` in a ranked result list: a strictly
/// greater rank, or an equal rank and no older update stamp.
pub open spec fn res_order_ge(a: SearchResult, b: SearchResult) -> bool {
    ||| rank_num(a.rank) > rank_num(b.rank)
    ||| (rank_num(a.rank) == rank_num(b.rank) && lex_le(b.updated_at@, a.updated_at@))
}

impl SearchIndex {
    /// Whether the association holds the pair, by scan.
    pub fn is_linked(&self, fid: &str, tid: &str) -> (r: bool)
        ensures
            r == self.linked(fid@, tid@),
    {
        let mut k: usize = 0;
        while k < self.links.len()
            invariant
                k <= self.links@.len(),
                forall|k2: int|
                    0 <= k2 < k ==> !((#[trigger] self.links@[k2]).file_id@ == fid@
                        && self.links@[k2].tag_id@ == tid@),
            decreases self.links@.len() - k,
        {
            let l = &self.links[k];
            if str_eq(l.file_id.as_str(), fid) && str_eq(l.tag_id.as_str(), tid) {
                return true;
            }
            k += 1;
        }
        false
    }
}

/// Whether one of the names is `n`, by scan.
pub fn name_in(names: &Vec<String>, n: &str) -> (r: bool)
    ensures
        r == views_of(names@).contains(n@),
{
    let mut i: usize = 0;
    while i < names.len()
        invariant
            i <= names@.len(),
            forall|j: int| 0 <= j < i ==> views_of(names@)[j] != n@,
        decreases names@.len() - i,
    {
        if str_eq(names[i].as_str(), n) {
            assert(views_of(names@)[i as int] == n@);
            return true;
        }
        i += 1;
    }
    assert(forall|j: int| 0 <= j < names@.len() ==> views_of(names@)[j] != n@);
    false
}

impl SearchIndex {
    /// Evaluate the tag-set match for one item: any-of under
    /// `match_all == false`, exact coverage of the resolved set under
    /// `match_all == true`.
    pub fn tag_match(&self, fid: &str, tag_names: &Vec<String>, match_all: bool) -> (r: bool)
        ensures
            match_all ==> r == self.matches_all(fid@, views_of(tag_names@)),
            !match_all ==> r == self.matches_any(fid@, views_of(tag_names@)),
    {
        let ghost names = views_of(tag_names@);
        let mut any = false;
        let mut all = true;
        let mut i: usize = 0;
        while i < self.tags.len()
            invariant
                i <= self.tags@.len(),
                any == exists|k: int|
                    0 <= k < i && names.contains((#[trigger] self.tags@[k]).name@) && self.linked(
                        fid@,
                        self.tags@[k].id@,
                    ),
                all == forall|k: int|
                    0 <= k < i && names.contains((#[trigger] self.tags@[k]).name@) ==> self.linked(
                        fid@,
                        self.tags@[k].id@,
                    ),
                names == views_of(tag_names@),
            decreases self.tags@.len() - i,
        {
            let t = &self.tags[i];
            if name_in(tag_names, t.name.as_str()) {
                if self.is_linked(fid, t.id.as_str()) {
                    any = true;
                } else {
                    all = false;
                }
            }
            i += 1;
        }
        proof {
            reveal(SearchIndex::matches_any);
            reveal(SearchIndex::matches_all);
        }
        if match_all {
            any && all
        } else {
            any
        }
    }

    /// The distinct-tag overlap of a candidate with a reference item.
    pub fn overlap(&self, cid: &str, rid: &str) -> (n: u64)
        requires
            self.tags@.len() <= u64::MAX,
        ensures
            n as nat == self.shared_count(cid@, rid@),
    {
        let ghost p = |t: Tag| self.linked(cid@, t.id@) && self.linked(rid@, t.id@);
        let mut n: u64 = 0;
        let mut i: usize = 0;
        while i < self.tags.len()
            invariant
                i <= self.tags@.len(),
                self.tags@.len() <= u64::MAX,
                n as nat == self.tags@.take(i as int).filter(p).len(),
                n <= i,
                p == (|t: Tag| self.linked(cid@, t.id@) && self.linked(rid@, t.id@)),
            decreases self.tags@.len() - i,
        {
            let t = &self.tags[i];
            proof {
                assert(self.tags@.take(i as int + 1).drop_last() =~= self.tags@.take(i as int));
                assert(self.tags@.take(i as int + 1).last() == self.tags@[i as int]);
                reveal_with_fuel(Seq::filter, 2);
            }
            if self.is_linked(cid, t.id.as_str()) && self.is_linked(rid, t.id.as_str()) {
                n += 1;
            }
            i += 1;
        }
        proof {
            reveal(SearchIndex::shared_count);
            assert(self.tags@.take(self.tags@.len() as int) =~= self.tags@);
        }
        n
    }
}

fn rank_value(k: &Rank) -> (n: u64)
    ensures
        n as nat == rank_num(*k),
{
    match k {
        Rank::TagMatch => 0,
        Rank::Overlap(n) => *n,
    }
}

/// Whether `a` may stand no later than `b` in ranked order.
fn res_ge(a: &SearchResult, b: &SearchResult) -> (r: bool)
    ensures
        r == res_order_ge(*a, *b),
{
    let ra = rank_value(&a.rank);
    let rb = rank_value(&b.rank);
    if ra > rb {
        true
    } else if ra < rb {
        false
    } else {
        let lt = crate::text::str_lex_lt(a.updated_at.as_str(), b.updated_at.as_str());
        proof {
            crate::text::lemma_lex_lt_asym(a.updated_at@, b.updated_at@);
            crate::text::lemma_lex_total(a.updated_at@, b.updated_at@);
        }
        !lt
    }
}

proof fn lemma_res_order_total(a: SearchResult, b: SearchResult)
    ensures
        res_order_ge(a, b) || res_order_ge(b, a),
{
    crate::text::lemma_lex_total(a.updated_at@, b.updated_at@);
}

proof fn lemma_res_order_trans(a: SearchResult, b: SearchResult, c: SearchResult)
    ensures
        res_order_ge(a, b) && res_order_ge(b, c) ==> res_order_ge(a, c),
{
    crate::text::lemma_lex_le_trans(c.updated_at@, b.updated_at@, a.updated_at@);
}

/// Sort a result list into ranked order: rank descending, update stamp
/// descending within equal ranks.
fn sort_results(v: &mut Vec<SearchResult>)
    ensures
        final(v)@.to_multiset() == old(v)@.to_multiset(),
        final(v)@.len() == old(v)@.len(),
        forall|j1: int, j2: int|
            0 <= j1 < j2 < final(v)@.len() ==> res_order_ge(final(v)@[j1], final(v)@[j2]),
{
    broadcast use vstd::seq_lib::group_to_multiset_ensures;
    broadcast use vstd::seq_lib::to_multiset_insert;
    broadcast use vstd::multiset::group_multiset_axioms;

    let n = v.len();
    if n <= 1 {
        return ;
    }
    let mut i: usize = 1;
    while i < n
        invariant
            1 <= i <= n,
            n == v@.len(),
            v@.len() == old(v)@.len(),
            v@.to_multiset() == old(v)@.to_multiset(),
            forall|j1: int, j2: int| 0 <= j1 < j2 < i ==> res_order_ge(v@[j1], v@[j2]),
        decreases n - i,
    {
        let ghost prev = v@;
        let x = v.remove(i);
        let ghost v1 = v@;
        let mut j: usize = i;
        while j > 0 && !res_ge(&v[j - 1], &x)
            invariant
                j <= i,
                i < n == v1.len() + 1,
                v@ == v1,
                forall|k: int| j <= k < i ==> res_order_ge(x, v1[k]),
            decreases j,
        {
            proof {
                lemma_res_order_total(v1[j - 1], x);
            }
            j -= 1;
        }
        v.insert(j, x);
        proof {
            assert(v1 == prev.remove(i as int));
            vstd::seq_lib::to_multiset_remove::<SearchResult>(prev, i as int);
            assert(v@ == v1.insert(j as int, x));
            vstd::seq_lib::to_multiset_insert::<SearchResult>(v1, j as int, x);
            assert(prev.contains(x));
            vstd::seq_lib::to_multiset_contains::<SearchResult>(prev, x);
            assert(prev.to_multiset().remove(x).insert(x) =~= prev.to_multiset());
            assert(v@.to_multiset() == prev.to_multiset());
            assert forall|j1: int, j2: int| 0 <= j1 < j2 < i + 1 implies res_order_ge(
                v@[j1],
                v@[j2],
            ) by {
                // the first i entries of `v1` are the old sorted prefix
                assert(forall|k: int| 0 <= k < i ==> v1[k] == prev[k]);
                if j2 < j {
                } else if j2 == j {
                    // everything at or before the insertion point stays
                    // no later than `x`
                    assert(res_order_ge(v1[j - 1], x));
                    if j1 < j - 1 {
                        lemma_res_order_trans(v1[j1], v1[j - 1], x);
                    }
                } else if j1 == j {
                    assert(v@[j2] == v1[j2 - 1]);
                } else if j1 < j {
                    assert(v@[j1] == v1[j1]);
                    assert(v@[j2] == v1[j2 - 1]);
                } else {
                    assert(v@[j1] == v1[j1 - 1]);
                    assert(v@[j2] == v1[j2 - 1]);
                }
            }
        }
        i += 1;
    }
}

/// Reordering ranked rows with pairwise distinct identities keeps the
/// identities pairwise distinct.
proof fn lemma_perm_distinct_ids(a: Seq<SearchResult>, b: Seq<SearchResult>)
    requires
        a.to_multiset() == b.to_multiset(),
        forall|i: int, j: int| 0 <= i < j < a.len() ==> a[i].id@ != a[j].id@,
    ensures
        forall|i: int, j: int| 0 <= i < j < b.len() ==> b[i].id@ != b[j].id@,
{
    let key = |r: SearchResult| r.id@;
    assert forall|i: int, j: int| 0 <= i < j < a.len() implies key(#[trigger] a[i]) != key(
        #[trigger] a[j],
    ) by {}
    crate::text::lemma_perm_distinct_by(a, b, key);
    assert forall|i: int, j: int| 0 <= i < j < b.len() implies b[i].id@ != b[j].id@ by {
        assert(key(b[i]) != key(b[j]));
    }
}

impl SearchIndex {
    /// Entry `i` is selected by this tag-search request.
    pub open spec fn tag_hit(
        self,
        i: int,
        ws: Option<String>,
        names: Seq<Seq<char>>,
        match_all: bool,
    ) -> bool {
        &&& ws_ok(ws, self.entries@[i].file)
        &&& if match_all {
            self.matches_all(self.entries@[i].file.id@, names)
        } else {
            self.matches_any(self.entries@[i].file.id@, names)
        }
    }
    /// What the scan of the index guarantees about the rows it
    /// collected, given the per-row source indices.
    proof fn lemma_collected_hits(
        self,
        ws: Option<String>,
        names: Seq<Seq<char>>,
        match_all: bool,
        hits: Seq<SearchResult>,
        src: Seq<int>,
    )
        requires
            self.wf(),
            src.len() == hits.len(),
            forall|j: int|
                #![trigger src[j]]
                0 <= j < src.len() ==> 0 <= src[j] < self.entries@.len() && self.tag_hit(
                    src[j],
                    ws,
                    names,
                    match_all,
                ) && from_file(hits[j], self.entries@[src[j]].file, Rank::TagMatch)
                    && hits[j].id@ == self.entries@[src[j]].file.id@,
            forall|j1: int, j2: int| 0 <= j1 < j2 < src.len() ==> src[j1] < src[j2],
            forall|i2: int|
                0 <= i2 < self.entries@.len() && #[trigger] self.tag_hit(i2, ws, names, match_all)
                    ==> exists|j: int| 0 <= j < src.len() && #[trigger] src[j] == i2,
        ensures
            forall|j: int|
                0 <= j < hits.len() ==> self.row_of_hit(#[trigger] hits[j], ws, names, match_all),
            forall|i2: int|
                0 <= i2 < self.entries@.len() ==> (self.tag_hit(i2, ws, names, match_all)
                    <==> exists|j: int|
                    0 <= j < hits.len() && (#[trigger] hits[j]).id@ == self.entries@[i2].file.id@),
            forall|j1: int, j2: int|
                0 <= j1 < j2 < hits.len() ==> (#[trigger] hits[j1]).id@ != (
                #[trigger] hits[j2]).id@,
            names.len() == 0 ==> hits.len() == 0,
    {
        assert forall|j: int| 0 <= j < hits.len() implies self.row_of_hit(
            #[trigger] hits[j],
            ws,
            names,
            match_all,
        ) by {
            reveal(SearchIndex::row_of_hit);
            assert(0 <= src[j] < self.entries@.len() && self.tag_hit(src[j], ws, names, match_all)
                && from_file(hits[j], self.entries@[src[j]].file, Rank::TagMatch));
        }
        assert forall|i2: int|
            0 <= i2 < self.entries@.len() && self.tag_hit(i2, ws, names, match_all) implies exists|
            j: int,
        |
            0 <= j < hits.len() && (#[trigger] hits[j]).id@ == self.entries@[i2].file.id@ by {
            let j = choose|j: int| 0 <= j < src.len() && #[trigger] src[j] == i2;
            assert(hits[j].id@ == self.entries@[i2].file.id@);
        }
        assert forall|i2: int|
            0 <= i2 < self.entries@.len() && !self.tag_hit(i2, ws, names, match_all) implies !exists|
            j: int,
        |
            0 <= j < hits.len() && (#[trigger] hits[j]).id@ == self.entries@[i2].file.id@ by {
            assert forall|j: int| 0 <= j < hits.len() implies (#[trigger] hits[j]).id@
                != self.entries@[i2].file.id@ by {
                assert(self.tag_hit(src[j], ws, names, match_all));
                if src[j] != i2 {
                    assert(self.entries@[src[j]].file.id@ != self.entries@[i2].file.id@);
                }
            }
        }
        assert forall|j1: int, j2: int| 0 <= j1 < j2 < hits.len() implies (
        #[trigger] hits[j1]).id@ != (#[trigger] hits[j2]).id@ by {
            assert(src[j1] < src[j2] < self.entries@.len());
        }
        if names.len() == 0 && hits.len() > 0 {
            reveal(SearchIndex::matches_any);
            reveal(SearchIndex::matches_all);
            assert(self.tag_hit(src[0], ws, names, match_all));
            assert(false);
        }
    }

    /// The row is the tag-match projection of some entry this request
    /// selects.
    #[verifier::opaque]
    pub open spec fn row_of_hit(
        self,
        r: SearchResult,
        ws: Option<String>,
        names: Seq<Seq<char>>,
        match_all: bool,
    ) -> bool {
        exists|i2: int|
            0 <= i2 < self.entries@.len() && #[trigger] self.tag_hit(i2, ws, names, match_all)
                && from_file(r, self.entries@[i2].file, Rank::TagMatch)
    }

    /// A selected row carries the constant tag-match rank.
    proof fn lemma_row_of_hit_rank(
        self,
        r: SearchResult,
        ws: Option<String>,
        names: Seq<Seq<char>>,
        match_all: bool,
    )
        requires
            self.row_of_hit(r, ws, names, match_all),
        ensures
            r.rank == Rank::TagMatch,
    {
        reveal(SearchIndex::row_of_hit);
        reveal(from_file);
    }

    /// Collect, in index order, the result rows of the entries this
    /// tag-search request selects.
    fn collect_tag_hits(
        &self,
        workspace_id: &Option<String>,
        tag_names: &Vec<String>,
        match_all: bool,
    ) -> (hits: Vec<SearchResult>)
        requires
            self.wf(),
        ensures
            forall|j: int|
                0 <= j < hits@.len() ==> self.row_of_hit(
                    #[trigger] hits@[j],
                    *workspace_id,
                    views_of(tag_names@),
                    match_all,
                ),
            forall|i2: int|
                0 <= i2 < self.entries@.len() ==> (self.tag_hit(
                    i2,
                    *workspace_id,
                    views_of(tag_names@),
                    match_all,
                ) <==> exists|j: int|
                    0 <= j < hits@.len() && (#[trigger] hits@[j]).id@
                        == self.entries@[i2].file.id@),
            forall|j1: int, j2: int|
                0 <= j1 < j2 < hits@.len() ==> (#[trigger] hits@[j1]).id@ != (
                #[trigger] hits@[j2]).id@,
            tag_names@.len() == 0 ==> hits@.len() == 0,
    {
        let ghost names = views_of(tag_names@);
        let mut hits: Vec<SearchResult> = Vec::new();
        let ghost mut src: Seq<int> = Seq::empty();
        let mut i: usize = 0;
        while i < self.entries.len()
            invariant
                i <= self.entries@.len(),
                self.wf(),
                names == views_of(tag_names@),
                src.len() == hits@.len(),
                forall|j: int|
                    #![trigger src[j]]
                    0 <= j < src.len() ==> 0 <= src[j] < i && self.tag_hit(
                        src[j],
                        *workspace_id,
                        names,
                        match_all,
                    ) && from_file(hits@[j], self.entries@[src[j]].file, Rank::TagMatch)
                        && hits@[j].id@ == self.entries@[src[j]].file.id@,
                forall|j1: int, j2: int| 0 <= j1 < j2 < src.len() ==> src[j1] < src[j2],
                forall|i2: int|
                    0 <= i2 < i && #[trigger] self.tag_hit(i2, *workspace_id, names, match_all)
                        ==> exists|j: int| 0 <= j < src.len() && #[trigger] src[j] == i2,
            decreases self.entries@.len() - i,
        {
            let e = &self.entries[i];
            let ok_ws = match workspace_id {
                Some(w) => str_eq(e.file.workspace_id.as_str(), w.as_str()),
                None => true,
            };
            let ok = ok_ws && self.tag_match(e.file.id.as_str(), tag_names, match_all);
            proof {
                assert(ok == self.tag_hit(i as int, *workspace_id, names, match_all));
            }
            if ok {
                let r = e.file.to_result(Rank::TagMatch);
                let ghost old_hits = hits@;
                let ghost old_src = src;
                hits.push(r);
                proof {
                    src = src.push(i as int);
                    assert(from_file(r, self.entries@[i as int].file, Rank::TagMatch)) by {
                        reveal(from_file);
                    }
                    assert(forall|j: int|
                        0 <= j < old_src.len() ==> #[trigger] src[j] == old_src[j]
                            && #[trigger] hits@[j] == old_hits[j]);
                    assert(src[old_src.len() as int] == i as int);
                    assert(hits@[old_src.len() as int] == r);
                    assert forall|i2: int|
                        0 <= i2 < i + 1 && #[trigger] self.tag_hit(
                            i2,
                            *workspace_id,
                            names,
                            match_all,
                        ) implies exists|j: int| 0 <= j < src.len() && #[trigger] src[j] == i2 by {
                        if i2 == i {
                            assert(src[old_src.len() as int] == i2);
                        } else {
                            let j = choose|j: int|
                                0 <= j < old_src.len() && #[trigger] old_src[j] == i2;
                            assert(src[j] == i2);
                        }
                    }
                }
            }
            i += 1;
        }
        proof {
            self.lemma_collected_hits(*workspace_id, names, match_all, hits@, src);
        }
        hits
    }

    /// What sorting preserves of the scan's guarantees.
    proof fn lemma_sorted_hits(
        self,
        ws: Option<String>,
        names: Seq<Seq<char>>,
        match_all: bool,
        pre: Seq<SearchResult>,
        post: Seq<SearchResult>,
    )
        requires
            pre.to_multiset() == post.to_multiset(),
            forall|j: int|
                0 <= j < pre.len() ==> self.row_of_hit(#[trigger] pre[j], ws, names, match_all),
            forall|i2: int|
                0 <= i2 < self.entries@.len() ==> (self.tag_hit(i2, ws, names, match_all)
                    <==> exists|j: int|
                    0 <= j < pre.len() && (#[trigger] pre[j]).id@ == self.entries@[i2].file.id@),
            forall|j1: int, j2: int|
                0 <= j1 < j2 < pre.len() ==> (#[trigger] pre[j1]).id@ != (#[trigger] pre[j2]).id@,
        ensures
            forall|j: int|
                0 <= j < post.len() ==> self.row_of_hit(#[trigger] post[j], ws, names, match_all),
            forall|i2: int|
                0 <= i2 < self.entries@.len() ==> (self.tag_hit(i2, ws, names, match_all)
                    <==> exists|j: int|
                    0 <= j < post.len() && (#[trigger] post[j]).id@ == self.entries@[i2].file.id@),
            forall|j1: int, j2: int|
                0 <= j1 < j2 < post.len() ==> (#[trigger] post[j1]).id@ != (
                #[trigger] post[j2]).id@,
            post.len() == pre.len(),
    {
        crate::text::lemma_perm_contains(pre, post);
        lemma_perm_distinct_ids(pre, post);
        assert forall|j: int| 0 <= j < post.len() implies self.row_of_hit(
            #[trigger] post[j],
            ws,
            names,
            match_all,
        ) by {
            assert(post.contains(post[j]));
            let j0 = pre.lemma_contains_to_index(post[j]);
        }
        assert forall|i2: int|
            0 <= i2 < self.entries@.len() && self.tag_hit(i2, ws, names, match_all) implies exists|
            j: int,
        |
            0 <= j < post.len() && (#[trigger] post[j]).id@ == self.entries@[i2].file.id@ by {
            let j0 = choose|j0: int|
                0 <= j0 < pre.len() && (#[trigger] pre[j0]).id@ == self.entries@[i2].file.id@;
            assert(pre.contains(pre[j0]));
            let j = post.lemma_contains_to_index(pre[j0]);
        }
        assert forall|i2: int|
            0 <= i2 < self.entries@.len() && !self.tag_hit(i2, ws, names, match_all) implies !exists|
            j: int,
        |
            0 <= j < post.len() && (#[trigger] post[j]).id@ == self.entries@[i2].file.id@ by {
            assert forall|j: int| 0 <= j < post.len() implies (#[trigger] post[j]).id@
                != self.entries@[i2].file.id@ by {
                assert(post.contains(post[j]));
                let j0 = pre.lemma_contains_to_index(post[j]);
            }
        }
    }

    /// Search by tag names: an item is returned exactly when it belongs
    /// to the requested workspace (if one is given) and meets the
    /// tag-set semantics; results carry the constant tag-match rank and
    /// come most recently updated first. An empty name list returns the
    /// empty list outright.
    pub fn search_by_tags(
        &self,
        workspace_id: Option<String>,
        tag_names: Vec<String>,
        match_all: bool,
    ) -> (results: Vec<SearchResult>)
        requires
            self.wf(),
        ensures
            forall|i: int|
                0 <= i < self.entries@.len() ==> (self.tag_hit(
                    i,
                    workspace_id,
                    views_of(tag_names@),
                    match_all,
                ) <==> exists|j: int|
                    0 <= j < results@.len() && (#[trigger] results@[j]).id@
                        == self.entries@[i].file.id@),
            forall|j: int|
                0 <= j < results@.len() ==> self.row_of_hit(
                    #[trigger] results@[j],
                    workspace_id,
                    views_of(tag_names@),
                    match_all,
                ),
            forall|j1: int, j2: int|
                0 <= j1 < j2 < results@.len() ==> (#[trigger] results@[j1]).id@ != (
                #[trigger] results@[j2]).id@,
            forall|j1: int, j2: int|
                0 <= j1 < j2 < results@.len() ==> lex_le(
                    results@[j2].updated_at@,
                    results@[j1].updated_at@,
                ),
            tag_names@.len() == 0 ==> results@.len() == 0,
    {
        let ghost names = views_of(tag_names@);
        let mut hits = self.collect_tag_hits(&workspace_id, &tag_names, match_all);
        let ghost pre = hits@;
        sort_results(&mut hits);
        proof {
            self.lemma_sorted_hits(workspace_id, names, match_all, pre, hits@);
            assert forall|j1: int, j2: int| 0 <= j1 < j2 < hits@.len() implies lex_le(
                hits@[j2].updated_at@,
                hits@[j1].updated_at@,
            ) by {
                assert(res_order_ge(hits@[j1], hits@[j2]));
                self.lemma_row_of_hit_rank(hits@[j1], workspace_id, names, match_all);
                self.lemma_row_of_hit_rank(hits@[j2], workspace_id, names, match_all);
            }
        }
        hits
    }
}

impl SearchIndex {
    /// Entry `i` is a similarity candidate for the reference item: not
    /// the reference itself, and sharing at least one distinct tag with
    /// it.
    pub open spec fn similar_candidate(self, i: int, rid: Seq<char>) -> bool {
        &&& 0 <= i < self.entries@.len()
        &&& self.entries@[i].file.id@ != rid
        &&& self.shared_count(self.entries@[i].file.id@, rid) > 0
    }

    /// The row is the overlap-ranked projection of some similarity
    /// candidate, its rank the distinct shared-tag count.
    #[verifier::opaque]
    pub open spec fn row_of_similar(self, r: SearchResult, rid: Seq<char>) -> bool {
        exists|i: int|
            #[trigger] self.similar_candidate(i, rid) && from_file(
                r,
                self.entries@[i].file,
                Rank::Overlap(self.shared_count(self.entries@[i].file.id@, rid) as u64),
            )
    }

    pub open spec fn candidate_pred(self, rid: Seq<char>) -> spec_fn(IndexEntry) -> bool {
        |e: IndexEntry| e.file.id@ != rid && self.shared_count(e.file.id@, rid) > 0
    }

    /// How many entries are similarity candidates for the reference.
    pub open spec fn candidate_count(self, rid: Seq<char>) -> nat {
        self.entries@.filter(self.candidate_pred(rid)).len()
    }

    /// A similarity row never names the reference, and always carries a
    /// positive overlap rank.
    pub proof fn lemma_row_of_similar_props(self, r: SearchResult, rid: Seq<char>)
        requires
            self.row_of_similar(r, rid),
            self.tags@.len() <= u64::MAX,
        ensures
            r.id@ != rid,
            r.rank is Overlap,
            rank_num(r.rank) > 0,
    {
        reveal(SearchIndex::row_of_similar);
        reveal(from_file);
        let i = choose|i: int|
            #[trigger] self.similar_candidate(i, rid) && from_file(
                r,
                self.entries@[i].file,
                Rank::Overlap(self.shared_count(self.entries@[i].file.id@, rid) as u64),
            );
        self.lemma_shared_count_bound(self.entries@[i].file.id@, rid);
    }

    /// The overlap never exceeds the size of the tag table.
    proof fn lemma_shared_count_bound(self, cid: Seq<char>, rid: Seq<char>)
        ensures
            self.shared_count(cid, rid) <= self.tags@.len(),
    {
        reveal(SearchIndex::shared_count);
        self.tags@.lemma_filter_len(|t: Tag| self.linked(cid, t.id@) && self.linked(rid, t.id@));
    }

    /// Collect, in index order, the overlap-ranked rows of all
    /// similarity candidates for the reference item.
    fn collect_similar(&self, rid: &str) -> (hits: Vec<SearchResult>)
        requires
            self.wf(),
            self.tags@.len() <= u64::MAX,
        ensures
            forall|j: int|
                0 <= j < hits@.len() ==> self.row_of_similar(#[trigger] hits@[j], rid@),
            forall|i2: int|
                0 <= i2 < self.entries@.len() ==> (self.similar_candidate(i2, rid@)
                    <==> exists|j: int|
                    0 <= j < hits@.len() && (#[trigger] hits@[j]).id@
                        == self.entries@[i2].file.id@),
            forall|j1: int, j2: int|
                0 <= j1 < j2 < hits@.len() ==> (#[trigger] hits@[j1]).id@ != (
                #[trigger] hits@[j2]).id@,
            hits@.len() == self.candidate_count(rid@),
    {
        let mut hits: Vec<SearchResult> = Vec::new();
        let ghost mut src: Seq<int> = Seq::empty();
        let ghost cpred = self.candidate_pred(rid@);
        let mut i: usize = 0;
        while i < self.entries.len()
            invariant
                i <= self.entries@.len(),
                self.wf(),
                self.tags@.len() <= u64::MAX,
                src.len() == hits@.len(),
                cpred == self.candidate_pred(rid@),
                hits@.len() == self.entries@.take(i as int).filter(cpred).len(),
                forall|j: int|
                    #![trigger src[j]]
                    0 <= j < src.len() ==> 0 <= src[j] < i && self.similar_candidate(src[j], rid@)
                        && from_file(
                        hits@[j],
                        self.entries@[src[j]].file,
                        Rank::Overlap(
                            self.shared_count(self.entries@[src[j]].file.id@, rid@) as u64,
                        ),
                    ) && hits@[j].id@ == self.entries@[src[j]].file.id@,
                forall|j1: int, j2: int| 0 <= j1 < j2 < src.len() ==> src[j1] < src[j2],
                forall|i2: int|
                    0 <= i2 < i && #[trigger] self.similar_candidate(i2, rid@) ==> exists|j: int|
                        0 <= j < src.len() && #[trigger] src[j] == i2,
            decreases self.entries@.len() - i,
        {
            let e = &self.entries[i];
            let n = self.overlap(e.file.id.as_str(), rid);
            let ok = n > 0 && !str_eq(e.file.id.as_str(), rid);
            proof {
                assert(self.entries@.take(i as int + 1).drop_last() =~= self.entries@.take(
                    i as int,
                ));
                assert(self.entries@.take(i as int + 1).last() == self.entries@[i as int]);
                reveal_with_fuel(Seq::filter, 2);
                assert(cpred(self.entries@[i as int]) == ok);
                assert(ok == self.similar_candidate(i as int, rid@));
            }
            if ok {
                let r = e.file.to_result(Rank::Overlap(n));
                let ghost old_hits = hits@;
                let ghost old_src = src;
                hits.push(r);
                proof {
                    src = src.push(i as int);
                    assert(n as nat == self.shared_count(self.entries@[i as int].file.id@, rid@));
                    assert(n == self.shared_count(self.entries@[i as int].file.id@, rid@) as u64);
                    assert(from_file(
                        r,
                        self.entries@[i as int].file,
                        Rank::Overlap(
                            self.shared_count(self.entries@[i as int].file.id@, rid@) as u64,
                        ),
                    )) by {
                        reveal(from_file);
                    }
                    assert(forall|j: int|
                        0 <= j < old_src.len() ==> #[trigger] src[j] == old_src[j]
                            && #[trigger] hits@[j] == old_hits[j]);
                    assert(src[old_src.len() as int] == i as int);
                    assert(hits@[old_src.len() as int] == r);
                    assert forall|i2: int|
                        0 <= i2 < i + 1 && #[trigger] self.similar_candidate(i2, rid@) implies
                        exists|j: int| 0 <= j < src.len() && #[trigger] src[j] == i2 by {
                        if i2 == i {
                            assert(src[old_src.len() as int] == i2);
                        } else {
                            let j = choose|j: int|
                                0 <= j < old_src.len() && #[trigger] old_src[j] == i2;
                            assert(src[j] == i2);
                        }
                    }
                }
            }
            i += 1;
        }
        proof {
            assert(self.entries@.take(self.entries@.len() as int) =~= self.entries@);
            self.lemma_collected_similar(rid@, hits@, src);
        }
        hits
    }

    /// What the scan guarantees about the candidate rows it collected.
    proof fn lemma_collected_similar(
        self,
        rid: Seq<char>,
        hits: Seq<SearchResult>,
        src: Seq<int>,
    )
        requires
            self.wf(),
            src.len() == hits.len(),
            forall|j: int|
                #![trigger src[j]]
                0 <= j < src.len() ==> 0 <= src[j] < self.entries@.len() && self.similar_candidate(
                    src[j],
                    rid,
                ) && from_file(
                    hits[j],
                    self.entries@[src[j]].file,
                    Rank::Overlap(self.shared_count(self.entries@[src[j]].file.id@, rid) as u64),
                ) && hits[j].id@ == self.entries@[src[j]].file.id@,
            forall|j1: int, j2: int| 0 <= j1 < j2 < src.len() ==> src[j1] < src[j2],
            forall|i2: int|
                0 <= i2 < self.entries@.len() && #[trigger] self.similar_candidate(i2, rid)
                    ==> exists|j: int| 0 <= j < src.len() && #[trigger] src[j] == i2,
        ensures
            forall|j: int|
                0 <= j < hits.len() ==> self.row_of_similar(#[trigger] hits[j], rid),
            forall|i2: int|
                0 <= i2 < self.entries@.len() ==> (self.similar_candidate(i2, rid)
                    <==> exists|j: int|
                    0 <= j < hits.len() && (#[trigger] hits[j]).id@ == self.entries@[i2].file.id@),
            forall|j1: int, j2: int|
                0 <= j1 < j2 < hits.len() ==> (#[trigger] hits[j1]).id@ != (
                #[trigger] hits[j2]).id@,
    {
        assert forall|j: int| 0 <= j < hits.len() implies self.row_of_similar(
            #[trigger] hits[j],
            rid,
        ) by {
            reveal(SearchIndex::row_of_similar);
            assert(self.similar_candidate(src[j], rid) && from_file(
                hits[j],
                self.entries@[src[j]].file,
                Rank::Overlap(self.shared_count(self.entries@[src[j]].file.id@, rid) as u64),
            ));
        }
        assert forall|i2: int|
            0 <= i2 < self.entries@.len() && self.similar_candidate(i2, rid) implies exists|j: int|
            0 <= j < hits.len() && (#[trigger] hits[j]).id@ == self.entries@[i2].file.id@ by {
            let j = choose|j: int| 0 <= j < src.len() && #[trigger] src[j] == i2;
            assert(hits[j].id@ == self.entries@[i2].file.id@);
        }
        assert forall|i2: int|
            0 <= i2 < self.entries@.len() && !self.similar_candidate(i2, rid) implies !exists|
            j: int,
        |
            0 <= j < hits.len() && (#[trigger] hits[j]).id@ == self.entries@[i2].file.id@ by {
            assert forall|j: int| 0 <= j < hits.len() implies (#[trigger] hits[j]).id@
                != self.entries@[i2].file.id@ by {
                assert(self.similar_candidate(src[j], rid));
                if src[j] != i2 {
                    assert(self.entries@[src[j]].file.id@ != self.entries@[i2].file.id@);
                }
            }
        }
        assert forall|j1: int, j2: int| 0 <= j1 < j2 < hits.len() implies (
        #[trigger] hits[j1]).id@ != (#[trigger] hits[j2]).id@ by {
            assert(src[j1] < src[j2] < self.entries@.len());
        }
    }

    /// What sorting preserves of the candidate scan's guarantees.
    proof fn lemma_sorted_similar(
        self,
        rid: Seq<char>,
        pre: Seq<SearchResult>,
        post: Seq<SearchResult>,
    )
        requires
            pre.to_multiset() == post.to_multiset(),
            forall|j: int| 0 <= j < pre.len() ==> self.row_of_similar(#[trigger] pre[j], rid),
            forall|i2: int|
                0 <= i2 < self.entries@.len() ==> (self.similar_candidate(i2, rid)
                    <==> exists|j: int|
                    0 <= j < pre.len() && (#[trigger] pre[j]).id@ == self.entries@[i2].file.id@),
            forall|j1: int, j2: int|
                0 <= j1 < j2 < pre.len() ==> (#[trigger] pre[j1]).id@ != (#[trigger] pre[j2]).id@,
        ensures
            forall|j: int| 0 <= j < post.len() ==> self.row_of_similar(#[trigger] post[j], rid),
            forall|i2: int|
                0 <= i2 < self.entries@.len() ==> (self.similar_candidate(i2, rid)
                    <==> exists|j: int|
                    0 <= j < post.len() && (#[trigger] post[j]).id@ == self.entries@[i2].file.id@),
            forall|j1: int, j2: int|
                0 <= j1 < j2 < post.len() ==> (#[trigger] post[j1]).id@ != (
                #[trigger] post[j2]).id@,
            post.len() == pre.len(),
    {
        crate::text::lemma_perm_contains(pre, post);
        lemma_perm_distinct_ids(pre, post);
        assert forall|j: int| 0 <= j < post.len() implies self.row_of_similar(
            #[trigger] post[j],
            rid,
        ) by {
            assert(post.contains(post[j]));
            let j0 = pre.lemma_contains_to_index(post[j]);
        }
        assert forall|i2: int|
            0 <= i2 < self.entries@.len() && self.similar_candidate(i2, rid) implies exists|j: int|
            0 <= j < post.len() && (#[trigger] post[j]).id@ == self.entries@[i2].file.id@ by {
            let j0 = choose|j0: int|
                0 <= j0 < pre.len() && (#[trigger] pre[j0]).id@ == self.entries@[i2].file.id@;
            assert(pre.contains(pre[j0]));
            let j = post.lemma_contains_to_index(pre[j0]);
        }
        assert forall|i2: int|
            0 <= i2 < self.entries@.len() && !self.similar_candidate(i2, rid) implies !exists|
            j: int,
        |
            0 <= j < post.len() && (#[trigger] post[j]).id@ == self.entries@[i2].file.id@ by {
            assert forall|j: int| 0 <= j < post.len() implies (#[trigger] post[j]).id@
                != self.entries@[i2].file.id@ by {
                assert(post.contains(post[j]));
                let j0 = pre.lemma_contains_to_index(post[j]);
            }
        }
    }

    /// Rank items by their distinct-tag overlap with a reference item,
    /// the reference itself and zero-overlap items excluded, most shared
    /// tags first and most recently updated first among equals,
    /// truncated to `limit` rows (a negative limit keeps everything).
    /// Every dropped candidate ranks no better than every kept row.
    pub fn find_similar(&self, file_id: &str, limit: i64) -> (results: Vec<SearchResult>)
        requires
            self.wf(),
            self.tags@.len() <= u64::MAX,
        ensures
            forall|j: int|
                0 <= j < results@.len() ==> self.row_of_similar(#[trigger] results@[j], file_id@),
            forall|j: int|
                0 <= j < results@.len() ==> (#[trigger] results@[j]).id@ != file_id@ && rank_num(
                    results@[j].rank,
                ) > 0 && results@[j].rank is Overlap,
            forall|j1: int, j2: int|
                0 <= j1 < j2 < results@.len() ==> res_order_ge(
                    #[trigger] results@[j1],
                    #[trigger] results@[j2],
                ),
            forall|j1: int, j2: int|
                0 <= j1 < j2 < results@.len() ==> (#[trigger] results@[j1]).id@ != (
                #[trigger] results@[j2]).id@,
            limit >= 0 ==> results@.len() == vstd::math::min(
                limit as int,
                self.candidate_count(file_id@) as int,
            ),
            limit < 0 ==> results@.len() == self.candidate_count(file_id@),
            forall|i2: int|
                0 <= i2 < self.entries@.len() && !self.similar_candidate(i2, file_id@)
                    ==> !exists|j: int|
                    0 <= j < results@.len() && (#[trigger] results@[j]).id@
                        == self.entries@[i2].file.id@,
            forall|i2: int, j: int|
                #![trigger results@[j], self.entries@[i2]]
                self.similar_candidate(i2, file_id@) && 0 <= j < results@.len() && !(exists|
                    j2: int,
                |
                    0 <= j2 < results@.len() && (#[trigger] results@[j2]).id@
                        == self.entries@[i2].file.id@) ==> res_key_ge(
                    results@[j],
                    self.shared_count(self.entries@[i2].file.id@, file_id@),
                    self.entries@[i2].file.updated_at@,
                ),
    {
        let mut hits = self.collect_similar(file_id);
        let ghost pre = hits@;
        sort_results(&mut hits);
        proof {
            self.lemma_sorted_similar(file_id@, pre, hits@);
        }
        let ghost full = hits@;
        let keep: usize = if limit >= 0 && (limit as u64) < (hits.len() as u64) {
            limit as usize
        } else {
            hits.len()
        };
        hits.truncate(keep);
        proof {
            assert(hits@ =~= full.subrange(0, keep as int));
            assert forall|j: int| 0 <= j < hits@.len() implies self.row_of_similar(
                #[trigger] hits@[j],
                file_id@,
            ) && hits@[j].id@ != file_id@ && rank_num(hits@[j].rank) > 0 && hits@[j].rank
                is Overlap by {
                assert(hits@[j] == full[j]);
                self.lemma_row_of_similar_props(full[j], file_id@);
            }
            assert forall|i2: int|
                0 <= i2 < self.entries@.len() && !self.similar_candidate(i2, file_id@) implies
                !exists|j: int|
                0 <= j < hits@.len() && (#[trigger] hits@[j]).id@
                    == self.entries@[i2].file.id@ by {
                assert forall|j: int| 0 <= j < hits@.len() implies (#[trigger] hits@[j]).id@
                    != self.entries@[i2].file.id@ by {
                    assert(hits@[j] == full[j]);
                    assert(!(full[j].id@ == self.entries@[i2].file.id@));
                }
            }
            assert forall|i2: int, j: int|
                #![trigger hits@[j], self.entries@[i2]]
                self.similar_candidate(i2, file_id@) && 0 <= j < hits@.len() && !(exists|j2: int|
                    0 <= j2 < hits@.len() && (#[trigger] hits@[j2]).id@
                        == self.entries@[i2].file.id@) implies res_key_ge(
                hits@[j],
                self.shared_count(self.entries@[i2].file.id@, file_id@),
                self.entries@[i2].file.updated_at@,
            ) by {
                let jf = choose|jf: int|
                    0 <= jf < full.len() && (#[trigger] full[jf]).id@
                        == self.entries@[i2].file.id@;
                if jf < hits@.len() {
                    assert(hits@[jf] == full[jf]);
                    assert(false);
                }
                assert(res_order_ge(full[j], full[jf]));
                self.lemma_row_key(full[jf], file_id@, i2);
            }
        }
        hits
    }

    /// A candidate's row carries exactly the candidate's overlap count
    /// and update stamp.
    proof fn lemma_row_key(self, r: SearchResult, rid: Seq<char>, i2: int)
        requires
            self.wf(),
            self.tags@.len() <= u64::MAX,
            self.row_of_similar(r, rid),
            0 <= i2 < self.entries@.len(),
            r.id@ == self.entries@[i2].file.id@,
        ensures
            rank_num(r.rank) == self.shared_count(self.entries@[i2].file.id@, rid),
            r.updated_at@ == self.entries@[i2].file.updated_at@,
    {
        reveal(SearchIndex::row_of_similar);
        reveal(from_file);
        let i = choose|i: int|
            #[trigger] self.similar_candidate(i, rid) && from_file(
                r,
                self.entries@[i].file,
                Rank::Overlap(self.shared_count(self.entries@[i].file.id@, rid) as u64),
            );
        if i != i2 {
            assert(self.entries@[i].file.id@ != self.entries@[i2].file.id@);
        }
        self.lemma_shared_count_bound(self.entries@[i2].file.id@, rid);
    }
}

/// The row ranks at least as well as a candidate whose overlap count is
/// `shared` and whose update stamp is `upd`.
pub open spec fn res_key_ge(r: SearchResult, shared: nat, upd: Seq<char>) -> bool {
    ||| rank_num(r.rank) > shared
    ||| (rank_num(r.rank) == shared && lex_le(upd, r.updated_at@))
}

/// The error an index mutation can report: the item or tag named does
/// not exist.
#[derive(Clone, Copy, Debug, PartialEq, Eq, Structural)]
pub enum IndexError {
    NotFound,
}

/// `chars_le` is a total order on character sequences.
pub proof fn lemma_chars_le_total()
    ensures
        vstd::relations::total_ordering(chars_le()),
{
    let le = chars_le();
    assert forall|x: Seq<char>| #[trigger] le(x, x) by {}
    assert forall|x: Seq<char>, y: Seq<char>| #[trigger] le(x, y) && #[trigger] le(y, x) implies x
        == y by {
        crate::text::lemma_lex_le_antisym(x, y);
    }
    assert forall|x: Seq<char>, y: Seq<char>, z: Seq<char>|
        #[trigger] le(x, y) && #[trigger] le(y, z) implies le(x, z) by {
        crate::text::lemma_lex_le_trans(x, y, z);
    }
    assert forall|x: Seq<char>, y: Seq<char>| #[trigger] le(x, y) || #[trigger] le(y, x) by {
        crate::text::lemma_lex_total(x, y);
    }
}

/// Tag lists with the same multiset have name lists with the same
/// multiset.
proof fn lemma_perm_names(a: Seq<Tag>, b: Seq<Tag>)
    requires
        a.to_multiset() == b.to_multiset(),
    ensures
        a.map_values(|t: Tag| t.name@).to_multiset() == b.map_values(
            |t: Tag| t.name@,
        ).to_multiset(),
    decreases a.len(),
{
    let f = |t: Tag| t.name@;
    vstd::seq_lib::to_multiset_len::<Tag>(a);
    vstd::seq_lib::to_multiset_len::<Tag>(b);
    if a.len() == 0 {
        assert(a.map_values(f) =~= b.map_values(f));
    } else {
        let x = a[0];
        assert(a.contains(x));
        vstd::seq_lib::to_multiset_contains::<Tag>(a, x);
        vstd::seq_lib::to_multiset_contains::<Tag>(b, x);
        assert(b.contains(x));
        let k = b.lemma_contains_to_index(x);
        let a1 = a.remove(0);
        let b1 = b.remove(k);
        vstd::seq_lib::to_multiset_remove::<Tag>(a, 0);
        vstd::seq_lib::to_multiset_remove::<Tag>(b, k);
        assert(a1.to_multiset() == b1.to_multiset());
        lemma_perm_names(a1, b1);
        assert(a.map_values(f).remove(0) =~= a1.map_values(f));
        assert(b.map_values(f).remove(k) =~= b1.map_values(f));
        vstd::seq_lib::to_multiset_remove::<Seq<char>>(a.map_values(f), 0);
        vstd::seq_lib::to_multiset_remove::<Seq<char>>(b.map_values(f), k);
        assert(a.map_values(f)[0] == f(x));
        assert(b.map_values(f)[k] == f(x));
        assert(a.map_values(f).to_multiset().remove(f(x)) == b.map_values(f).to_multiset().remove(
            f(x),
        ));
        assert(a.map_values(f).contains(f(x)));
        assert(b.map_values(f).contains(f(x)));
        vstd::seq_lib::to_multiset_contains::<Seq<char>>(a.map_values(f), f(x));
        vstd::seq_lib::to_multiset_contains::<Seq<char>>(b.map_values(f), f(x));
        assert(a.map_values(f).to_multiset() =~= a.map_values(f).to_multiset().remove(
            f(x),
        ).insert(f(x)));
        assert(b.map_values(f).to_multiset() =~= b.map_values(f).to_multiset().remove(
            f(x),
        ).insert(f(x)));
    }
}

/// Whether one tag's name sorts no later than another's.
pub open spec fn tag_name_le(a: Tag, b: Tag) -> bool {
    lex_le(a.name@, b.name@)
}

fn tag_ge(a: &Tag, b: &Tag) -> (r: bool)
    ensures
        r == tag_name_le(*b, *a),
{
    let lt = crate::text::str_lex_lt(a.name.as_str(), b.name.as_str());
    proof {
        crate::text::lemma_lex_lt_asym(a.name@, b.name@);
        crate::text::lemma_lex_total(a.name@, b.name@);
    }
    !lt
}

/// Sort a tag list by name, ascending.
fn sort_tags_by_name(v: &mut Vec<Tag>)
    ensures
        final(v)@.to_multiset() == old(v)@.to_multiset(),
        final(v)@.len() == old(v)@.len(),
        forall|j1: int, j2: int|
            0 <= j1 < j2 < final(v)@.len() ==> tag_name_le(final(v)@[j1], final(v)@[j2]),
{
    let n = v.len();
    if n <= 1 {
        return ;
    }
    let mut i: usize = 1;
    while i < n
        invariant
            1 <= i <= n,
            n == v@.len(),
            v@.len() == old(v)@.len(),
            v@.to_multiset() == old(v)@.to_multiset(),
            forall|j1: int, j2: int| 0 <= j1 < j2 < i ==> tag_name_le(v@[j1], v@[j2]),
        decreases n - i,
    {
        let ghost prev = v@;
        let x = v.remove(i);
        let ghost v1 = v@;
        let mut j: usize = i;
        while j > 0 && !tag_ge(&x, &v[j - 1])
            invariant
                j <= i,
                i < n == v1.len() + 1,
                v@ == v1,
                forall|k: int| j <= k < i ==> tag_name_le(x, v1[k]),
            decreases j,
        {
            proof {
                crate::text::lemma_lex_total(x.name@, v1[j - 1].name@);
            }
            j -= 1;
        }
        v.insert(j, x);
        proof {
            assert(v1 == prev.remove(i as int));
            vstd::seq_lib::to_multiset_remove::<Tag>(prev, i as int);
            assert(v@ == v1.insert(j as int, x));
            vstd::seq_lib::to_multiset_insert::<Tag>(v1, j as int, x);
            assert(prev.contains(x));
            vstd::seq_lib::to_multiset_contains::<Tag>(prev, x);
            assert(prev.to_multiset().remove(x).insert(x) =~= prev.to_multiset());
            assert(v@.to_multiset() == prev.to_multiset());
            prev.remove_ensures(i as int);
            v1.insert_ensures(j as int, x);
            assert forall|j1: int, j2: int| 0 <= j1 < j2 < i + 1 implies tag_name_le(
                v@[j1],
                v@[j2],
            ) by {
                assert(forall|k: int| 0 <= k < i ==> v1[k] == prev[k]);
                if j2 < j {
                    assert(v@[j1] == v1[j1] && v@[j2] == v1[j2]);
                    assert(tag_name_le(prev[j1], prev[j2]));
                } else if j2 == j {
                    assert(v@[j1] == v1[j1]);
                    assert(tag_name_le(v1[j - 1], x));
                    if j1 < j - 1 {
                        assert(tag_name_le(prev[j1], prev[j - 1]));
                        crate::text::lemma_lex_le_trans(v1[j1].name@, v1[j - 1].name@, x.name@);
                    }
                } else if j1 == j {
                    assert(v@[j2] == v1[j2 - 1]);
                    assert(tag_name_le(x, v1[j2 - 1]));
                } else if j1 < j {
                    assert(v@[j1] == v1[j1]);
                    assert(v@[j2] == v1[j2 - 1]);
                    assert(tag_name_le(prev[j1], prev[j2 - 1]));
                } else {
                    assert(v@[j1] == v1[j1 - 1]);
                    assert(v@[j2] == v1[j2 - 1]);
                    assert(tag_name_le(prev[j1 - 1], prev[j2 - 1]));
                }
            }
        }
        i += 1;
    }
}

impl SearchIndex {
    /// The tags of an item, sorted by name: exactly the tags the
    /// association links to it, in the canonical projection order.
    pub fn get_tags(&self, file_id: &str) -> (result: Vec<Tag>)
        ensures
            result@.to_multiset() == self.linked_tags(file_id@).to_multiset(),
            forall|j1: int, j2: int|
                0 <= j1 < j2 < result@.len() ==> tag_name_le(result@[j1], result@[j2]),
            result@.map_values(|t: Tag| t.name@) == self.file_tag_names(file_id@).sort_by(
                chars_le(),
            ),
    {
        let ghost p = |t: Tag| self.linked(file_id@, t.id@);
        let mut out: Vec<Tag> = Vec::new();
        let mut i: usize = 0;
        while i < self.tags.len()
            invariant
                i <= self.tags@.len(),
                p == (|t: Tag| self.linked(file_id@, t.id@)),
                out@ == self.tags@.take(i as int).filter(p),
            decreases self.tags@.len() - i,
        {
            let t = &self.tags[i];
            proof {
                assert(self.tags@.take(i as int + 1).drop_last() =~= self.tags@.take(i as int));
                assert(self.tags@.take(i as int + 1).last() == self.tags@[i as int]);
                reveal_with_fuel(Seq::filter, 2);
            }
            if self.is_linked(file_id, t.id.as_str()) {
                out.push(t.clone());
            }
            i += 1;
        }
        proof {
            assert(self.tags@.take(self.tags@.len() as int) =~= self.tags@);
            assert(out@ == self.linked_tags(file_id@));
        }
        let ghost pre = out@;
        sort_tags_by_name(&mut out);
        proof {
            let f = |t: Tag| t.name@;
            let names = out@.map_values(f);
            let canon = self.file_tag_names(file_id@).sort_by(chars_le());
            lemma_chars_le_total();
            self.file_tag_names(file_id@).lemma_sort_by_ensures(chars_le());
            lemma_perm_names(out@, self.linked_tags(file_id@));
            assert(names.to_multiset() == canon.to_multiset());
            assert(vstd::relations::sorted_by(names, chars_le())) by {
                assert forall|j1: int, j2: int| 0 <= j1 < j2 < names.len() implies chars_le()(
                    names[j1],
                    names[j2],
                ) by {
                    assert(tag_name_le(out@[j1], out@[j2]));
                }
            }
            vstd::seq_lib::lemma_sorted_unique(names, canon, chars_le());
            assert(names == canon);
        }
        out
    }
}

/// The space-joined names of a tag list.
pub fn projection_text(ts: &Vec<Tag>) -> (r: String)
    ensures
        r@ == join_with(ts@.map_values(|t: Tag| t.name@), seq![' ']),
{
    let ghost names = ts@.map_values(|t: Tag| t.name@);
    let mut out = String::new();
    let mut i: usize = 0;
    while i < ts.len()
        invariant
            i <= ts@.len(),
            names == ts@.map_values(|t: Tag| t.name@),
            i == 0 ==> out@ == Seq::<char>::empty(),
            i > 0 ==> out@ == join_with(names.take(i as int), seq![' ']),
        decreases ts@.len() - i,
    {
        if i > 0 {
            crate::text::push_char(&mut out, ' ');
        }
        out.append(ts[i].name.as_str());
        proof {
            assert(names[i as int] == ts@[i as int].name@);
            crate::text::lemma_join_step(names, seq![' '], i as int);
            if i > 0 {
                assert(out@ =~= join_with(names.take(i as int), seq![' ']) + seq![' ']
                    + names[i as int]);
            }
        }
        i += 1;
    }
    proof {
        assert(names.take(names.len() as int) =~= names);
    }
    out
}

/// Two states with the same association have the same `linked` relation.
proof fn lemma_linked_same(s1: SearchIndex, s2: SearchIndex)
    requires
        s1.links@ == s2.links@,
    ensures
        forall|f: Seq<char>, t: Seq<char>| #[trigger] s1.linked(f, t) == s2.linked(f, t),
{
    assert forall|f: Seq<char>, t: Seq<char>| #[trigger] s1.linked(f, t) == s2.linked(f, t) by {
        if s1.linked(f, t) {
            let k = choose|k: int|
                0 <= k < s1.links@.len() && (#[trigger] s1.links@[k]).file_id@ == f
                    && s1.links@[k].tag_id@ == t;
            assert(s2.links@[k].file_id@ == f && s2.links@[k].tag_id@ == t);
        }
        if s2.linked(f, t) {
            let k = choose|k: int|
                0 <= k < s2.links@.len() && (#[trigger] s2.links@[k]).file_id@ == f
                    && s2.links@[k].tag_id@ == t;
            assert(s1.links@[k].file_id@ == f && s1.links@[k].tag_id@ == t);
        }
    }
}

/// Appending one association row adds exactly that pair to the relation.
proof fn lemma_linked_after_push(s1: SearchIndex, s2: SearchIndex, lf: Seq<char>, lt: Seq<char>)
    requires
        s2.links@.len() == s1.links@.len() + 1,
        forall|k: int| 0 <= k < s1.links@.len() ==> s2.links@[k] == s1.links@[k],
        s2.links@.last().file_id@ == lf,
        s2.links@.last().tag_id@ == lt,
    ensures
        forall|f: Seq<char>, t: Seq<char>|
            #[trigger] s2.linked(f, t) <==> (s1.linked(f, t) || (f == lf && t == lt)),
{
    assert forall|f: Seq<char>, t: Seq<char>|
        #[trigger] s2.linked(f, t) <==> (s1.linked(f, t) || (f == lf && t == lt)) by {
        if s2.linked(f, t) {
            let k = choose|k: int|
                0 <= k < s2.links@.len() && (#[trigger] s2.links@[k]).file_id@ == f
                    && s2.links@[k].tag_id@ == t;
            if k < s1.links@.len() {
                assert(s1.links@[k].file_id@ == f && s1.links@[k].tag_id@ == t);
            }
        }
        if s1.linked(f, t) {
            let k = choose|k: int|
                0 <= k < s1.links@.len() && (#[trigger] s1.links@[k]).file_id@ == f
                    && s1.links@[k].tag_id@ == t;
            assert(s2.links@[k].file_id@ == f && s2.links@[k].tag_id@ == t);
        }
        if f == lf && t == lt {
            assert(s2.links@[s2.links@.len() - 1].file_id@ == f);
        }
    }
}

/// Removing one association row removes exactly that pair, the pairs
/// being unique.
proof fn lemma_linked_after_remove(s1: SearchIndex, s2: SearchIndex, pos: int)
    requires
        0 <= pos < s1.links@.len(),
        s2.links@ == s1.links@.remove(pos),
        forall|i: int, j: int|
            0 <= i < j < s1.links@.len() ==> !((#[trigger] s1.links@[i]).file_id@ == (
            #[trigger] s1.links@[j]).file_id@ && s1.links@[i].tag_id@ == s1.links@[j].tag_id@),
    ensures
        forall|f: Seq<char>, t: Seq<char>|
            #[trigger] s2.linked(f, t) <==> (s1.linked(f, t) && !(f == s1.links@[pos].file_id@ && t
                == s1.links@[pos].tag_id@)),
{
    s1.links@.remove_ensures(pos);
    assert forall|f: Seq<char>, t: Seq<char>|
        #[trigger] s2.linked(f, t) <==> (s1.linked(f, t) && !(f == s1.links@[pos].file_id@ && t
            == s1.links@[pos].tag_id@)) by {
        if s2.linked(f, t) {
            let k = choose|k: int|
                0 <= k < s2.links@.len() && (#[trigger] s2.links@[k]).file_id@ == f
                    && s2.links@[k].tag_id@ == t;
            let k1: int = if k < pos {
                k
            } else {
                k + 1
            };
            assert(s1.links@[k1].file_id@ == f && s1.links@[k1].tag_id@ == t);
            if f == s1.links@[pos].file_id@ && t == s1.links@[pos].tag_id@ {
                assert(k1 != pos);
            }
        }
        if s1.linked(f, t) && !(f == s1.links@[pos].file_id@ && t == s1.links@[pos].tag_id@) {
            let k = choose|k: int|
                0 <= k < s1.links@.len() && (#[trigger] s1.links@[k]).file_id@ == f
                    && s1.links@[k].tag_id@ == t;
            assert(k != pos);
            let k2: int = if k < pos {
                k
            } else {
                k - 1
            };
            assert(s2.links@[k2].file_id@ == f && s2.links@[k2].tag_id@ == t);
        }
    }
}

/// A filter that rejects every element yields the empty sequence.
proof fn lemma_filter_none<A>(s: Seq<A>, p: spec_fn(A) -> bool)
    requires
        forall|i: int| 0 <= i < s.len() ==> !p(#[trigger] s[i]),
    ensures
        s.filter(p) == Seq::<A>::empty(),
    decreases s.len(),
{
    reveal_with_fuel(Seq::filter, 2);
    if s.len() > 0 {
        assert(forall|i: int| 0 <= i < s.drop_last().len() ==> s.drop_last()[i] == s[i]);
        lemma_filter_none(s.drop_last(), p);
        assert(!p(s.last()));
    }
}

/// Two states with the same tag table and the same links for an item
/// give it the same tags and the same projection.
proof fn lemma_projection_same(s1: SearchIndex, s2: SearchIndex, fid: Seq<char>)
    requires
        s1.tags@ == s2.tags@,
        forall|t: Seq<char>| #[trigger] s1.linked(fid, t) == s2.linked(fid, t),
    ensures
        s1.linked_tags(fid) == s2.linked_tags(fid),
        s1.file_tag_names(fid) == s2.file_tag_names(fid),
        s1.projection_of(fid) == s2.projection_of(fid),
{
    reveal(SearchIndex::projection_of);
    let p1 = |t: Tag| s1.linked(fid, t.id@);
    let p2 = |t: Tag| s2.linked(fid, t.id@);
    crate::text::lemma_filter_congruence(s1.tags@, p1, p2);
}

impl SearchIndex {
    /// Whether some tag row carries this name.
    pub open spec fn has_tag_name(self, name: Seq<char>) -> bool {
        exists|i: int|
            0 <= i < self.tags@.len() && (#[trigger] self.tags@[i]).name@ == name
    }

    /// The index record of an item, by scan.
    fn find_entry(&self, file_id: &str) -> (r: Option<usize>)
        ensures
            (r is Some) == self.has_file(file_id@),
            r matches Some(i) ==> i < self.entries@.len() && self.entries@[i as int].file.id@
                == file_id@,
    {
        let mut i: usize = 0;
        while i < self.entries.len()
            invariant
                i <= self.entries@.len(),
                forall|k: int| 0 <= k < i ==> (#[trigger] self.entries@[k]).file.id@ != file_id@,
            decreases self.entries@.len() - i,
        {
            if str_eq(self.entries[i].file.id.as_str(), file_id) {
                return Some(i);
            }
            i += 1;
        }
        None
    }

    fn has_tag(&self, tag_id: &str) -> (r: bool)
        ensures
            r == self.has_tag_id(tag_id@),
    {
        let mut i: usize = 0;
        while i < self.tags.len()
            invariant
                i <= self.tags@.len(),
                forall|k: int| 0 <= k < i ==> (#[trigger] self.tags@[k]).id@ != tag_id@,
            decreases self.tags@.len() - i,
        {
            if str_eq(self.tags[i].id.as_str(), tag_id) {
                return true;
            }
            i += 1;
        }
        false
    }

    fn has_name(&self, name: &str) -> (r: bool)
        ensures
            r == self.has_tag_name(name@),
    {
        let mut i: usize = 0;
        while i < self.tags.len()
            invariant
                i <= self.tags@.len(),
                forall|k: int| 0 <= k < i ==> (#[trigger] self.tags@[k]).name@ != name@,
            decreases self.tags@.len() - i,
        {
            if str_eq(self.tags[i].name.as_str(), name) {
                return true;
            }
            i += 1;
        }
        false
    }

    /// The position of an association row, by scan.
    fn find_link(&self, file_id: &str, tag_id: &str) -> (r: Option<usize>)
        ensures
            (r is Some) == self.linked(file_id@, tag_id@),
            r matches Some(p) ==> p < self.links@.len() && self.links@[p as int].file_id@
                == file_id@ && self.links@[p as int].tag_id@ == tag_id@,
    {
        let mut i: usize = 0;
        while i < self.links.len()
            invariant
                i <= self.links@.len(),
                forall|k: int|
                    0 <= k < i ==> !((#[trigger] self.links@[k]).file_id@ == file_id@
                        && self.links@[k].tag_id@ == tag_id@),
            decreases self.links@.len() - i,
        {
            let l = &self.links[i];
            if str_eq(l.file_id.as_str(), file_id) && str_eq(l.tag_id.as_str(), tag_id) {
                return Some(i);
            }
            i += 1;
        }
        None
    }

    /// Recompute one record's tag projection from the association: the
    /// StaleFresh transition of the index.
    fn resync(&mut self, idx: usize)
        requires
            idx < old(self).entries@.len(),
        ensures
            final(self).tags == old(self).tags,
            final(self).links == old(self).links,
            final(self).entries@.len() == old(self).entries@.len(),
            forall|i: int|
                0 <= i < old(self).entries@.len() && i != idx ==> final(self).entries@[i] == old(
                    self,
                ).entries@[i],
            final(self).entries@[idx as int].file == old(self).entries@[idx as int].file,
            final(self).entries@[idx as int].tags_text@ == old(self).projection_of(
                old(self).entries@[idx as int].file.id@,
            ),
    {
        let fid = self.entries[idx].file.id.clone();
        let ts = self.get_tags(fid.as_str());
        let text = projection_text(&ts);
        proof {
            reveal(SearchIndex::projection_of);
            lemma_perm_names(ts@, self.linked_tags(fid@));
            assert(text@ == self.projection_of(fid@));
        }
        let entry = IndexEntry { file: self.entries[idx].file.clone(), tags_text: text };
        self.entries.set(idx, entry);
    }

    pub fn new() -> (s: SearchIndex)
        ensures
            s.wf(),
            s.entries@.len() == 0,
            s.tags@.len() == 0,
            s.links@.len() == 0,
    {
        SearchIndex { entries: Vec::new(), tags: Vec::new(), links: Vec::new() }
    }

    /// Load one item into the index. A fresh item starts with no tags
    /// and the empty projection; an item that is already present is
    /// refused and nothing changes.
    pub fn insert_file(&mut self, f: File) -> (r: bool)
        requires
            old(self).wf(),
        ensures
            final(self).wf(),
            r == !old(self).has_file(f.id@),
            !r ==> *final(self) == *old(self),
            r ==> final(self).entries@.len() == old(self).entries@.len() + 1,
            r ==> final(self).entries@.last().file == f,
            r ==> final(self).entries@.last().tags_text@ == Seq::<char>::empty(),
            r ==> forall|i: int|
                0 <= i < old(self).entries@.len() ==> final(self).entries@[i] == old(
                    self,
                ).entries@[i],
            r ==> final(self).tags == old(self).tags && final(self).links == old(self).links,
    {
        match self.find_entry(f.id.as_str()) {
            Some(_) => false,
            None => {
                let ghost s0 = *self;
                let ghost fid = f.id@;
                self.entries.push(IndexEntry { file: f, tags_text: String::new() });
                proof {
                    let s2 = *self;
                    lemma_linked_same(s0, s2);
                    assert forall|g: Seq<char>| s0.has_file(g) implies s2.has_file(g) by {
                        let k = choose|k: int|
                            0 <= k < s0.entries@.len() && (#[trigger] s0.entries@[k]).file.id@
                                == g;
                        assert(s2.entries@[k].file.id@ == g);
                    }
                    assert(s2.links_ok()) by {
                        assert forall|i: int|
                            0 <= i < s2.links@.len() implies s2.has_file(
                            (#[trigger] s2.links@[i]).file_id@,
                        ) && s2.has_tag_id(s2.links@[i].tag_id@) by {
                            assert(s0.has_file(s0.links@[i].file_id@));
                        }
                    }
                    assert forall|i: int|
                        0 <= i < s2.entries@.len() implies (#[trigger] s2.entries@[i]).tags_text@
                        == s2.projection_of(s2.entries@[i].file.id@) by {
                        if i < s0.entries@.len() {
                            lemma_projection_same(s0, s2, s0.entries@[i].file.id@);
                        } else {
                            // the fresh item: nothing links to it, so its
                            // projection is empty
                            let p = |t: Tag| s2.linked(fid, t.id@);
                            assert forall|k: int| 0 <= k < s2.tags@.len() implies !p(
                                #[trigger] s2.tags@[k],
                            ) by {
                                if s2.linked(fid, s2.tags@[k].id@) {
                                    assert(s0.linked(fid, s2.tags@[k].id@));
                                    let m = choose|m: int|
                                        0 <= m < s0.links@.len() && (
                                        #[trigger] s0.links@[m]).file_id@ == fid
                                            && s0.links@[m].tag_id@ == s2.tags@[k].id@;
                                    assert(s0.has_file(fid));
                                }
                            }
                            lemma_filter_none(s2.tags@, p);
                            reveal(SearchIndex::projection_of);
                            assert(s2.linked_tags(fid) == Seq::<Tag>::empty());
                            assert(s2.file_tag_names(fid) =~= Seq::<Seq<char>>::empty());
                            lemma_chars_le_total();
                            s2.file_tag_names(fid).lemma_sort_by_ensures(chars_le());
                            vstd::seq_lib::to_multiset_len::<Seq<char>>(s2.file_tag_names(fid));
                            vstd::seq_lib::to_multiset_len::<Seq<char>>(
                                s2.file_tag_names(fid).sort_by(chars_le()),
                            );
                            assert(s2.file_tag_names(fid).sort_by(chars_le()).len() == 0);
                        }
                    }
                }
                true
            },
        }
    }

    /// Load one tag into the index. A tag whose identity or name is
    /// already taken is refused and nothing changes.
    pub fn insert_tag(&mut self, t: Tag) -> (r: bool)
        requires
            old(self).wf(),
        ensures
            final(self).wf(),
            r == (!old(self).has_tag_id(t.id@) && !old(self).has_tag_name(t.name@)),
            !r ==> *final(self) == *old(self),
            r ==> final(self).tags@ == old(self).tags@.push(t) && final(self).entries == old(
                self,
            ).entries && final(self).links == old(self).links,
    {
        if self.has_tag(t.id.as_str()) {
            return false;
        }
        if self.has_name(t.name.as_str()) {
            return false;
        }
        let ghost s0 = *self;
        let ghost tid = t.id@;
        self.tags.push(t);
        proof {
            let s2 = *self;
            lemma_linked_same(s0, s2);
            assert forall|g: Seq<char>| s0.has_tag_id(g) implies s2.has_tag_id(g) by {
                let k = choose|k: int|
                    0 <= k < s0.tags@.len() && (#[trigger] s0.tags@[k]).id@ == g;
                assert(s2.tags@[k].id@ == g);
            }
            assert(s2.links_ok()) by {
                assert forall|i: int|
                    0 <= i < s2.links@.len() implies s2.has_file(
                    (#[trigger] s2.links@[i]).file_id@,
                ) && s2.has_tag_id(s2.links@[i].tag_id@) by {
                    assert(s0.has_tag_id(s0.links@[i].tag_id@));
                }
            }
            assert forall|i: int|
                0 <= i < s2.entries@.len() implies (#[trigger] s2.entries@[i]).tags_text@
                == s2.projection_of(s2.entries@[i].file.id@) by {
                let fid = s2.entries@[i].file.id@;
                let p0 = |u: Tag| s0.linked(fid, u.id@);
                let p2 = |u: Tag| s2.linked(fid, u.id@);
                crate::text::lemma_filter_congruence(s0.tags@, p0, p2);
                assert(s2.tags@.drop_last() =~= s0.tags@);
                reveal_with_fuel(Seq::filter, 2);
                assert(!p2(s2.tags@.last())) by {
                    if s2.linked(fid, tid) {
                        let m = choose|m: int|
                            0 <= m < s0.links@.len() && (#[trigger] s0.links@[m]).file_id@ == fid
                                && s0.links@[m].tag_id@ == tid;
                        assert(s0.has_tag_id(tid));
                    }
                }
                assert(s2.linked_tags(fid) == s0.linked_tags(fid));
                reveal(SearchIndex::projection_of);
            }
        }
        true
    }

    /// Associate a tag with an item and resynchronize the item's tag
    /// projection in the same step. The pair is added at most once:
    /// associating an already-associated tag changes nothing at all, so
    /// adding twice equals adding once, projection included. Naming a
    /// missing item or tag reports `NotFound` and changes nothing.
    pub fn add_tag(&mut self, file_id: &str, tag_id: &str) -> (r: Result<(), IndexError>)
        requires
            old(self).wf(),
        ensures
            final(self).wf(),
            (r is Ok) == (old(self).has_file(file_id@) && old(self).has_tag_id(tag_id@)),
            r is Err ==> *final(self) == *old(self),
            old(self).linked(file_id@, tag_id@) ==> *final(self) == *old(self),
            final(self).tags == old(self).tags,
            final(self).entries@.len() == old(self).entries@.len(),
            forall|i: int|
                0 <= i < old(self).entries@.len() ==> (#[trigger] final(self).entries@[i]).file
                    == old(self).entries@[i].file,
            forall|i: int|
                0 <= i < old(self).entries@.len() && (#[trigger] old(self).entries@[i]).file.id@
                    != file_id@ ==> final(self).entries@[i] == old(self).entries@[i],
            r is Ok ==> forall|f: Seq<char>, t: Seq<char>|
                #[trigger] final(self).linked(f, t) <==> (old(self).linked(f, t) || (f == file_id@
                    && t == tag_id@)),
    {
        let idx = match self.find_entry(file_id) {
            Some(i) => i,
            None => {
                return Err(IndexError::NotFound);
            },
        };
        if !self.has_tag(tag_id) {
            return Err(IndexError::NotFound);
        }
        if self.is_linked(file_id, tag_id) {
            return Ok(());
        }
        let ghost s0 = *self;
        let link = ItemTag {
            file_id: file_id.to_owned(),
            tag_id: tag_id.to_owned(),
            created_at: crate::trusted::now_rfc3339(),
        };
        self.links.push(link);
        let ghost s1 = *self;
        proof {
            lemma_linked_after_push(s0, s1, file_id@, tag_id@);
        }
        self.resync(idx);
        proof {
            let s2 = *self;
            lemma_linked_same(s1, s2);
            assert forall|f: Seq<char>, t: Seq<char>|
                #[trigger] s2.linked(f, t) <==> (s0.linked(f, t) || (f == file_id@ && t
                    == tag_id@)) by {
                assert(s1.linked(f, t) == s2.linked(f, t));
                assert(s1.linked(f, t) <==> (s0.linked(f, t) || (f == file_id@ && t == tag_id@)));
            }
            assert(s2.distinct_files());
            assert(s2.links_ok()) by {
                assert forall|i: int, j: int|
                    0 <= i < j < s2.links@.len() implies !((#[trigger] s2.links@[i]).file_id@ == (
                #[trigger] s2.links@[j]).file_id@ && s2.links@[i].tag_id@
                    == s2.links@[j].tag_id@) by {
                    if j == s2.links@.len() - 1 {
                        if s2.links@[i].file_id@ == file_id@ && s2.links@[i].tag_id@ == tag_id@ {
                            assert(s0.links@[i].file_id@ == file_id@ && s0.links@[i].tag_id@
                                == tag_id@);
                            assert(s0.linked(file_id@, tag_id@));
                        }
                    }
                }
                assert forall|i: int|
                    0 <= i < s2.links@.len() implies s2.has_file(
                    (#[trigger] s2.links@[i]).file_id@,
                ) && s2.has_tag_id(s2.links@[i].tag_id@) by {
                    if i < s0.links@.len() {
                        assert(s0.has_file(s0.links@[i].file_id@) && s0.has_tag_id(
                            s0.links@[i].tag_id@,
                        ));
                        let k = choose|k: int|
                            0 <= k < s0.entries@.len() && (#[trigger] s0.entries@[k]).file.id@
                                == s0.links@[i].file_id@;
                        assert(s2.entries@[k].file.id@ == s0.links@[i].file_id@);
                    } else {
                        assert(s2.entries@[idx as int].file.id@ == file_id@);
                    }
                }
            }
            assert(s2.projections_fresh()) by {
                assert forall|i: int|
                    0 <= i < s2.entries@.len() implies (#[trigger] s2.entries@[i]).tags_text@
                    == s2.projection_of(s2.entries@[i].file.id@) by {
                    if i == idx {
                        lemma_projection_same(s1, s2, file_id@);
                    } else {
                        let fid = s2.entries@[i].file.id@;
                        assert(fid != file_id@);
                        assert forall|t: Seq<char>| #[trigger]
                            s0.linked(fid, t) == s2.linked(fid, t) by {}
                        lemma_projection_same(s0, s2, fid);
                    }
                }
            }
        }
        Ok(())
    }

    /// Remove a tag association from an item and resynchronize the
    /// item's tag projection in the same step. Removing a pair that is
    /// not associated changes nothing.
    pub fn remove_tag(&mut self, file_id: &str, tag_id: &str)
        requires
            old(self).wf(),
        ensures
            final(self).wf(),
            !old(self).linked(file_id@, tag_id@) ==> *final(self) == *old(self),
            final(self).tags == old(self).tags,
            final(self).entries@.len() == old(self).entries@.len(),
            forall|i: int|
                0 <= i < old(self).entries@.len() ==> (#[trigger] final(self).entries@[i]).file
                    == old(self).entries@[i].file,
            forall|i: int|
                0 <= i < old(self).entries@.len() && (#[trigger] old(self).entries@[i]).file.id@
                    != file_id@ ==> final(self).entries@[i] == old(self).entries@[i],
            forall|f: Seq<char>, t: Seq<char>|
                #[trigger] final(self).linked(f, t) <==> (old(self).linked(f, t) && !(f == file_id@
                    && t == tag_id@)),
    {
        let pos = match self.find_link(file_id, tag_id) {
            Some(p) => p,
            None => {
                proof {
                    lemma_linked_same(*self, *self);
                }
                return ;
            },
        };
        let idx = match self.find_entry(file_id) {
            Some(i) => i,
            None => {
                // unreachable: the association only ever references
                // existing items
                proof {
                    assert(old(self).has_file(old(self).links@[pos as int].file_id@));
                    assert(false);
                }
                return ;
            },
        };
        let ghost s0 = *self;
        self.links.remove(pos);
        let ghost s1 = *self;
        proof {
            lemma_linked_after_remove(s0, s1, pos as int);
        }
        self.resync(idx);
        proof {
            let s2 = *self;
            lemma_linked_same(s1, s2);
            assert forall|f: Seq<char>, t: Seq<char>|
                #[trigger] s2.linked(f, t) <==> (s0.linked(f, t) && !(f == file_id@ && t
                    == tag_id@)) by {
                assert(s1.linked(f, t) == s2.linked(f, t));
                assert(s1.linked(f, t) <==> (s0.linked(f, t) && !(f == file_id@ && t == tag_id@)));
            }
            assert(s2.links_ok()) by {
                s0.links@.remove_ensures(pos as int);
                assert forall|i: int, j: int|
                    0 <= i < j < s2.links@.len() implies !((#[trigger] s2.links@[i]).file_id@ == (
                #[trigger] s2.links@[j]).file_id@ && s2.links@[i].tag_id@
                    == s2.links@[j].tag_id@) by {
                    let i1: int = if i < pos {
                        i
                    } else {
                        i + 1
                    };
                    let j1: int = if j < pos {
                        j
                    } else {
                        j + 1
                    };
                    assert(s2.links@[i] == s0.links@[i1] && s2.links@[j] == s0.links@[j1]);
                }
                assert forall|i: int|
                    0 <= i < s2.links@.len() implies s2.has_file(
                    (#[trigger] s2.links@[i]).file_id@,
                ) && s2.has_tag_id(s2.links@[i].tag_id@) by {
                    let i1: int = if i < pos {
                        i
                    } else {
                        i + 1
                    };
                    assert(s2.links@[i] == s0.links@[i1]);
                    assert(s0.has_file(s0.links@[i1].file_id@) && s0.has_tag_id(
                        s0.links@[i1].tag_id@,
                    ));
                    let k = choose|k: int|
                        0 <= k < s0.entries@.len() && (#[trigger] s0.entries@[k]).file.id@
                            == s0.links@[i1].file_id@;
                    assert(s2.entries@[k].file.id@ == s0.links@[i1].file_id@);
                }
            }
            assert(s2.projections_fresh()) by {
                assert forall|i: int|
                    0 <= i < s2.entries@.len() implies (#[trigger] s2.entries@[i]).tags_text@
                    == s2.projection_of(s2.entries@[i].file.id@) by {
                    if i == idx {
                        lemma_projection_same(s1, s2, file_id@);
                    } else {
                        let fid = s2.entries@[i].file.id@;
                        assert(fid != file_id@);
                        assert forall|t: Seq<char>| #[trigger]
                            s0.linked(fid, t) == s2.linked(fid, t) by {}
                        lemma_projection_same(s0, s2, fid);
                    }
                }
            }
        }
    }
}

/// Every element of a filtered list is an element of the list.
proof fn lemma_filter_members<A>(s: Seq<A>, p: spec_fn(A) -> bool, i: int)
    requires
        0 <= i < s.filter(p).len(),
    ensures
        s.contains(s.filter(p)[i]),
    decreases s.len(),
{
    reveal_with_fuel(Seq::filter, 2);
    if s.len() > 0 {
        let d = s.drop_last();
        if p(s.last()) && i == s.filter(p).len() - 1 {
            assert(s.filter(p)[i] == s.last());
            assert(s[s.len() - 1] == s.last());
        } else {
            lemma_filter_members(d, p, i);
            let k = d.lemma_contains_to_index(d.filter(p)[i]);
            assert(s[k] == d.filter(p)[i]);
            assert(s.filter(p)[i] == d.filter(p)[i]);
        }
    }
}

/// A filter of rows with pairwise distinct identities keeps them
/// pairwise distinct.
proof fn lemma_filter_distinct_ids(s: Seq<Tag>, p: spec_fn(Tag) -> bool)
    requires
        forall|i: int, j: int|
            0 <= i < j < s.len() ==> (#[trigger] s[i]).id@ != (#[trigger] s[j]).id@,
    ensures
        forall|i: int, j: int|
            0 <= i < j < s.filter(p).len() ==> (#[trigger] s.filter(p)[i]).id@ != (
            #[trigger] s.filter(p)[j]).id@,
    decreases s.len(),
{
    reveal_with_fuel(Seq::filter, 2);
    if s.len() > 0 {
        let d = s.drop_last();
        assert(forall|k: int| 0 <= k < d.len() ==> d[k] == s[k]);
        lemma_filter_distinct_ids(d, p);
        d.filter_lemma(p);
        if p(s.last()) {
            assert(s.filter(p) == d.filter(p).push(s.last()));
            assert forall|i: int, j: int|
                0 <= i < j < s.filter(p).len() implies (#[trigger] s.filter(p)[i]).id@ != (
            #[trigger] s.filter(p)[j]).id@ by {
                if j == d.filter(p).len() {
                    let x = d.filter(p)[i];
                    lemma_filter_members(d, p, i);
                    let k = d.lemma_contains_to_index(x);
                    assert(s[k].id@ != s[s.len() - 1].id@);
                } else {
                    assert(s.filter(p)[i] == d.filter(p)[i]);
                    assert(s.filter(p)[j] == d.filter(p)[j]);
                }
            }
        } else {
            assert(s.filter(p) == d.filter(p));
        }
    }
}

impl SearchIndex {
    /// The tag identities the given names resolve to through the tag
    /// table; unknown names resolve to nothing.
    pub open spec fn resolved_set(self, names: Seq<Seq<char>>) -> Set<Seq<char>> {
        Set::new(
            |tid: Seq<char>|
                exists|i: int|
                    0 <= i < self.tags@.len() && (#[trigger] self.tags@[i]).id@ == tid
                        && names.contains(self.tags@[i].name@),
        )
    }

    /// The resolved set is a finite subset of the tag-table identities.
    proof fn lemma_resolved_finite(self, names: Seq<Seq<char>>)
        ensures
            self.resolved_set(names).finite(),
            self.resolved_set(names).len() <= self.tags@.len(),
    {
        let ids = self.tags@.map_values(|t: Tag| t.id@);
        vstd::seq_lib::seq_to_set_is_finite::<Seq<char>>(ids);
        assert forall|tid: Seq<char>| self.resolved_set(names).contains(tid) implies
            ids.to_set().contains(tid) by {
            let i = choose|i: int|
                0 <= i < self.tags@.len() && (#[trigger] self.tags@[i]).id@ == tid
                    && names.contains(self.tags@[i].name@);
            assert(ids[i] == tid);
        }
        assert(self.resolved_set(names).subset_of(ids.to_set()));
        vstd::set_lib::lemma_len_subset(self.resolved_set(names), ids.to_set());
        ids.lemma_cardinality_of_set();
    }

    /// Match-all semantics is exact cardinality: an item is matched
    /// exactly when its distinct-tag intersection with the resolved tag
    /// set has the full size of that set, at least one name resolving.
    pub proof fn lemma_match_all_is_cardinality(self, fid: Seq<char>, names: Seq<Seq<char>>)
        requires
            self.wf(),
        ensures
            self.matches_all(fid, names) <==> (self.resolved_set(names).len() > 0 && self.tag_set(
                fid,
            ).intersect(self.resolved_set(names)).len() == self.resolved_set(names).len()),
    {
        broadcast use vstd::set::group_set_axioms;

        reveal(SearchIndex::matches_any);
        reveal(SearchIndex::matches_all);
        let r = self.resolved_set(names);
        let inter = self.tag_set(fid).intersect(r);
        self.lemma_resolved_finite(names);
        assert(inter.subset_of(r));
        vstd::set_lib::lemma_len_subset(inter, r);
        if self.matches_all(fid, names) {
            assert forall|tid: Seq<char>| r.contains(tid) implies inter.contains(tid) by {
                let i = choose|i: int|
                    0 <= i < self.tags@.len() && (#[trigger] self.tags@[i]).id@ == tid
                        && names.contains(self.tags@[i].name@);
                assert(self.linked(fid, self.tags@[i].id@));
            }
            assert(inter =~= r);
            let i = choose|i: int|
                0 <= i < self.tags@.len() && names.contains((#[trigger] self.tags@[i]).name@)
                    && self.linked(fid, self.tags@[i].id@);
            assert(r.contains(self.tags@[i].id@));
            if r.len() == 0 {
                r.lemma_len0_is_empty();
            }
        }
        if r.len() > 0 && inter.len() == r.len() {
            vstd::set_lib::lemma_subset_equality(inter, r);
            assert forall|i: int|
                0 <= i < self.tags@.len() && names.contains((#[trigger] self.tags@[i]).name@)
                    implies self.linked(fid, self.tags@[i].id@) by {
                assert(r.contains(self.tags@[i].id@));
                assert(inter.contains(self.tags@[i].id@));
            }
            if !(exists|a: Seq<char>| r.contains(a)) {
                assert(r =~= Set::<Seq<char>>::empty());
            }
            let tid = choose|a: Seq<char>| r.contains(a);
            assert(inter.contains(tid));
            let i = choose|i: int|
                0 <= i < self.tags@.len() && (#[trigger] self.tags@[i]).id@ == tid
                    && names.contains(self.tags@[i].name@);
            assert(self.matches_any(fid, names));
        }
    }

    /// Match-any semantics is non-empty intersection: an item is matched
    /// exactly when its distinct-tag intersection with the resolved tag
    /// set is non-empty.
    pub proof fn lemma_match_any_is_intersection(self, fid: Seq<char>, names: Seq<Seq<char>>)
        requires
            self.wf(),
        ensures
            self.matches_any(fid, names) <==> self.tag_set(fid).intersect(
                self.resolved_set(names),
            ).len() > 0,
    {
        broadcast use vstd::set::group_set_axioms;

        reveal(SearchIndex::matches_any);
        let r = self.resolved_set(names);
        let inter = self.tag_set(fid).intersect(r);
        self.lemma_resolved_finite(names);
        assert(inter.subset_of(r));
        vstd::set_lib::lemma_len_subset(inter, r);
        if self.matches_any(fid, names) {
            let i = choose|i: int|
                0 <= i < self.tags@.len() && names.contains((#[trigger] self.tags@[i]).name@)
                    && self.linked(fid, self.tags@[i].id@);
            assert(r.contains(self.tags@[i].id@));
            assert(inter.contains(self.tags@[i].id@));
            if inter.len() == 0 {
                inter.lemma_len0_is_empty();
            }
        }
        if inter.len() > 0 {
            if !(exists|a: Seq<char>| inter.contains(a)) {
                assert(inter =~= Set::<Seq<char>>::empty());
            }
            let tid = choose|a: Seq<char>| inter.contains(a);
            let i = choose|i: int|
                0 <= i < self.tags@.len() && (#[trigger] self.tags@[i]).id@ == tid
                    && names.contains(self.tags@[i].name@);
            assert(self.linked(fid, self.tags@[i].id@));
        }
    }

    /// The overlap rank counts exactly the distinct tag identities the
    /// two items share.
    pub proof fn lemma_shared_count_is_intersection(self, cid: Seq<char>, rid: Seq<char>)
        requires
            self.wf(),
        ensures
            self.shared_count(cid, rid) == self.tag_set(cid).intersect(self.tag_set(rid)).len(),
    {
        reveal(SearchIndex::shared_count);
        let p = |t: Tag| self.linked(cid, t.id@) && self.linked(rid, t.id@);
        let fs = self.tags@.filter(p);
        let f = |t: Tag| t.id@;
        let ids = fs.map_values(f);
        let inter = self.tag_set(cid).intersect(self.tag_set(rid));
        self.tags@.filter_lemma(p);
        lemma_filter_distinct_ids(self.tags@, p);
        assert(ids.no_duplicates()) by {
            assert forall|i: int, j: int|
                0 <= i < j < ids.len() implies ids[i] != ids[j] by {
                assert(fs[i].id@ != fs[j].id@);
            }
        }
        assert forall|tid: Seq<char>| #[trigger] inter.contains(tid) implies ids.to_set().contains(
            tid,
        ) by {
            // the shared identity is referenced by the association, so
            // some tag row carries it
            let k = choose|k: int|
                0 <= k < self.links@.len() && (#[trigger] self.links@[k]).file_id@ == cid
                    && self.links@[k].tag_id@ == tid;
            assert(self.has_tag_id(tid));
            let i = choose|i: int|
                0 <= i < self.tags@.len() && (#[trigger] self.tags@[i]).id@ == tid;
            assert(p(self.tags@[i]));
            assert(self.tags@.contains(self.tags@[i]));
            assert(fs.contains(self.tags@[i]));
            let m = fs.lemma_contains_to_index(self.tags@[i]);
            assert(ids[m] == tid);
            assert(ids.contains(tid));
            vstd::seq_lib::lemma_seq_contains(ids, tid);
        }
        assert forall|tid: Seq<char>| #[trigger] ids.to_set().contains(tid) implies inter.contains(
            tid,
        ) by {
            assert(ids.contains(tid));
            let m = ids.lemma_contains_to_index(tid);
            assert(p(fs[m]));
        }
        assert(ids.to_set() =~= inter);
        ids.unique_seq_to_set();
    }
}

} // verus!
