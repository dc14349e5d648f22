//! The document store: an in-memory collection of documents with unique
//! identities plus the application settings. Reading it back is ordered
//! by recency; text search is case-folded substring matching over title,
//! body and tag names. Loading the collection from disk and writing it
//! back belong to the surrounding program.

use crate::text::{
    has_sub, lemma_lex_le_trans, lemma_lex_lt_asym, lemma_lex_total, lex_le, str_eq, str_has_sub,
    str_lex_lt,
};
use crate::trusted::{fresh_id, lower_of, lowercase, now_rfc3339};
use vstd::pervasive::VecAdditionalExecFns;
use vstd::prelude::*;

verus! {

/// A stored document: a titled body with tag names and timestamps.
#[derive(Debug)]
pub struct Document {
    pub id: String,
    pub title: String,
    pub content: String,
    pub created_at: String,
    pub updated_at: String,
    pub tags: Vec<String>,
}

/// The application settings.
#[derive(Debug)]
pub struct AppSettings {
    pub theme: String,
    pub ai_providers: Vec<String>,
    pub default_provider: Option<String>,
    pub auto_save: bool,
    pub auto_save_interval: i64,
}

#[derive(Debug)]
pub struct CreateDocumentRequest {
    pub title: Option<String>,
}

#[derive(Debug)]
pub struct UpdateDocumentRequest {
    pub title: Option<String>,
    pub content: Option<String>,
    pub tags: Option<Vec<String>>,
}

fn clone_string_vec(v: &Vec<String>) -> (r: Vec<String>)
    ensures
        r@ == v@,
{
    let mut r: Vec<String> = Vec::new();
    let mut i: usize = 0;
    while i < v.len()
        invariant
            i <= v@.len(),
            r@ == v@.take(i as int),
        decreases v@.len() - i,
    {
        r.push(v[i].clone());
        proof {
            assert(r@ =~= v@.take(i as int + 1));
        }
        i += 1;
    }
    proof {
        assert(v@.take(v@.len() as int) =~= v@);
    }
    r
}

/// The two documents hold the same data, their tag lists compared
/// element by element.
pub open spec fn doc_like(a: Document, b: Document) -> bool {
    &&& a.id == b.id
    &&& a.title == b.title
    &&& a.content == b.content
    &&& a.created_at == b.created_at
    &&& a.updated_at == b.updated_at
    &&& a.tags@ == b.tags@
}

impl Clone for Document {
    fn clone(&self) -> (r: Self)
        ensures
            doc_like(r, *self),
    {
        Document {
            id: self.id.clone(),
            title: self.title.clone(),
            content: self.content.clone(),
            created_at: self.created_at.clone(),
            updated_at: self.updated_at.clone(),
            tags: clone_string_vec(&self.tags),
        }
    }
}

/// The two settings values hold the same data.
pub open spec fn settings_like(a: AppSettings, b: AppSettings) -> bool {
    &&& a.theme == b.theme
    &&& a.ai_providers@ == b.ai_providers@
    &&& a.default_provider == b.default_provider
    &&& a.auto_save == b.auto_save
    &&& a.auto_save_interval == b.auto_save_interval
}

impl Clone for AppSettings {
    fn clone(&self) -> (r: Self)
        ensures
            settings_like(r, *self),
    {
        AppSettings {
            theme: self.theme.clone(),
            ai_providers: clone_string_vec(&self.ai_providers),
            default_provider: match &self.default_provider {
                Some(p) => Some(p.clone()),
                None => None,
            },
            auto_save: self.auto_save,
            auto_save_interval: self.auto_save_interval,
        }
    }
}

/// Some row of the list carries this identity.
pub open spec fn id_present(rs: Seq<Document>, id: Seq<char>) -> bool {
    exists|j: int| 0 <= j < rs.len() && (#[trigger] rs[j]).id@ == id
}

/// A document matches a query when the case-folded query occurs in its
/// case-folded title, body, or any tag name.
pub open spec fn doc_matches(d: Document, q: Seq<char>) -> bool {
    ||| has_sub(lower_of(d.title@), lower_of(q))
    ||| has_sub(lower_of(d.content@), lower_of(q))
    ||| exists|k: int|
        0 <= k < d.tags@.len() && has_sub(lower_of((#[trigger] d.tags@[k])@), lower_of(q))
}

fn doc_matches_exec(d: &Document, query: &str) -> (r: bool)
    ensures
        r == doc_matches(*d, query@),
{
    let ql = lowercase(query);
    let tl = lowercase(d.title.as_str());
    if str_has_sub(tl.as_str(), ql.as_str()) {
        return true;
    }
    let cl = lowercase(d.content.as_str());
    if str_has_sub(cl.as_str(), ql.as_str()) {
        return true;
    }
    let mut k: usize = 0;
    while k < d.tags.len()
        invariant
            k <= d.tags@.len(),
            ql@ == lower_of(query@),
            forall|k2: int|
                0 <= k2 < k ==> !has_sub(lower_of((#[trigger] d.tags@[k2])@), lower_of(query@)),
        decreases d.tags@.len() - k,
    {
        let gl = lowercase(d.tags[k].as_str());
        if str_has_sub(gl.as_str(), ql.as_str()) {
            return true;
        }
        k += 1;
    }
    false
}

/// Sort documents by update stamp, most recent first.
fn sort_docs(v: &mut Vec<Document>)
    ensures
        final(v)@.to_multiset() == old(v)@.to_multiset(),
        final(v)@.len() == old(v)@.len(),
        forall|j1: int, j2: int|
            0 <= j1 < j2 < final(v)@.len() ==> lex_le(
                final(v)@[j2].updated_at@,
                final(v)@[j1].updated_at@,
            ),
{
    let n = v.len();
    if n <= 1 {
        return ;
    }
    let mut i: usize = 1;
    while i < n
        invariant
            1 <= i <= n,
            n == v@.len(),
            v@.len() == old(v)@.len(),
            v@.to_multiset() == old(v)@.to_multiset(),
            forall|j1: int, j2: int|
                0 <= j1 < j2 < i ==> lex_le(v@[j2].updated_at@, v@[j1].updated_at@),
        decreases n - i,
    {
        let ghost prev = v@;
        let x = v.remove(i);
        let ghost v1 = v@;
        let mut j: usize = i;
        while j > 0 && str_lex_lt(v[j - 1].updated_at.as_str(), x.updated_at.as_str())
            invariant
                j <= i,
                i < n == v1.len() + 1,
                v@ == v1,
                forall|k: int| j <= k < i ==> lex_le(v1[k].updated_at@, x.updated_at@),
            decreases j,
        {
            j -= 1;
        }
        v.insert(j, x);
        proof {
            assert(v1 == prev.remove(i as int));
            vstd::seq_lib::to_multiset_remove::<Document>(prev, i as int);
            assert(v@ == v1.insert(j as int, x));
            vstd::seq_lib::to_multiset_insert::<Document>(v1, j as int, x);
            assert(prev.contains(x));
            vstd::seq_lib::to_multiset_contains::<Document>(prev, x);
            assert(prev.to_multiset().remove(x).insert(x) =~= prev.to_multiset());
            assert(v@.to_multiset() == prev.to_multiset());
            prev.remove_ensures(i as int);
            v1.insert_ensures(j as int, x);
            assert forall|j1: int, j2: int| 0 <= j1 < j2 < i + 1 implies lex_le(
                v@[j2].updated_at@,
                v@[j1].updated_at@,
            ) by {
                assert(forall|k: int| 0 <= k < i ==> v1[k] == prev[k]);
                if j2 < j {
                    assert(v@[j1] == v1[j1] && v@[j2] == v1[j2]);
                    assert(lex_le(prev[j2].updated_at@, prev[j1].updated_at@));
                } else if j2 == j {
                    assert(v@[j1] == v1[j1]);
                    assert(!lex_le(x.updated_at@, v1[j - 1].updated_at@) ==> lex_le(
                        x.updated_at@,
                        v1[j - 1].updated_at@,
                    )) by {
                        lemma_lex_total(x.updated_at@, v1[j - 1].updated_at@);
                    }
                    // loop exit: x's stamp is no newer than the stamp at j-1
                    lemma_lex_lt_asym(v1[j - 1].updated_at@, x.updated_at@);
                    lemma_lex_total(x.updated_at@, v1[j - 1].updated_at@);
                    assert(lex_le(x.updated_at@, v1[j - 1].updated_at@));
                    if j1 < j - 1 {
                        assert(lex_le(prev[j - 1].updated_at@, prev[j1].updated_at@));
                        lemma_lex_le_trans(x.updated_at@, v1[j - 1].updated_at@, v1[j1].updated_at@);
                    }
                } else if j1 == j {
                    assert(v@[j2] == v1[j2 - 1]);
                    assert(lex_le(v1[j2 - 1].updated_at@, x.updated_at@));
                } else if j1 < j {
                    assert(v@[j1] == v1[j1]);
                    assert(v@[j2] == v1[j2 - 1]);
                    assert(lex_le(prev[j2 - 1].updated_at@, prev[j1].updated_at@));
                } else {
                    assert(v@[j1] == v1[j1 - 1]);
                    assert(v@[j2] == v1[j2 - 1]);
                    assert(lex_le(prev[j2 - 1].updated_at@, prev[j1 - 1].updated_at@));
                }
            }
        }
        i += 1;
    }
}

/// The in-memory document store plus the settings.
pub struct Storage {
    pub documents: Vec<Document>,
    pub settings: AppSettings,
}

impl Storage {
    /// The stored document identities are pairwise distinct.
    pub open spec fn wf(self) -> bool {
        forall|i: int, j: int|
            0 <= i < j < self.documents@.len() ==> (#[trigger] self.documents@[i]).id@ != (
            #[trigger] self.documents@[j]).id@
    }

    pub open spec fn has_doc(self, id: Seq<char>) -> bool {
        exists|i: int|
            0 <= i < self.documents@.len() && (#[trigger] self.documents@[i]).id@ == id
    }

    /// Some stored document holds the same data as this one.
    #[verifier::opaque]
    pub open spec fn stored_doc(self, d: Document) -> bool {
        exists|i: int|
            0 <= i < self.documents@.len() && doc_like(d, #[trigger] self.documents@[i])
    }

    /// Some stored document matches the query and holds the same data as
    /// this one.
    #[verifier::opaque]
    pub open spec fn matching_doc(self, d: Document, q: Seq<char>) -> bool {
        exists|i: int|
            0 <= i < self.documents@.len() && doc_like(d, #[trigger] self.documents@[i])
                && doc_matches(self.documents@[i], q)
    }

    /// An empty store with the default settings.
    pub fn empty() -> (s: Storage)
        ensures
            s.wf(),
            s.documents@.len() == 0,
            s.settings.theme@ == "system"@,
            s.settings.ai_providers@.len() == 0,
            s.settings.default_provider is None,
            s.settings.auto_save == true,
            s.settings.auto_save_interval == 30,
    {
        Storage {
            documents: Vec::new(),
            settings: AppSettings {
                theme: "system".to_owned(),
                ai_providers: Vec::new(),
                default_provider: None,
                auto_save: true,
                auto_save_interval: 30,
            },
        }
    }

    /// Assemble a store from already-loaded parts; refused when two
    /// documents share an identity.
    pub fn load(documents: Vec<Document>, settings: AppSettings) -> (r: Option<Storage>)
        ensures
            r matches Some(s) ==> s.wf() && s.documents == documents && s.settings == settings,
            r is None ==> exists|i: int, j: int|
                0 <= i < j < documents@.len() && (#[trigger] documents@[i]).id@ == (
                #[trigger] documents@[j]).id@,
    {
        let mut i: usize = 0;
        while i < documents.len()
            invariant
                i <= documents@.len(),
                forall|a: int, b: int|
                    0 <= a < b < i ==> (#[trigger] documents@[a]).id@ != (
                    #[trigger] documents@[b]).id@,
            decreases documents@.len() - i,
        {
            let mut j: usize = 0;
            while j < i
                invariant
                    j <= i < documents@.len(),
                    forall|b: int|
                        0 <= b < j ==> (#[trigger] documents@[b]).id@ != documents@[i as int].id@,
                decreases i - j,
            {
                if str_eq(documents[j].id.as_str(), documents[i].id.as_str()) {
                    return None;
                }
                j += 1;
            }
            i += 1;
        }
        Some(Storage { documents, settings })
    }

    fn find_doc(&self, id: &str) -> (r: Option<usize>)
        ensures
            (r is Some) == self.has_doc(id@),
            r matches Some(i) ==> i < self.documents@.len() && self.documents@[i as int].id@
                == id@,
    {
        let mut i: usize = 0;
        while i < self.documents.len()
            invariant
                i <= self.documents@.len(),
                forall|k: int| 0 <= k < i ==> (#[trigger] self.documents@[k]).id@ != id@,
            decreases self.documents@.len() - i,
        {
            if str_eq(self.documents[i].id.as_str(), id) {
                return Some(i);
            }
            i += 1;
        }
        None
    }

    /// Every stored document, most recently updated first.
    pub fn get_all_documents(&self) -> (results: Vec<Document>)
        requires
            self.wf(),
        ensures
            results@.len() == self.documents@.len(),
            forall|j: int| 0 <= j < results@.len() ==> self.stored_doc(#[trigger] results@[j]),
            forall|i: int|
                #![trigger self.documents@[i]]
                0 <= i < self.documents@.len() ==> id_present(results@, self.documents@[i].id@),
            forall|j1: int, j2: int|
                0 <= j1 < j2 < results@.len() ==> (#[trigger] results@[j1]).id@ != (
                #[trigger] results@[j2]).id@,
            forall|j1: int, j2: int|
                0 <= j1 < j2 < results@.len() ==> lex_le(
                    results@[j2].updated_at@,
                    results@[j1].updated_at@,
                ),
    {
        let mut out: Vec<Document> = Vec::new();
        let mut i: usize = 0;
        while i < self.documents.len()
            invariant
                i <= self.documents@.len(),
                self.wf(),
                out@.len() == i,
                forall|j: int|
                    0 <= j < i ==> doc_like(#[trigger] out@[j], self.documents@[j]),
            decreases self.documents@.len() - i,
        {
            out.push(self.documents[i].clone());
            i += 1;
        }
        let ghost pre = out@;
        sort_docs(&mut out);
        proof {
            self.lemma_doc_perm(pre, out@);
        }
        out
    }

    /// Every stored document whose case-folded title, body or tag names
    /// contain the case-folded query, most recently updated first.
    pub fn search_documents(&self, query: &str) -> (results: Vec<Document>)
        requires
            self.wf(),
        ensures
            forall|j: int|
                0 <= j < results@.len() ==> self.matching_doc(#[trigger] results@[j], query@),
            forall|i: int|
                #![trigger self.documents@[i]]
                0 <= i < self.documents@.len() ==> (doc_matches(self.documents@[i], query@)
                    <==> id_present(results@, self.documents@[i].id@)),
            forall|j1: int, j2: int|
                0 <= j1 < j2 < results@.len() ==> (#[trigger] results@[j1]).id@ != (
                #[trigger] results@[j2]).id@,
            forall|j1: int, j2: int|
                0 <= j1 < j2 < results@.len() ==> lex_le(
                    results@[j2].updated_at@,
                    results@[j1].updated_at@,
                ),
    {
        let mut out: Vec<Document> = Vec::new();
        let ghost mut src: Seq<int> = Seq::empty();
        let mut i: usize = 0;
        while i < self.documents.len()
            invariant
                i <= self.documents@.len(),
                self.wf(),
                src.len() == out@.len(),
                forall|j: int|
                    #![trigger src[j]]
                    0 <= j < src.len() ==> 0 <= src[j] < i && doc_like(
                        out@[j],
                        self.documents@[src[j]],
                    ) && doc_matches(self.documents@[src[j]], query@) && out@[j].id@
                        == self.documents@[src[j]].id@,
                forall|j1: int, j2: int| 0 <= j1 < j2 < src.len() ==> src[j1] < src[j2],
                forall|i2: int|
                    0 <= i2 < i && #[trigger] doc_matches(self.documents@[i2], query@)
                        ==> exists|j: int| 0 <= j < src.len() && #[trigger] src[j] == i2,
            decreases self.documents@.len() - i,
        {
            let d = &self.documents[i];
            if doc_matches_exec(d, query) {
                let ghost old_src = src;
                out.push(d.clone());
                proof {
                    src = src.push(i as int);
                    assert forall|i2: int|
                        0 <= i2 < i + 1 && #[trigger] doc_matches(self.documents@[i2], query@)
                            implies exists|j: int|
                        0 <= j < src.len() && #[trigger] src[j] == i2 by {
                        if i2 == i {
                            assert(src[old_src.len() as int] == i2);
                        } else {
                            let j = choose|j: int|
                                0 <= j < old_src.len() && #[trigger] old_src[j] == i2;
                            assert(src[j] == i2);
                        }
                    }
                }
            }
            i += 1;
        }
        let ghost pre = out@;
        let ghost gsrc = src;
        sort_docs(&mut out);
        proof {
            self.lemma_search_perm(query@, pre, out@, gsrc);
        }
        out
    }

    /// What the matching scan plus the sort guarantee.
    proof fn lemma_search_perm(
        self,
        q: Seq<char>,
        pre: Seq<Document>,
        post: Seq<Document>,
        src: Seq<int>,
    )
        requires
            self.wf(),
            pre.to_multiset() == post.to_multiset(),
            src.len() == pre.len(),
            forall|j: int|
                #![trigger src[j]]
                0 <= j < src.len() ==> 0 <= src[j] < self.documents@.len() && doc_like(
                    pre[j],
                    self.documents@[src[j]],
                ) && doc_matches(self.documents@[src[j]], q) && pre[j].id@
                    == self.documents@[src[j]].id@,
            forall|j1: int, j2: int| 0 <= j1 < j2 < src.len() ==> src[j1] < src[j2],
            forall|i2: int|
                0 <= i2 < self.documents@.len() && #[trigger] doc_matches(self.documents@[i2], q)
                    ==> exists|j: int| 0 <= j < src.len() && #[trigger] src[j] == i2,
        ensures
            forall|j: int| 0 <= j < post.len() ==> self.matching_doc(#[trigger] post[j], q),
            forall|i: int|
                #![trigger self.documents@[i]]
                0 <= i < self.documents@.len() ==> (doc_matches(self.documents@[i], q)
                    <==> id_present(post, self.documents@[i].id@)),
            forall|j1: int, j2: int|
                0 <= j1 < j2 < post.len() ==> (#[trigger] post[j1]).id@ != (
                #[trigger] post[j2]).id@,
    {
        crate::text::lemma_perm_contains(pre, post);
        let key = |d: Document| d.id@;
        assert forall|j1: int, j2: int| 0 <= j1 < j2 < pre.len() implies key(#[trigger] pre[j1])
            != key(#[trigger] pre[j2]) by {
            assert(src[j1] < src[j2] < self.documents@.len());
        }
        crate::text::lemma_perm_distinct_by(pre, post, key);
        assert forall|j1: int, j2: int| 0 <= j1 < j2 < post.len() implies (
        #[trigger] post[j1]).id@ != (#[trigger] post[j2]).id@ by {
            assert(key(post[j1]) != key(post[j2]));
        }
        assert forall|j: int| 0 <= j < post.len() implies self.matching_doc(
            #[trigger] post[j],
            q,
        ) by {
            assert(post.contains(post[j]));
            let j0 = pre.lemma_contains_to_index(post[j]);
            reveal(Storage::matching_doc);
            assert(doc_like(pre[j0], self.documents@[src[j0]]));
        }
        assert forall|i: int|
            0 <= i < self.documents@.len() && doc_matches(self.documents@[i], q) implies
            id_present(post, self.documents@[i].id@) by {
            let j0 = choose|j0: int| 0 <= j0 < src.len() && #[trigger] src[j0] == i;
            assert(pre.contains(pre[j0]));
            let j = post.lemma_contains_to_index(pre[j0]);
            assert(post[j].id@ == self.documents@[i].id@);
        }
        assert forall|i: int|
            0 <= i < self.documents@.len() && !doc_matches(self.documents@[i], q) implies
            !id_present(post, self.documents@[i].id@) by {
            assert forall|j: int| 0 <= j < post.len() implies (#[trigger] post[j]).id@
                != self.documents@[i].id@ by {
                assert(post.contains(post[j]));
                let j0 = pre.lemma_contains_to_index(post[j]);
                assert(doc_matches(self.documents@[src[j0]], q));
                if src[j0] != i {
                    assert(self.documents@[src[j0]].id@ != self.documents@[i].id@);
                }
            }
        }
    }

    /// What the full copy plus the sort guarantee.
    proof fn lemma_doc_perm(self, pre: Seq<Document>, post: Seq<Document>)
        requires
            self.wf(),
            pre.to_multiset() == post.to_multiset(),
            pre.len() == self.documents@.len(),
            forall|j: int| 0 <= j < pre.len() ==> doc_like(#[trigger] pre[j], self.documents@[j]),
        ensures
            post.len() == self.documents@.len(),
            forall|j: int| 0 <= j < post.len() ==> self.stored_doc(#[trigger] post[j]),
            forall|i: int|
                #![trigger self.documents@[i]]
                0 <= i < self.documents@.len() ==> id_present(post, self.documents@[i].id@),
            forall|j1: int, j2: int|
                0 <= j1 < j2 < post.len() ==> (#[trigger] post[j1]).id@ != (
                #[trigger] post[j2]).id@,
    {
        crate::text::lemma_perm_contains(pre, post);
        let key = |d: Document| d.id@;
        assert forall|j1: int, j2: int| 0 <= j1 < j2 < pre.len() implies key(#[trigger] pre[j1])
            != key(#[trigger] pre[j2]) by {}
        crate::text::lemma_perm_distinct_by(pre, post, key);
        assert forall|j1: int, j2: int| 0 <= j1 < j2 < post.len() implies (
        #[trigger] post[j1]).id@ != (#[trigger] post[j2]).id@ by {
            assert(key(post[j1]) != key(post[j2]));
        }
        assert forall|j: int| 0 <= j < post.len() implies self.stored_doc(#[trigger] post[j]) by {
            assert(post.contains(post[j]));
            let j0 = pre.lemma_contains_to_index(post[j]);
            reveal(Storage::stored_doc);
            assert(doc_like(post[j], self.documents@[j0]));
        }
        assert forall|i: int| #![trigger self.documents@[i]] 0 <= i < self.documents@.len() implies id_present(
            post,
            self.documents@[i].id@,
        ) by {
            assert(pre.contains(pre[i]));
            let j = post.lemma_contains_to_index(pre[i]);
            assert(doc_like(pre[i], self.documents@[i]));
            assert(0 <= j < post.len() && post[j].id@ == self.documents@[i].id@);
        }
    }

    /// Fetch one document by identity.
    pub fn get_document(&self, id: &str) -> (r: Option<Document>)
        ensures
            (r is Some) == self.has_doc(id@),
            r matches Some(d) ==> d.id@ == id@ && exists|i: int|
                0 <= i < self.documents@.len() && doc_like(d, #[trigger] self.documents@[i])
                    && self.documents@[i].id@ == id@,
    {
        match self.find_doc(id) {
            Some(i) => Some(self.documents[i].clone()),
            None => None,
        }
    }

    /// Create a document under a fresh identity, titled as requested or
    /// with the default title, with the default body and no tags, both
    /// timestamps set to one reading of the clock. The new document is
    /// stored under its identity; in the vanishingly unlikely event that
    /// the fresh identity collides, it replaces the old holder.
    pub fn create_document(&mut self, request: CreateDocumentRequest) -> (doc: Document)
        requires
            old(self).wf(),
        ensures
            final(self).wf(),
            settings_like(final(self).settings, old(self).settings),
            doc.id@.len() == 36,
            doc.title@ == (match request.title {
                Some(t) => t@,
                None => "未命名文档"@
            }),
            doc.content@ == "[{\"type\":\"p\",\"children\":[{\"text\":\"\"}]}]"@,
            doc.created_at == doc.updated_at,
            doc.created_at@.len() > 0,
            doc.tags@.len() == 0,
            final(self).has_doc(doc.id@),
            !old(self).has_doc(doc.id@) ==> final(self).documents@.len() == old(
                self,
            ).documents@.len() + 1 && doc_like(final(self).documents@.last(), doc) && (forall|
                i: int,
            |
                0 <= i < old(self).documents@.len() ==> final(self).documents@[i] == old(
                    self,
                ).documents@[i]),
            old(self).has_doc(doc.id@) ==> final(self).documents@.len() == old(
                self,
            ).documents@.len() && exists|i: int|
                0 <= i < old(self).documents@.len() && (#[trigger] old(self).documents@[i]).id@
                    == doc.id@ && doc_like(final(self).documents@[i], doc) && (forall|k: int|
                    0 <= k < old(self).documents@.len() && k != i ==> final(self).documents@[k]
                        == old(self).documents@[k]),
    {
        let id = fresh_id();
        let now = now_rfc3339();
        let doc = Document {
            id,
            title: match request.title {
                Some(t) => t,
                None => "未命名文档".to_owned(),
            },
            content: "[{\"type\":\"p\",\"children\":[{\"text\":\"\"}]}]".to_owned(),
            created_at: now.clone(),
            updated_at: now,
            tags: Vec::new(),
        };
        let stored = doc.clone();
        match self.find_doc(doc.id.as_str()) {
            Some(i) => {
                self.documents.set(i, stored);
                proof {
                    assert(final(self).documents@[i as int].id@ == doc.id@);
                }
            },
            None => {
                self.documents.push(stored);
                proof {
                    assert(final(self).documents@.last().id@ == doc.id@);
                }
            },
        }
        doc
    }

    /// Update a document in place: each present field replaces the
    /// stored one, the update stamp is set to one reading of the clock,
    /// identity and creation stamp stay. A missing identity updates
    /// nothing.
    pub fn update_document(&mut self, id: &str, request: UpdateDocumentRequest) -> (r: Option<
        Document,
    >)
        requires
            old(self).wf(),
        ensures
            final(self).wf(),
            settings_like(final(self).settings, old(self).settings),
            (r is Some) == old(self).has_doc(id@),
            r is None ==> *final(self) == *old(self),
            r matches Some(d) ==> exists|i: int|
                0 <= i < old(self).documents@.len() && (#[trigger] old(self).documents@[i]).id@
                    == id@ && final(self).documents@.len() == old(self).documents@.len() && (forall|
                    k: int,
                |
                    0 <= k < old(self).documents@.len() && k != i ==> final(self).documents@[k]
                        == old(self).documents@[k]) && doc_like(d, final(self).documents@[i])
                    && d.id@ == id@ && d.created_at == old(self).documents@[i].created_at
                    && d.title@ == (match request.title {
                    Some(t) => t@,
                    None => old(self).documents@[i].title@,
                }) && d.content@ == (match request.content {
                    Some(c) => c@,
                    None => old(self).documents@[i].content@,
                }) && d.tags@ == (match request.tags {
                    Some(ts) => ts@,
                    None => old(self).documents@[i].tags@,
                }) && d.updated_at@.len() > 0,
    {
        let i = match self.find_doc(id) {
            Some(i) => i,
            None => {
                return None;
            },
        };
        let old_doc = &self.documents[i];
        let nd = Document {
            id: old_doc.id.clone(),
            title: match request.title {
                Some(t) => t,
                None => old_doc.title.clone(),
            },
            content: match request.content {
                Some(c) => c,
                None => old_doc.content.clone(),
            },
            created_at: old_doc.created_at.clone(),
            updated_at: now_rfc3339(),
            tags: match request.tags {
                Some(ts) => ts,
                None => clone_string_vec(&old_doc.tags),
            },
        };
        let ret = nd.clone();
        self.documents.set(i, nd);
        Some(ret)
    }

    /// Delete a document by identity; reports whether one was removed.
    pub fn delete_document(&mut self, id: &str) -> (r: bool)
        requires
            old(self).wf(),
        ensures
            final(self).wf(),
            settings_like(final(self).settings, old(self).settings),
            r == old(self).has_doc(id@),
            !r ==> *final(self) == *old(self),
            r ==> exists|i: int|
                0 <= i < old(self).documents@.len() && (#[trigger] old(self).documents@[i]).id@
                    == id@ && final(self).documents@ == old(self).documents@.remove(i),
            !final(self).has_doc(id@),
    {
        let i = match self.find_doc(id) {
            Some(i) => i,
            None => {
                return false;
            },
        };
        let ghost docs0 = self.documents@;
        self.documents.remove(i);
        proof {
            docs0.remove_ensures(i as int);
            assert forall|a: int, b: int|
                0 <= a < b < self.documents@.len() implies (#[trigger] self.documents@[a]).id@
                != (#[trigger] self.documents@[b]).id@ by {
                let a1: int = if a < i {
                    a
                } else {
                    a + 1
                };
                let b1: int = if b < i {
                    b
                } else {
                    b + 1
                };
                assert(self.documents@[a] == docs0[a1] && self.documents@[b] == docs0[b1]);
            }
            assert forall|k: int| 0 <= k < self.documents@.len() implies (
            #[trigger] self.documents@[k]).id@ != id@ by {
                let k1: int = if k < i {
                    k
                } else {
                    k + 1
                };
                assert(self.documents@[k] == docs0[k1]);
                assert(k1 != i);
            }
        }
        true
    }

    /// The current settings.
    pub fn get_settings(&self) -> (r: AppSettings)
        ensures
            settings_like(r, self.settings),
    {
        self.settings.clone()
    }

    /// Replace the settings wholesale; the documents stay untouched.
    pub fn update_settings(&mut self, settings: AppSettings)
        ensures
            final(self).settings == settings,
            final(self).documents == old(self).documents,
    {
        self.settings = settings;
    }
}

} // verus!
