//! The in-memory vector index: a mapping from document id to stored
//! embedding, text and metadata, with brute-force cosine-similarity search.
//!
//! The index's abstract value (its view) is a `Map` from the id's characters
//! to the stored document content. `add` is the map's insert (replacing any
//! prior entry whole), `delete` its remove, and `search` scores every entry
//! against the query and returns the top `limit` of them, ordered by
//! non-increasing score; entries with equal scores keep the order in which
//! their ids were first added, so ties are broken deterministically. That
//! order, `ranking()`, is part of the abstract state: the contracts of
//! `add`, `delete` and `clear` say how it evolves, and `search`'s contract
//! pins the tie-break to it.

use vstd::prelude::*;
use crate::similarity::{COORD_MAX, MAX_DIM, bounded_by, cosine_sim, cosine_similarity};

verus! {

/// Declares the `serde_json` crate's `Value` so that it can appear in fields
/// and signatures; the value is carried through, never read here.
#[verifier::external_type_specification]
#[verifier::external_body]
pub struct ExValue(serde_json::Value);

/// Relies on serde_json::Value's derived Clone: the copy equals the original.
#[verifier::external_body]
fn clone_value(v: &serde_json::Value) -> (r: serde_json::Value)
    ensures
        r == *v,
{
    v.clone()
}

/// The abstract content of one stored document.
pub ghost struct DocModel {
    pub embedding: Seq<i64>,
    pub text: Seq<char>,
    pub metadata: Option<serde_json::Value>,
}

/// One document held by the index: its id, its fixed-point embedding, the
/// original text and optional JSON metadata.
pub struct IndexedDocument {
    pub id: String,
    pub embedding: Vec<i64>,
    pub text: String,
    pub metadata: Option<serde_json::Value>,
}

impl IndexedDocument {
    /// The stored content, without the id under which it is filed.
    pub open spec fn model(&self) -> DocModel {
        DocModel { embedding: self.embedding@, text: self.text@, metadata: self.metadata }
    }
}

fn clone_vec_i64(v: &Vec<i64>) -> (r: Vec<i64>)
    ensures
        r@ == v@,
{
    let mut r: Vec<i64> = Vec::new();
    let mut i: usize = 0;
    while i < v.len()
        invariant
            0 <= i <= v@.len(),
            r@.len() == i,
            forall|j: int| 0 <= j < i ==> #[trigger] r@[j] == v@[j],
        decreases v@.len() - i,
    {
        r.push(v[i]);
        i = i + 1;
    }
    proof {
        assert(r@ =~= v@);
    }
    r
}

impl Clone for IndexedDocument {
    /// The copy files the same content under the same id.
    fn clone(&self) -> (r: Self)
        ensures
            r.id@ == self.id@,
            r.model() == self.model(),
    {
        IndexedDocument {
            id: self.id.clone(),
            embedding: clone_vec_i64(&self.embedding),
            text: self.text.clone(),
            metadata: match &self.metadata {
                Some(v) => Some(clone_value(v)),
                None => None,
            },
        }
    }
}

/// One search hit: the document's id, its similarity score against the
/// query, and its text.
pub struct SearchResult {
    pub id: String,
    pub score: i64,
    pub text: String,
}

/// Scores never increase along the sequence.
pub open spec fn sorted_desc(s: Seq<SearchResult>) -> bool {
    forall|i: int, j: int|
        0 <= i < j < s.len() ==> (#[trigger] s[i]).score >= (#[trigger] s[j]).score
}

/// No id occurs twice.
pub open spec fn distinct_ids(s: Seq<SearchResult>) -> bool {
    forall|i: int, j: int| 0 <= i < j < s.len() ==> (#[trigger] s[i]).id@ != (#[trigger] s[j]).id@
}

/// Some entry of `s` carries the id `k`.
pub open spec fn in_results(s: Seq<SearchResult>, k: Seq<char>) -> bool {
    exists|i: int| 0 <= i < s.len() && (#[trigger] s[i]).id@ == k
}

/// `e` reports a document of `m`, with the exact similarity of its stored
/// embedding against the query `q` and its stored text.
pub open spec fn entry_ok(m: Map<Seq<char>, DocModel>, q: Seq<i64>, e: SearchResult) -> bool {
    &&& m.contains_key(e.id@)
    &&& e.score == cosine_sim(q, m[e.id@].embedding)
    &&& e.text@ == m[e.id@].text
}

/// The in-memory document index. Readers (`search`, `get`, `count`) take
/// `&self` and writers (`add`, `delete`, `clear`) `&mut self`, so a caller
/// shares it behind a reader/writer lock.
pub struct VectorIndex {
    docs: Vec<IndexedDocument>,
    contents: Ghost<Map<Seq<char>, DocModel>>,
}

impl View for VectorIndex {
    type V = Map<Seq<char>, DocModel>;

    closed spec fn view(&self) -> Map<Seq<char>, DocModel> {
        self.contents@
    }
}

impl VectorIndex {
    /// The stored documents are filed under pairwise distinct ids, carry
    /// embeddings the similarity functions accept, and agree with the
    /// abstract map.
    pub closed spec fn wf(&self) -> bool {
        &&& self.contents@.dom().finite()
        &&& self.contents@.len() == self.docs@.len()
        &&& forall|i: int, j: int|
            0 <= i < j < self.docs@.len() ==> (#[trigger] self.docs@[i]).id@ != (
            #[trigger] self.docs@[j]).id@
        &&& forall|i: int|
            0 <= i < self.docs@.len() ==> {
                let d = #[trigger] self.docs@[i];
                &&& self.contents@.contains_key(d.id@)
                &&& self.contents@[d.id@] == d.model()
                &&& d.embedding@.len() <= MAX_DIM
                &&& bounded_by(d.embedding@, COORD_MAX as int)
            }
        &&& forall|k: Seq<char>|
            #[trigger] self.contents@.contains_key(k) ==> exists|i: int|
                0 <= i < self.docs@.len() && (#[trigger] self.docs@[i]).id@ == k
    }

    /// The stored ids in the order their entries were first added. Search
    /// breaks equal scores by this order, so it is part of the index's
    /// abstract state: `add` of a new id appends to it, replacing keeps it,
    /// `delete` removes the id's position.
    pub closed spec fn ranking(&self) -> Seq<Seq<char>> {
        Seq::new(self.docs@.len() as nat, |i: int| self.docs@[i].id@)
    }

    /// The position of id `k` in the tie-break order.
    pub open spec fn rank_of(&self, k: Seq<char>) -> int {
        self.ranking().index_of(k)
    }

    /// A well-formed index holds finitely many entries, and its tie-break
    /// order lists exactly the stored ids, each once.
    pub proof fn lemma_ranking_wf(&self)
        requires
            self.wf(),
        ensures
            self@.dom().finite(),
            self.ranking().len() == self@.len(),
            forall|i: int, j: int|
                0 <= i < j < self.ranking().len() ==> self.ranking()[i] != self.ranking()[j],
            forall|i: int|
                0 <= i < self.ranking().len() ==> self@.contains_key(#[trigger] self.ranking()[i]),
            forall|k: Seq<char>|
                #[trigger] self@.contains_key(k) ==> self.ranking().contains(k)
                    && self.ranking()[self.rank_of(k)] == k && 0 <= self.rank_of(k)
                    < self.ranking().len(),
    {
        assert forall|k: Seq<char>| #[trigger] self@.contains_key(k) implies self.ranking().contains(
            k,
        ) && self.ranking()[self.rank_of(k)] == k && 0 <= self.rank_of(k)
            < self.ranking().len() by {
            let i = choose|i: int|
                0 <= i < self.docs@.len() && (#[trigger] self.docs@[i]).id@ == k;
            assert(self.ranking()[i] == k);
            assert(exists|t: int| 0 <= t < self.ranking().len() && self.ranking()[t] == k);
        }
    }

    proof fn lemma_rank_of_doc(&self, w: int)
        requires
            self.wf(),
            0 <= w < self.docs@.len(),
        ensures
            self.rank_of(self.docs@[w].id@) == w,
    {
        let k = self.docs@[w].id@;
        assert(self.ranking()[w] == k);
        assert(exists|t: int| 0 <= t < self.ranking().len() && self.ranking()[t] == k);
        let c = self.rank_of(k);
        assert(0 <= c < self.ranking().len() && self.ranking()[c] == k);
        if c != w {
            assert(self.docs@[c].id@ == self.docs@[w].id@);
        }
    }

    /// An empty index.
    pub fn new() -> (r: Self)
        ensures
            r.wf(),
            r@ == Map::<Seq<char>, DocModel>::empty(),
            r.ranking() == Seq::<Seq<char>>::empty(),
    {
        let r = VectorIndex { docs: Vec::new(), contents: Ghost(Map::empty()) };
        proof {
            assert(r.ranking() =~= Seq::<Seq<char>>::empty());
        }
        r
    }

    fn position_of(&self, key: &String) -> (r: Option<usize>)
        requires
            self.wf(),
        ensures
            r matches Some(i) ==> i < self.docs@.len() && self.docs@[i as int].id@ == key@,
            r is None ==> forall|i: int|
                0 <= i < self.docs@.len() ==> (#[trigger] self.docs@[i]).id@ != key@,
    {
        let mut i: usize = 0;
        while i < self.docs.len()
            invariant
                0 <= i <= self.docs@.len(),
                forall|j: int| 0 <= j < i ==> (#[trigger] self.docs@[j]).id@ != key@,
            decreases self.docs@.len() - i,
        {
            if self.docs[i].id == *key {
                return Some(i);
            }
            i = i + 1;
        }
        None
    }

    /// Inserts the document under `id`, or replaces the entry whole if `id`
    /// is already present. Never fails for inputs the similarity functions
    /// accept.
    pub fn add(
        &mut self,
        id: &str,
        embedding: Vec<i64>,
        text: String,
        metadata: Option<serde_json::Value>,
    )
        requires
            old(self).wf(),
            embedding@.len() <= MAX_DIM,
            bounded_by(embedding@, COORD_MAX as int),
        ensures
            final(self).wf(),
            final(self)@ == old(self)@.insert(
                id@,
                DocModel { embedding: embedding@, text: text@, metadata: metadata },
            ),
            final(self).ranking() == (if old(self)@.contains_key(id@) {
                old(self).ranking()
            } else {
                old(self).ranking().push(id@)
            }),
    {
        let key: String = id.to_owned();
        let doc = IndexedDocument { id: key, embedding, text, metadata };
        let ghost dm = doc.model();
        let key2: String = id.to_owned();
        let pos = self.position_of(&key2);
        match pos {
            Some(i) => {
                self.docs[i] = doc;
                self.contents = Ghost(self.contents@.insert(id@, dm));
                proof {
                    assert(self.docs@ == old(self).docs@.update(i as int, self.docs@[i as int]));
                    assert forall|k: Seq<char>| #[trigger]
                        self.contents@.contains_key(k) implies exists|t: int|
                        0 <= t < self.docs@.len() && (#[trigger] self.docs@[t]).id@ == k by {
                        if k == id@ {
                            assert(self.docs@[i as int].id@ == k);
                        } else {
                            let t = choose|t: int|
                                0 <= t < old(self).docs@.len() && (#[trigger] old(
                                    self,
                                ).docs@[t]).id@ == k;
                            assert(self.docs@[t].id@ == k);
                        }
                    }
                    assert(old(self)@.contains_key(id@));
                    assert(self.ranking() =~= old(self).ranking());
                }
            },
            None => {
                self.docs.push(doc);
                self.contents = Ghost(self.contents@.insert(id@, dm));
                proof {
                    let n = old(self).docs@.len();
                    assert(self.docs@[n as int].id@ == id@);
                    assert forall|k: Seq<char>| #[trigger]
                        self.contents@.contains_key(k) implies exists|t: int|
                        0 <= t < self.docs@.len() && (#[trigger] self.docs@[t]).id@ == k by {
                        if k == id@ {
                            assert(self.docs@[n as int].id@ == k);
                        } else {
                            let t = choose|t: int|
                                0 <= t < old(self).docs@.len() && (#[trigger] old(
                                    self,
                                ).docs@[t]).id@ == k;
                            assert(self.docs@[t].id@ == k);
                        }
                    }
                    assert(!old(self)@.contains_key(id@));
                    assert(self.ranking() =~= old(self).ranking().push(id@));
                }
            },
        }
    }

    /// Returns a copy of the current entry for `id`, or nothing when the id
    /// is absent.
    pub fn get(&self, id: &str) -> (r: Option<IndexedDocument>)
        requires
            self.wf(),
        ensures
            (r matches Some(d) ==> self@.contains_key(id@) && d.id@ == id@ && d.model()
                == self@[id@]),
            r is None ==> !self@.contains_key(id@),
    {
        let key: String = id.to_owned();
        match self.position_of(&key) {
            Some(i) => Some(self.docs[i].clone()),
            None => None,
        }
    }

    /// Removes the entry for `id` if present; says whether a removal
    /// happened. The count drops by exactly one on `true` and the index is
    /// unchanged on `false`.
    pub fn delete(&mut self, id: &str) -> (r: bool)
        requires
            old(self).wf(),
        ensures
            final(self).wf(),
            r == old(self)@.contains_key(id@),
            final(self)@ == old(self)@.remove(id@),
            !final(self)@.contains_key(id@),
            r ==> final(self)@.len() == old(self)@.len() - 1,
            !r ==> final(self)@ == old(self)@,
            r ==> 0 <= old(self).rank_of(id@) < old(self).ranking().len() && old(
                self,
            ).ranking()[old(self).rank_of(id@)] == id@ && final(self).ranking() == old(
                self,
            ).ranking().remove(old(self).rank_of(id@)),
            !r ==> final(self).ranking() == old(self).ranking(),
    {
        let key: String = id.to_owned();
        match self.position_of(&key) {
            Some(i) => {
                self.docs.remove(i);
                self.contents = Ghost(self.contents@.remove(id@));
                proof {
                    old(self).docs@.remove_ensures(i as int);
                    assert forall|a: int, b: int|
                        0 <= a < b < self.docs@.len() implies (#[trigger] self.docs@[a]).id@ != (
                    #[trigger] self.docs@[b]).id@ by {
                        let a0: int = if a < i as int {
                            a
                        } else {
                            a + 1
                        };
                        let b0: int = if b < i as int {
                            b
                        } else {
                            b + 1
                        };
                        assert(self.docs@[a] == old(self).docs@[a0]);
                        assert(self.docs@[b] == old(self).docs@[b0]);
                    }
                    assert forall|k: Seq<char>| #[trigger]
                        self.contents@.contains_key(k) implies exists|t: int|
                        0 <= t < self.docs@.len() && (#[trigger] self.docs@[t]).id@ == k by {
                        let t0 = choose|t: int|
                            0 <= t < old(self).docs@.len() && (#[trigger] old(self).docs@[t]).id@
                                == k;
                        if t0 < i as int {
                            assert(self.docs@[t0].id@ == k);
                        } else {
                            assert(self.docs@[t0 - 1].id@ == k);
                        }
                    }
                    assert forall|t: int| 0 <= t < self.docs@.len() implies {
                        let d = #[trigger] self.docs@[t];
                        &&& self.contents@.contains_key(d.id@)
                        &&& self.contents@[d.id@] == d.model()
                        &&& d.embedding@.len() <= MAX_DIM
                        &&& bounded_by(d.embedding@, COORD_MAX as int)
                    } by {
                        let t0: int = if t < i as int {
                            t
                        } else {
                            t + 1
                        };
                        assert(self.docs@[t] == old(self).docs@[t0]);
                        assert(old(self).docs@[t0].id@ != id@);
                    }
                    old(self).lemma_rank_of_doc(i as int);
                    old(self).ranking().remove_ensures(i as int);
                    assert(self.ranking() =~= old(self).ranking().remove(i as int));
                }
                true
            },
            None => {
                proof {
                    if self.contents@.contains_key(id@) {
                        let t = choose|t: int|
                            0 <= t < self.docs@.len() && (#[trigger] self.docs@[t]).id@ == id@;
                        assert(false);
                    }
                    assert(self.contents@.remove(id@) =~= self.contents@);
                }
                false
            },
        }
    }

    /// Removes every entry.
    pub fn clear(&mut self)
        requires
            old(self).wf(),
        ensures
            final(self).wf(),
            final(self)@ == Map::<Seq<char>, DocModel>::empty(),
            final(self)@.len() == 0,
            final(self).ranking() == Seq::<Seq<char>>::empty(),
    {
        self.docs.clear();
        self.contents = Ghost(Map::empty());
        proof {
            assert(self.ranking() =~= Seq::<Seq<char>>::empty());
        }
    }

    /// How many documents are stored.
    pub fn count(&self) -> (r: usize)
        requires
            self.wf(),
        ensures
            r == self@.len(),
    {
        self.docs.len()
    }

    /// Scores every stored document against `query_embedding` by cosine
    /// similarity and returns the top `limit` of them: at most `limit`
    /// results, scores non-increasing, each hit reporting a stored
    /// document's exact score and text, no document reported twice, and no
    /// unreported document scoring higher than any reported one. Equal
    /// scores are broken by `ranking()`, the order ids were first added:
    /// among the hits, equal scores come in ranking order, and no reported
    /// document of some score ranks after an unreported one of the same
    /// score. Together these clauses fix the result completely, so the
    /// tie-break is deterministic.
    #[verifier::rlimit(100)]
    pub fn search(&self, query_embedding: &Vec<i64>, limit: usize) -> (r: Vec<SearchResult>)
        requires
            self.wf(),
            query_embedding@.len() <= MAX_DIM,
            bounded_by(query_embedding@, COORD_MAX as int),
            forall|k: Seq<char>|
                self@.contains_key(k) ==> (#[trigger] self@[k]).embedding.len()
                    == query_embedding@.len(),
        ensures
            r@.len() == vstd::math::min(limit as int, self@.len() as int),
            sorted_desc(r@),
            distinct_ids(r@),
            forall|i: int| 0 <= i < r@.len() ==> entry_ok(self@, query_embedding@, #[trigger] r@[i]),
            forall|k: Seq<char>|
                #[trigger] self@.contains_key(k) && !in_results(r@, k) && limit > 0
                    ==> cosine_sim(query_embedding@, self@[k].embedding) <= r@[r@.len() - 1].score,
            forall|i: int, j: int|
                0 <= i < j < r@.len() && (#[trigger] r@[i]).score == (#[trigger] r@[j]).score
                    ==> self.rank_of(r@[i].id@) < self.rank_of(r@[j].id@),
            forall|k: Seq<char>, j: int|
                #[trigger] self@.contains_key(k) && !in_results(r@, k) && 0 <= j < r@.len() && (
                #[trigger] r@[j]).score == cosine_sim(query_embedding@, self@[k].embedding)
                    ==> self.rank_of(r@[j].id@) < self.rank_of(k),
    {
        let ghost m = self.contents@;
        let ghost q = query_embedding@;
        let n = self.docs.len();
        let mut out: Vec<SearchResult> = Vec::new();
        let mut idx: usize = 0;
        while idx < n
            invariant
                self.wf(),
                m == self.contents@,
                q == query_embedding@,
                query_embedding@.len() <= MAX_DIM,
                bounded_by(query_embedding@, COORD_MAX as int),
                forall|k: Seq<char>|
                    m.contains_key(k) ==> (#[trigger] m[k]).embedding.len() == q.len(),
                n == self.docs@.len(),
                0 <= idx <= n,
                out@.len() == idx,
                sorted_desc(out@),
                distinct_ids(out@),
                forall|t: int| 0 <= t < out@.len() ==> entry_ok(m, q, #[trigger] out@[t]),
                forall|t: int|
                    0 <= t < idx ==> in_results(out@, (#[trigger] self.docs@[t]).id@),
                forall|t: int|
                    0 <= t < out@.len() ==> exists|w: int|
                        0 <= w < idx && (#[trigger] out@[t]).id@ == self.docs@[w].id@,
                forall|t1: int, t2: int|
                    0 <= t1 < t2 < out@.len() && (#[trigger] out@[t1]).score == (
                    #[trigger] out@[t2]).score ==> self.rank_of(out@[t1].id@) < self.rank_of(
                        out@[t2].id@,
                    ),
            decreases n - idx,
        {
            proof {
                assert(m.contains_key(self.docs@[idx as int].id@));
                assert(m[self.docs@[idx as int].id@] == self.docs@[idx as int].model());
            }
            let d = &self.docs[idx];
            let sc = cosine_similarity(query_embedding, &d.embedding);
            let e = SearchResult { id: d.id.clone(), score: sc, text: d.text.clone() };
            let mut p: usize = 0;
            while p < out.len() && out[p].score >= e.score
                invariant
                    0 <= p <= out@.len(),
                    sorted_desc(out@),
                    e.score == sc,
                    forall|t: int| 0 <= t < p ==> (#[trigger] out@[t]).score >= e.score,
                decreases out@.len() - p,
            {
                p = p + 1;
            }
            let ghost pre = out@;
            out.insert(p, e);
            proof {
                pre.insert_ensures(p as int, e);
                assert(e.id@ == self.docs@[idx as int].id@);
                assert(entry_ok(m, q, e));
                assert forall|a: int, b: int| 0 <= a < b < out@.len() implies (
                #[trigger] out@[a]).score >= (#[trigger] out@[b]).score by {
                    if b < p as int {
                        assert(out@[a] == pre[a] && out@[b] == pre[b]);
                    } else if b == p as int {
                        assert(out@[b] == e && out@[a] == pre[a]);
                    } else {
                        assert(out@[b] == pre[b - 1]);
                        assert(p as int <= b - 1 < pre.len());
                        assert(pre[p as int].score < e.score);
                        if a < p as int {
                            assert(out@[a] == pre[a]);
                            assert(pre[a].score >= e.score);
                            assert(pre[a].score >= pre[b - 1].score || a == b - 1);
                        } else if a == p as int {
                            assert(out@[a] == e);
                            assert(pre[b - 1].score <= pre[p as int].score || b - 1 == p as int);
                        } else {
                            assert(out@[a] == pre[a - 1]);
                        }
                    }
                }
                assert forall|t: int| 0 <= t < pre.len() implies (#[trigger] pre[t]).id@
                    != e.id@ by {
                    let w = choose|w: int|
                        0 <= w < idx && (#[trigger] pre[t]).id@ == self.docs@[w].id@;
                    assert(self.docs@[w].id@ != self.docs@[idx as int].id@);
                }
                assert forall|a: int, b: int| 0 <= a < b < out@.len() implies (
                #[trigger] out@[a]).id@ != (#[trigger] out@[b]).id@ by {
                    lemma_insert_distinct(pre, e, p as int, a, b);
                }
                assert forall|t: int| 0 <= t < out@.len() implies exists|w: int|
                    0 <= w < idx + 1 && (#[trigger] out@[t]).id@ == self.docs@[w].id@ by {
                    if t < p as int {
                        assert(out@[t] == pre[t]);
                    } else if t == p as int {
                        assert(out@[t].id@ == self.docs@[idx as int].id@);
                    } else {
                        assert(out@[t] == pre[t - 1]);
                    }
                }
                assert forall|t: int| 0 <= t < idx + 1 implies in_results(
                    out@,
                    (#[trigger] self.docs@[t]).id@,
                ) by {
                    if t == idx as int {
                        assert(out@[p as int].id@ == self.docs@[t].id@);
                    } else {
                        let w = choose|w: int|
                            0 <= w < pre.len() && (#[trigger] pre[w]).id@ == self.docs@[t].id@;
                        if w < p as int {
                            assert(out@[w].id@ == self.docs@[t].id@);
                        } else {
                            assert(out@[w + 1].id@ == self.docs@[t].id@);
                        }
                    }
                }
                assert forall|t: int| 0 <= t < out@.len() implies entry_ok(
                    m,
                    q,
                    #[trigger] out@[t],
                ) by {
                    if t < p as int {
                        assert(out@[t] == pre[t]);
                    } else if t == p as int {
                        assert(out@[t] == e);
                    } else {
                        assert(out@[t] == pre[t - 1]);
                    }
                }
                assert forall|t1: int, t2: int|
                    0 <= t1 < t2 < out@.len() && (#[trigger] out@[t1]).score == (
                #[trigger] out@[t2]).score implies self.rank_of(out@[t1].id@) < self.rank_of(
                    out@[t2].id@,
                ) by {
                    self.lemma_rank_of_doc(idx as int);
                    if t2 < p as int {
                        assert(out@[t1] == pre[t1] && out@[t2] == pre[t2]);
                    } else if t2 == p as int {
                        assert(out@[t2] == e && out@[t1] == pre[t1]);
                        let w = choose|w: int|
                            0 <= w < idx && (#[trigger] pre[t1]).id@ == self.docs@[w].id@;
                        self.lemma_rank_of_doc(w);
                        assert(self.rank_of(out@[t1].id@) == w);
                        assert(self.rank_of(out@[t2].id@) == idx);
                    } else {
                        assert(out@[t2] == pre[t2 - 1]);
                        assert(p as int <= t2 - 1 < pre.len());
                        assert(pre[p as int].score < e.score);
                        if t1 < p as int {
                            assert(out@[t1] == pre[t1]);
                        } else if t1 == p as int {
                            assert(out@[t1] == e);
                            assert(pre[t2 - 1].score <= pre[p as int].score || t2 - 1 == p as int);
                            assert(false);
                        } else {
                            assert(out@[t1] == pre[t1 - 1]);
                        }
                    }
                }
            }
            idx = idx + 1;
        }
        let ghost full = out@;
        proof {
            assert(m.len() == n);
            assert forall|k: Seq<char>| #[trigger] m.contains_key(k) implies in_results(
                full,
                k,
            ) by {
                let t = choose|t: int|
                    0 <= t < self.docs@.len() && (#[trigger] self.docs@[t]).id@ == k;
                assert(in_results(out@, self.docs@[t].id@));
            }
        }
        if limit < out.len() {
            out.truncate(limit);
        }
        proof {
            if limit < full.len() {
                assert(out@ == full.subrange(0, limit as int));
            }
            assert forall|k: Seq<char>|
                #[trigger] m.contains_key(k) && !in_results(out@, k) && limit > 0 implies
                cosine_sim(q, m[k].embedding) <= out@[out@.len() - 1].score by {
                let t = choose|t: int| 0 <= t < full.len() && (#[trigger] full[t]).id@ == k;
                assert(entry_ok(m, q, full[t]));
                assert(full[t].score == cosine_sim(q, m[k].embedding));
                if t < out@.len() {
                    assert(out@[t] == full[t]);
                    assert(in_results(out@, k));
                }
                assert(t >= out@.len());
                assert(out@[out@.len() - 1] == full[out@.len() - 1]);
                assert(full[out@.len() - 1].score >= full[t].score);
            }
            assert forall|i: int, j: int|
                0 <= i < j < out@.len() && (#[trigger] out@[i]).score == (
            #[trigger] out@[j]).score implies self.rank_of(out@[i].id@) < self.rank_of(
                out@[j].id@,
            ) by {
                assert(out@[i] == full[i] && out@[j] == full[j]);
            }
            assert forall|k: Seq<char>, j: int|
                #[trigger] m.contains_key(k) && !in_results(out@, k) && 0 <= j < out@.len() && (
            #[trigger] out@[j]).score == cosine_sim(q, m[k].embedding) implies self.rank_of(
                out@[j].id@,
            ) < self.rank_of(k) by {
                let t = choose|t: int| 0 <= t < full.len() && (#[trigger] full[t]).id@ == k;
                if t < out@.len() {
                    assert(out@[t] == full[t]);
                    assert(in_results(out@, k));
                }
                assert(t >= out@.len());
                assert(out@[j] == full[j]);
                assert(entry_ok(m, q, full[t]));
                assert(full[j].score == full[t].score);
                assert(self.rank_of(full[j].id@) < self.rank_of(full[t].id@));
                assert(full[t].id@ == k);
            }
        }
        out
    }
}

/// Re-adding an id that the index already holds replaces that entry whole
/// and leaves the number of entries unchanged: inserting at a present key
/// overwrites the value and keeps the map's size.
pub proof fn lemma_readd_preserves_count(m: Map<Seq<char>, DocModel>, id: Seq<char>, d: DocModel)
    requires
        m.dom().finite(),
        m.contains_key(id),
    ensures
        m.insert(id, d).len() == m.len(),
        m.insert(id, d)[id] == d,
        forall|k: Seq<char>|
            k != id && #[trigger] m.contains_key(k) ==> m.insert(id, d)[k] == m[k],
{
}

proof fn lemma_insert_distinct(pre: Seq<SearchResult>, e: SearchResult, p: int, a: int, b: int)
    requires
        0 <= p <= pre.len(),
        distinct_ids(pre),
        forall|t: int| 0 <= t < pre.len() ==> (#[trigger] pre[t]).id@ != e.id@,
        0 <= a < b < pre.insert(p, e).len(),
    ensures
        pre.insert(p, e)[a].id@ != pre.insert(p, e)[b].id@,
{
    pre.insert_ensures(p, e);
    let s = pre.insert(p, e);
    if a < p && b < p {
        assert(s[a] == pre[a] && s[b] == pre[b]);
    } else if a < p && b == p {
        assert(s[a] == pre[a] && s[b] == e);
    } else if a < p && b > p {
        assert(s[a] == pre[a] && s[b] == pre[b - 1]);
    } else if a == p {
        assert(s[a] == e && s[b] == pre[b - 1]);
    } else {
        assert(s[a] == pre[a - 1] && s[b] == pre[b - 1]);
    }
}

} // verus!
