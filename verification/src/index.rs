use vstd::prelude::*;

use crate::docset::DocSet;
use crate::words::{WordDictionary, forms_distinct, spec_intern, spec_intern_all};
use crate::words::{lemma_intern_all_distinct, lemma_intern_all_grows, lemma_intern_all_contains};
use crate::words::lemma_distinct_index_of;
use crate::seqs::lemma_push_contains;

verus! {

/// One indexed document: its identifier (a path string) and the word
/// identifiers occurring in it, without duplicates.
struct DocEntry {
    path: String,
    words: Vec<u32>,
}

/// The forward index: one entry per indexed document, mapping the document
/// to the set of word identifiers its text contains.  Re-indexing a
/// document replaces its entry outright.
pub struct ForwardIndex {
    docs: Vec<DocEntry>,
}

/// A sequence of word identifiers without duplicates.
pub open spec fn ids_distinct(ws: Seq<u32>) -> bool {
    forall|i: int, j: int| 0 <= i < j < ws.len() ==> ws[i] != ws[j]
}

/// The set of word identifiers a document gets for the forms `fs`, read
/// off the dictionary as it stands after interning them.
pub open spec fn spec_doc_ids(forms: Seq<Seq<char>>, fs: Seq<Seq<char>>) -> Set<u32> {
    Set::new(|w: u32| (w as int) < forms.len() && fs.contains(forms[w as int]))
}

/// The set of word forms that a set of identifiers resolves to under a
/// dictionary.
pub open spec fn resolved_forms(forms: Seq<Seq<char>>, ids: Set<u32>) -> Set<Seq<char>> {
    Set::new(|f: Seq<char>| exists|w: u32| ids.contains(w) && (w as int) < forms.len() && forms[w as int] == f)
}

impl ForwardIndex {
    /// The document identifiers, in insertion order.
    pub closed spec fn paths(self) -> Seq<Seq<char>> {
        self.docs@.map_values(|e: DocEntry| e.path@)
    }

    /// The word identifiers of the document at position `d`.
    pub closed spec fn words_at(self, d: int) -> Seq<u32> {
        self.docs@[d].words@
    }

    /// The number of indexed documents.
    pub open spec fn num_docs(self) -> nat {
        self.paths().len()
    }

    /// The identifier of the document at position `d`.
    pub open spec fn path_at(self, d: int) -> Seq<char> {
        self.paths()[d]
    }

    /// Whether word `w` occurs in the document at position `d`.
    pub open spec fn has_word(self, d: int, w: u32) -> bool {
        0 <= d < self.num_docs() && self.words_at(d).contains(w)
    }

    /// The index as a mapping from document identifier to word-id set.
    pub open spec fn as_map(self) -> Map<Seq<char>, Set<u32>> {
        Map::new(
            |p: Seq<char>| self.paths().contains(p),
            |p: Seq<char>|
                Set::new(|w: u32| self.words_at(self.paths().index_of(p)).contains(w)),
        )
    }

    /// Document identifiers are distinct and no entry lists a word twice.
    pub open spec fn wf(self) -> bool {
        &&& forms_distinct(self.paths())
        &&& forall|d: int| 0 <= d < self.num_docs() ==> ids_distinct(self.words_at(d))
    }

    /// An empty index.
    pub fn new() -> (r: ForwardIndex)
        ensures
            r.wf(),
            r.num_docs() == 0,
    {
        let r = ForwardIndex { docs: Vec::new() };
        proof {
            assert(r.paths() =~= Seq::<Seq<char>>::empty());
        }
        r
    }

    /// The number of indexed documents, as an executable value.
    pub fn len(&self) -> (n: usize)
        ensures
            n == self.num_docs(),
    {
        self.docs.len()
    }

    /// The identifier of the document at position `d`.
    pub fn path(&self, d: usize) -> (p: &String)
        requires
            d < self.num_docs(),
        ensures
            p@ == self.path_at(d as int),
    {
        &self.docs[d].path
    }

    /// The word identifiers of the document at position `d`.
    pub fn words(&self, d: usize) -> (ws: &Vec<u32>)
        requires
            d < self.num_docs(),
        ensures
            ws@ == self.words_at(d as int),
    {
        &self.docs[d].words
    }

    /// The position of the document named `path`, if it is indexed.
    pub fn find(&self, path: &String) -> (r: Option<usize>)
        ensures
            match r {
                Some(d) => d < self.num_docs() && self.path_at(d as int) == path@,
                None => !self.paths().contains(path@),
            },
    {
        let n = self.docs.len();
        let mut i: usize = 0;
        while i < n
            invariant
                i <= n,
                n == self.num_docs(),
                forall|j: int| 0 <= j < i ==> self.path_at(j) != path@,
            decreases n - i,
        {
            proof {
                assert(self.path_at(i as int) == self.docs@[i as int].path@);
            }
            if self.docs[i].path == *path {
                return Some(i);
            }
            i += 1;
        }
        proof {
            if self.paths().contains(path@) {
                let j = choose|j: int| 0 <= j < self.paths().len() && self.paths()[j] == path@;
                assert(self.path_at(j) == path@);
            }
        }
        None
    }

    /// Stores `words` as the entry for `path`, replacing any previous
    /// entry for the same document and appending a new one otherwise.
    pub fn set_doc(&mut self, path: String, words: Vec<u32>)
        requires
            old(self).wf(),
            ids_distinct(words@),
        ensures
            final(self).wf(),
            old(self).paths().contains(path@) ==> final(self).paths() == old(self).paths(),
            !old(self).paths().contains(path@) ==> final(self).paths() == old(self).paths().push(path@),
            forall|d: int|
                0 <= d < final(self).num_docs() && final(self).path_at(d) == path@
                    ==> final(self).words_at(d) == words@,
            forall|d: int|
                0 <= d < final(self).num_docs() && final(self).path_at(d) != path@
                    ==> 0 <= d < old(self).num_docs() && final(self).path_at(d) == old(self).path_at(d)
                        && final(self).words_at(d) == old(self).words_at(d),
            final(self).as_map() == old(self).as_map().insert(path@, words@.to_set()),
    {
        let ghost pv = path@;
        let ghost wv = words@;
        let found = self.find(&path);
        match found {
            Some(d) => {
                self.docs.set(d, DocEntry { path, words });
                proof {
                    assert(self.paths() =~= old(self).paths());
                    assert(old(self).paths().contains(pv)) by {
                        assert(old(self).paths()[d as int] == pv);
                    }
                    assert(self.path_at(d as int) == pv);
                    assert forall|dd: int|
                        0 <= dd < self.num_docs() && self.path_at(dd) == pv
                        implies dd == d as int by {
                        assert(forms_distinct(old(self).paths()));
                    }
                    assert forall|dd: int| 0 <= dd < self.num_docs()
                        implies ids_distinct(#[trigger] self.words_at(dd)) by {
                        if dd == d as int {
                            assert(self.words_at(dd) == wv);
                        } else {
                            assert(self.words_at(dd) == old(self).words_at(dd));
                        }
                    }
                }
            },
            None => {
                self.docs.push(DocEntry { path, words });
                proof {
                    assert(self.paths() =~= old(self).paths().push(pv));
                    assert forall|i: int, j: int|
                        0 <= i < j < self.paths().len()
                        implies self.paths()[i] != self.paths()[j] by {
                        if j == old(self).paths().len() {
                            assert(!old(self).paths().contains(pv));
                            assert(old(self).paths()[i] == self.paths()[i]);
                        }
                    }
                    let n0 = old(self).num_docs() as int;
                    assert(self.path_at(n0) == pv);
                    assert(self.words_at(n0) == wv);
                    assert forall|dd: int| 0 <= dd < self.num_docs()
                        implies ids_distinct(#[trigger] self.words_at(dd)) by {
                        if dd < n0 {
                            assert(self.words_at(dd) == old(self).words_at(dd));
                        } else {
                            assert(self.words_at(dd) == wv);
                        }
                    }
                    assert forall|dd: int|
                        0 <= dd < self.num_docs() && self.path_at(dd) == pv
                        implies self.words_at(dd) == wv by {
                        if dd < n0 {
                            assert(old(self).paths().contains(pv)) by {
                                assert(old(self).paths()[dd] == pv);
                            }
                        }
                    }
                }
            },
        }
        proof {
            assert(self.paths().contains(pv)) by {
                if old(self).paths().contains(pv) {
                } else {
                    assert(self.paths()[old(self).paths().len() as int] == pv);
                }
            }
            lemma_as_map_insert(*old(self), *self, pv, wv);
        }
    }

    /// Indexes one document: interns every form of `forms` into the
    /// dictionary, and stores the set of identifiers they receive as the
    /// document's entry, replacing any previous entry for the same
    /// document.  The stored identifiers resolve back to exactly the set
    /// of forms handed in.
    pub fn index_document(&mut self, dict: &mut WordDictionary, path: String, forms: &Vec<String>)
        requires
            old(self).wf(),
            old(dict).wf(),
            old(dict)@.len() + forms@.len() <= u32::MAX,
        ensures
            final(self).wf(),
            final(dict).wf(),
            final(dict)@ == spec_intern_all(old(dict)@, forms.deep_view()),
            old(self).paths().contains(path@) ==> final(self).paths() == old(self).paths(),
            !old(self).paths().contains(path@) ==> final(self).paths() == old(self).paths().push(path@),
            forall|d: int|
                0 <= d < final(self).num_docs() && final(self).path_at(d) == path@
                    ==> (forall|w: u32|
                        final(self).words_at(d).contains(w)
                            <==> spec_doc_ids(final(dict)@, forms.deep_view()).contains(w)),
            forall|d: int|
                0 <= d < final(self).num_docs() && final(self).path_at(d) != path@
                    ==> 0 <= d < old(self).num_docs() && final(self).path_at(d) == old(self).path_at(d)
                        && final(self).words_at(d) == old(self).words_at(d),
    {
        let ghost fs = forms.deep_view();
        let n = forms.len();
        let mut ids: Vec<u32> = Vec::new();
        let mut i: usize = 0;
        while i < n
            invariant
                i <= n,
                n == fs.len(),
                fs == forms.deep_view(),
                dict.wf(),
                old(dict).wf(),
                old(dict)@.len() + fs.len() <= u32::MAX,
                dict@ == spec_intern_all(old(dict)@, fs.take(i as int)),
                dict@.len() <= old(dict)@.len() + i,
                ids_distinct(ids@),
                forall|w: u32|
                    ids@.contains(w)
                        <==> ((w as int) < dict@.len() && fs.take(i as int).contains(dict@[w as int])),
            decreases n - i,
        {
            proof {
                lemma_intern_all_distinct(old(dict)@, fs.take(i as int));
                lemma_take_one_more(fs, i as int);
                lemma_intern_all_snoc(old(dict)@, fs.take(i as int), fs[i as int]);
            }
            let ghost pre = dict@;
            let id = dict.intern(&forms[i]);
            proof {
                assert(dict@ == spec_intern(pre, fs[i as int]));
                assert(dict@ == spec_intern_all(old(dict)@, fs.take(i as int + 1)));
            }
            let ghost pre_ids = ids@;
            let mut seen = false;
            let m = ids.len();
            let mut k: usize = 0;
            while k < m
                invariant
                    k <= m,
                    m == ids@.len(),
                    ids@ == pre_ids,
                    seen <==> exists|j: int| 0 <= j < k && ids@[j] == id,
                decreases m - k,
            {
                if ids[k] == id {
                    seen = true;
                }
                k += 1;
            }
            if !seen {
                ids.push(id);
            }
            proof {
                assert(seen <==> pre_ids.contains(id));
                if !pre_ids.contains(id) {
                    assert(ids@ == pre_ids.push(id));
                    assert forall|a: int, b: int| 0 <= a < b < ids@.len()
                        implies ids@[a] != ids@[b] by {
                        if b == pre_ids.len() {
                            assert(ids@[a] == pre_ids[a]);
                            assert(!pre_ids.contains(id));
                        }
                    }
                }
                assert forall|x: u32| ids@.contains(x) <==> (pre_ids.contains(x) || x == id) by {
                    if pre_ids.contains(id) {
                        assert(ids@ == pre_ids);
                    } else {
                        lemma_push_contains(pre_ids, id, x);
                    }
                }
                let fsi = fs.take(i as int);
                let fsi1 = fs.take(i as int + 1);
                lemma_intern_all_distinct(old(dict)@, fsi1);
                assert forall|w: u32| ids@.contains(w)
                    implies ((w as int) < dict@.len() && fsi1.contains(dict@[w as int])) by {
                    if w == id {
                        assert(dict@[id as int] == forms@[i as int]@);
                        assert(fsi1[i as int] == fs[i as int]);
                        assert(fsi1.contains(fs[i as int]));
                    } else {
                        assert(pre_ids.contains(w));
                        assert((w as int) < pre.len() && fsi.contains(pre[w as int]));
                        assert(dict@[w as int] == pre[w as int]);
                        let j = choose|j: int| 0 <= j < fsi.len() && fsi[j] == pre[w as int];
                        assert(fsi1[j] == fsi[j]);
                        assert(fsi1.contains(dict@[w as int]));
                    }
                }
                assert forall|w: u32| (w as int) < dict@.len() && fsi1.contains(dict@[w as int])
                    implies ids@.contains(w) by {
                    let j = choose|j: int| 0 <= j < fsi1.len() && fsi1[j] == dict@[w as int];
                    if j < i as int {
                        if (w as int) < pre.len() {
                            assert(pre[w as int] == dict@[w as int]);
                            assert(fsi[j] == fsi1[j]);
                            assert(fsi.contains(pre[w as int]));
                            assert(pre_ids.contains(w));
                        } else {
                            // the only new position holds the fresh form,
                            // which no earlier query form can equal
                            assert(dict@ == pre.push(fs[i as int]));
                            assert(dict@[w as int] == fs[i as int]);
                            assert(!pre.contains(fs[i as int]));
                            assert(fsi[j] == fsi1[j]);
                            assert(fsi.contains(fs[i as int]));
                            lemma_intern_all_contains(old(dict)@, fsi, fs[i as int]);
                            assert(false);
                        }
                    } else {
                        // this position holds the form just interned, whose
                        // identifier is `id`
                        assert(fsi1[j] == fs[i as int]);
                        assert(dict@[w as int] == fs[i as int]);
                        assert(dict@[id as int] == fs[i as int]);
                        assert(forms_distinct(dict@));
                        assert(w == id);
                    }
                    assert(ids@.contains(w));
                }
            }
            i += 1;
        }
        proof {
            assert(fs.take(n as int) =~= fs);
        }
        self.set_doc(path, ids);
    }
}

/// Replacing or adding one document's entry updates the index's mapping
/// at exactly that document.
proof fn lemma_as_map_insert(pre: ForwardIndex, post: ForwardIndex, pv: Seq<char>, wv: Seq<u32>)
    requires
        forms_distinct(pre.paths()),
        forms_distinct(post.paths()),
        pre.paths().contains(pv) ==> post.paths() == pre.paths(),
        !pre.paths().contains(pv) ==> post.paths() == pre.paths().push(pv),
        forall|d: int|
            0 <= d < post.num_docs() && post.path_at(d) == pv ==> post.words_at(d) == wv,
        forall|d: int|
            0 <= d < post.num_docs() && post.path_at(d) != pv ==> 0 <= d < pre.num_docs()
                && post.path_at(d) == pre.path_at(d) && post.words_at(d) == pre.words_at(d),
        post.paths().contains(pv),
    ensures
        post.as_map() == pre.as_map().insert(pv, wv.to_set()),
{
    let m1 = post.as_map();
    let m2 = pre.as_map().insert(pv, wv.to_set());
    assert forall|p: Seq<char>|
        #![auto]
        m1.dom().contains(p) <==> m2.dom().contains(p) by {
        if !pre.paths().contains(pv) {
            lemma_push_contains(pre.paths(), pv, p);
        }
    }
    assert(m1.dom() =~= m2.dom());
    assert forall|p: Seq<char>| #[trigger] m1.dom().contains(p) implies m1[p] == m2[p] by {
        let j = choose|j: int| 0 <= j < post.paths().len() && post.paths()[j] == p;
        lemma_distinct_index_of(post.paths(), p, j);
        assert(post.paths().index_of(p) == j);
        if p == pv {
            assert(post.path_at(j) == pv);
            assert(post.words_at(j) == wv);
            assert(m1[p] =~= wv.to_set());
            assert(m2[p] == wv.to_set());
        } else {
            assert(post.path_at(j) == p);
            assert(0 <= j < pre.num_docs() && pre.path_at(j) == p && post.words_at(j)
                == pre.words_at(j));
            lemma_distinct_index_of(pre.paths(), p, j);
            assert(pre.paths().contains(p)) by {
                assert(pre.paths()[j] == p);
            }
            assert(m2[p] == pre.as_map()[p]);
            assert(m1[p] =~= pre.as_map()[p]);
        }
    }
    assert(m1 =~= m2);
}

/// `take(i + 1)` is `take(i)` with one more element at the end.
proof fn lemma_take_one_more<A>(s: Seq<A>, i: int)
    requires
        0 <= i < s.len(),
    ensures
        s.take(i + 1) == s.take(i).push(s[i]),
{
    assert(s.take(i + 1) =~= s.take(i).push(s[i]));
}

/// Interning `fs` and then one more form is interning `fs.push(f)`.
proof fn lemma_intern_all_snoc(forms: Seq<Seq<char>>, fs: Seq<Seq<char>>, f: Seq<char>)
    ensures
        spec_intern_all(forms, fs.push(f)) == spec_intern(spec_intern_all(forms, fs), f),
    decreases fs.len(),
{
    if fs.len() == 0 {
        assert(fs.push(f).drop_first() =~= Seq::<Seq<char>>::empty());
        assert(fs.push(f)[0] == f);
        assert(spec_intern_all(forms, fs.push(f))
            == spec_intern_all(spec_intern(forms, f), fs.push(f).drop_first()));
        assert(spec_intern_all(spec_intern(forms, f), Seq::<Seq<char>>::empty())
            == spec_intern(forms, f));
        assert(spec_intern_all(forms, fs) == forms);
    } else {
        assert(fs.push(f)[0] == fs[0]);
        assert(fs.push(f).drop_first() =~= fs.drop_first().push(f));
        assert(spec_intern_all(forms, fs.push(f))
            == spec_intern_all(spec_intern(forms, fs[0]), fs.drop_first().push(f)));
        lemma_intern_all_snoc(spec_intern(forms, fs[0]), fs.drop_first(), f);
        assert(spec_intern_all(forms, fs)
            == spec_intern_all(spec_intern(forms, fs[0]), fs.drop_first()));
    }
}

/// Indexing a document resolves its stored identifiers to exactly the set
/// of forms that were handed in, whatever dictionary state the run
/// started from.
pub proof fn lemma_resolved_forms_exact(forms0: Seq<Seq<char>>, fs: Seq<Seq<char>>)
    requires
        forms_distinct(forms0),
        forms0.len() + fs.len() <= u32::MAX,
    ensures
        resolved_forms(
            spec_intern_all(forms0, fs),
            spec_doc_ids(spec_intern_all(forms0, fs), fs),
        ) =~= fs.to_set(),
{
    let forms = spec_intern_all(forms0, fs);
    lemma_intern_all_distinct(forms0, fs);
    assert forall|f: Seq<char>|
        resolved_forms(forms, spec_doc_ids(forms, fs)).contains(f) implies fs.to_set().contains(f) by {
        let w = choose|w: u32|
            spec_doc_ids(forms, fs).contains(w) && (w as int) < forms.len() && forms[w as int] == f;
        assert(fs.contains(forms[w as int]));
    }
    assert forall|f: Seq<char>| fs.to_set().contains(f)
        implies resolved_forms(forms, spec_doc_ids(forms, fs)).contains(f) by {
        assert(fs.contains(f));
        lemma_intern_all_contains(forms0, fs, f);
        assert(forms.contains(f));
        let i = choose|i: int| 0 <= i < forms.len() && forms[i] == f;
        lemma_intern_all_grows(forms0, fs);
        assert(forms.len() <= forms0.len() + fs.len());
        let w = i as u32;
        assert(spec_doc_ids(forms, fs).contains(w));
    }
}

/// Idempotence of indexing: the same sequence of forms, indexed in two
/// runs that start from any two dictionary states, yields identifier sets
/// that resolve to the same set of word forms.
pub proof fn lemma_indexing_idempotent(
    forms_a: Seq<Seq<char>>,
    forms_b: Seq<Seq<char>>,
    fs: Seq<Seq<char>>,
)
    requires
        forms_distinct(forms_a),
        forms_distinct(forms_b),
        forms_a.len() + fs.len() <= u32::MAX,
        forms_b.len() + fs.len() <= u32::MAX,
    ensures
        resolved_forms(
            spec_intern_all(forms_a, fs),
            spec_doc_ids(spec_intern_all(forms_a, fs), fs),
        ) == resolved_forms(
            spec_intern_all(forms_b, fs),
            spec_doc_ids(spec_intern_all(forms_b, fs), fs),
        ),
{
    lemma_resolved_forms_exact(forms_a, fs);
    lemma_resolved_forms_exact(forms_b, fs);
}

} // verus!
