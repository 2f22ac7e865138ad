use vstd::prelude::*;

use crate::docset::DocSet;
use crate::index::{ForwardIndex, ids_distinct};

verus! {

/// One row of the inverted index: a word identifier and the set of
/// documents containing it.
struct Posting {
    word: u32,
    docs: DocSet,
}

/// The inverted index: for each word identifier that occurs anywhere in
/// the forward index, the set of documents containing it.  It is derived
/// from the forward index by [`InvertedIndex::build`], never mutated on
/// its own, and never persisted.
pub struct InvertedIndex {
    ndocs: usize,
    rows: Vec<Posting>,
}

impl InvertedIndex {
    /// The number of documents of the forward index this was built from.
    pub closed spec fn num_docs(self) -> nat {
        self.ndocs as nat
    }

    /// The word identifiers that have a row, in insertion order.
    closed spec fn row_words(self) -> Seq<u32> {
        self.rows@.map_values(|p: Posting| p.word)
    }

    /// Whether document index `d` is listed under word `w`.
    pub closed spec fn postings_contain(self, w: u32, d: int) -> bool {
        exists|r: int|
            0 <= r < self.rows@.len() && self.rows@[r].word == w && self.rows@[r].docs.contains(d)
    }

    /// Rows are keyed by distinct words and all range over the same
    /// universe of documents.
    pub closed spec fn wf(self) -> bool {
        &&& ids_distinct(self.row_words())
        &&& forall|r: int|
            0 <= r < self.rows@.len() ==> (#[trigger] self.rows@[r].docs).capacity() == self.ndocs
    }

    /// The number of documents, as an executable value.
    pub fn len(&self) -> (n: usize)
        ensures
            n == self.num_docs(),
    {
        self.ndocs
    }

    /// The row holding word `w`, if there is one.
    fn find_row(&self, w: u32) -> (r: Option<usize>)
        ensures
            match r {
                Some(ri) => ri < self.rows@.len() && self.rows@[ri as int].word == w,
                None => forall|j: int| 0 <= j < self.rows@.len() ==> self.rows@[j].word != w,
            },
    {
        let n = self.rows.len();
        let mut i: usize = 0;
        while i < n
            invariant
                i <= n,
                n == self.rows@.len(),
                forall|j: int| 0 <= j < i ==> self.rows@[j].word != w,
            decreases n - i,
        {
            if self.rows[i].word == w {
                return Some(i);
            }
            i += 1;
        }
        None
    }

    /// The posting set of word `w`: every document listed under `w`, or
    /// the empty set if no document contains `w`.
    pub fn posting(&self, w: u32) -> (ds: DocSet)
        requires
            self.wf(),
        ensures
            ds.capacity() == self.num_docs(),
            forall|d: int| ds.contains(d) <==> self.postings_contain(w, d),
    {
        let found = self.find_row(w);
        match found {
            Some(ri) => {
                let ds = self.rows[ri].docs.duplicate();
                proof {
                    assert forall|d: int| ds.contains(d) <==> self.postings_contain(w, d) by {
                        if self.postings_contain(w, d) {
                            let r = choose|r: int|
                                0 <= r < self.rows@.len() && self.rows@[r].word == w
                                    && self.rows@[r].docs.contains(d);
                            assert(self.row_words()[r] == w);
                            assert(self.row_words()[ri as int] == w);
                            assert(r == ri as int);
                        }
                    }
                }
                ds
            },
            None => {
                let ds = DocSet::empty(self.ndocs);
                ds
            },
        }
    }

    /// Builds the inverted index as the exact transpose of the forward
    /// index: document `d` is listed under word `w` if and only if `w`
    /// occurs in document `d`.
    pub fn build(fwd: &ForwardIndex) -> (inv: InvertedIndex)
        requires
            fwd.wf(),
        ensures
            inv.wf(),
            inv.num_docs() == fwd.num_docs(),
            forall|w: u32, d: int| inv.postings_contain(w, d) <==> fwd.has_word(d, w),
    {
        let n = fwd.len();
        let mut inv = InvertedIndex { ndocs: n, rows: Vec::new() };
        let mut d: usize = 0;
        while d < n
            invariant
                d <= n,
                n == fwd.num_docs(),
                fwd.wf(),
                inv.ndocs == n,
                inv.wf(),
                forall|r: int, dd: int|
                    0 <= r < inv.rows@.len() ==> ((#[trigger] inv.rows@[r].docs.contains(dd))
                        <==> (0 <= dd < d && fwd.has_word(dd, inv.rows@[r].word))),
                forall|w: u32, dd: int|
                    0 <= dd < d && fwd.has_word(dd, w) ==> inv.row_words().contains(w),
            decreases n - d,
        {
            let ws = fwd.words(d);
            let m = ws.len();
            let mut k: usize = 0;
            while k < m
                invariant
                    k <= m,
                    d < n,
                    n == fwd.num_docs(),
                    fwd.wf(),
                    ws@ == fwd.words_at(d as int),
                    m == ws@.len(),
                    inv.ndocs == n,
                    inv.wf(),
                    forall|r: int, dd: int|
                        0 <= r < inv.rows@.len() ==> ((#[trigger] inv.rows@[r].docs.contains(dd))
                            <==> ((0 <= dd < d && fwd.has_word(dd, inv.rows@[r].word))
                                || (dd == d && ws@.take(k as int).contains(inv.rows@[r].word)))),
                    forall|w: u32, dd: int|
                        0 <= dd < d && fwd.has_word(dd, w) ==> inv.row_words().contains(w),
                    forall|w: u32|
                        ws@.take(k as int).contains(w) ==> inv.row_words().contains(w),
                decreases m - k,
            {
                let w = ws[k];
                let ghost tk = ws@.take(k as int);
                let ghost tk1 = ws@.take(k as int + 1);
                proof {
                    assert(tk1 =~= tk.push(ws@[k as int]));
                    assert forall|x: u32| #[trigger] tk1.contains(x)
                        implies (tk.contains(x) || x == w) by {
                        let j = choose|j: int| 0 <= j < tk1.len() && tk1[j] == x;
                        if j < k as int {
                            assert(tk[j] == x);
                        }
                    }
                    assert(tk1.contains(w)) by {
                        assert(tk1[k as int] == w);
                    }
                    assert forall|x: u32| tk.contains(x) implies tk1.contains(x) by {
                        let j = choose|j: int| 0 <= j < tk.len() && tk[j] == x;
                        assert(tk1[j] == x);
                    }
                }
                let ghost prev_rows = inv.rows@;
                let found = inv.find_row(w);
                match found {
                    Some(ri) => {
                        let mut ds = inv.rows[ri].docs.duplicate();
                        ds.insert(d);
                        inv.rows.set(ri, Posting { word: w, docs: ds });
                        proof {
                            assert(prev_rows[ri as int].word == w);
                            assert(inv.row_words() =~= prev_rows.map_values(|p: Posting| p.word));
                            assert(inv.row_words().contains(w)) by {
                                assert(inv.row_words()[ri as int] == w);
                            }
                            assert forall|r: int, dd: int|
                                0 <= r < inv.rows@.len()
                                implies ((#[trigger] inv.rows@[r].docs.contains(dd))
                                    <==> ((0 <= dd < d && fwd.has_word(dd, inv.rows@[r].word))
                                        || (dd == d && tk1.contains(inv.rows@[r].word)))) by {
                                if r == ri as int {
                                    assert(inv.rows@[r].word == w);
                                    assert(inv.rows@[r].docs.contains(dd)
                                        <==> (prev_rows[r].docs.contains(dd) || dd == d));
                                } else {
                                    assert(inv.rows@[r] == prev_rows[r]);
                                    assert(inv.rows@[r].word != w) by {
                                        assert(ids_distinct(inv.row_words()));
                                        assert(inv.row_words()[r] == inv.rows@[r].word);
                                        assert(inv.row_words()[ri as int] == w);
                                    }
                                    assert(tk1.contains(inv.rows@[r].word)
                                        <==> tk.contains(inv.rows@[r].word));
                                }
                            }
                        }
                    },
                    None => {
                        let mut ds = DocSet::empty(n);
                        ds.insert(d);
                        inv.rows.push(Posting { word: w, docs: ds });
                        proof {
                            assert(inv.row_words() =~= prev_rows.map_values(|p: Posting| p.word).push(w));
                            let ghost pw = prev_rows.map_values(|p: Posting| p.word);
                            assert(!pw.contains(w)) by {
                                if pw.contains(w) {
                                    let j = choose|j: int| 0 <= j < pw.len() && pw[j] == w;
                                    assert(prev_rows[j].word == w);
                                }
                            }
                            assert forall|a: int, b: int| 0 <= a < b < inv.row_words().len()
                                implies inv.row_words()[a] != inv.row_words()[b] by {
                                if b == pw.len() {
                                    assert(inv.row_words()[a] == pw[a]);
                                    assert(pw.contains(pw[a]));
                                }
                            }
                            assert(inv.row_words().contains(w)) by {
                                assert(inv.row_words()[prev_rows.len() as int] == w);
                            }
                            // no earlier document holds `w`: a row would exist
                            assert(forall|dd: int| !(0 <= dd < d && fwd.has_word(dd, w)));
                            assert forall|r: int, dd: int|
                                0 <= r < inv.rows@.len()
                                implies ((#[trigger] inv.rows@[r].docs.contains(dd))
                                    <==> ((0 <= dd < d && fwd.has_word(dd, inv.rows@[r].word))
                                        || (dd == d && tk1.contains(inv.rows@[r].word)))) by {
                                if r == prev_rows.len() as int {
                                    assert(inv.rows@[r].word == w);
                                    assert(inv.rows@[r].docs.contains(dd) <==> dd == d as int);
                                } else {
                                    assert(inv.rows@[r] == prev_rows[r]);
                                    assert(inv.rows@[r].word != w);
                                    assert(tk1.contains(inv.rows@[r].word)
                                        <==> tk.contains(inv.rows@[r].word));
                                }
                            }
                        }
                    },
                }
                proof {
                    assert forall|x: u32| tk1.contains(x) implies inv.row_words().contains(x) by {
                        if x == w {
                            assert(inv.row_words().contains(w));
                        } else {
                            assert(tk.contains(x));
                            let ghost pw = prev_rows.map_values(|p: Posting| p.word);
                            assert(pw.contains(x));
                            let j = choose|j: int| 0 <= j < pw.len() && pw[j] == x;
                            assert(inv.row_words()[j] == x);
                        }
                    }
                    assert forall|x: u32, dd: int| 0 <= dd < d && fwd.has_word(dd, x)
                        implies inv.row_words().contains(x) by {
                        let ghost pw = prev_rows.map_values(|p: Posting| p.word);
                        assert(pw.contains(x));
                        let j = choose|j: int| 0 <= j < pw.len() && pw[j] == x;
                        assert(inv.row_words()[j] == x);
                    }
                }
                k += 1;
            }
            proof {
                assert(ws@.take(m as int) =~= ws@);
                assert forall|r: int, dd: int|
                    0 <= r < inv.rows@.len()
                    implies ((#[trigger] inv.rows@[r].docs.contains(dd))
                        <==> (0 <= dd < d + 1 && fwd.has_word(dd, inv.rows@[r].word))) by {
                    assert(ws@.contains(inv.rows@[r].word)
                        <==> fwd.has_word(d as int, inv.rows@[r].word));
                }
                assert forall|x: u32, dd: int| 0 <= dd < d + 1 && fwd.has_word(dd, x)
                    implies inv.row_words().contains(x) by {
                    if dd == d as int {
                        assert(ws@.contains(x));
                    }
                }
            }
            d += 1;
        }
        proof {
            assert forall|w: u32, dd: int|
                inv.postings_contain(w, dd) <==> fwd.has_word(dd, w) by {
                if inv.postings_contain(w, dd) {
                    let r = choose|r: int|
                        0 <= r < inv.rows@.len() && inv.rows@[r].word == w
                            && inv.rows@[r].docs.contains(dd);
                    assert(fwd.has_word(dd, w));
                }
                if fwd.has_word(dd, w) {
                    assert(inv.row_words().contains(w));
                    let j = choose|j: int|
                        0 <= j < inv.row_words().len() && inv.row_words()[j] == w;
                    assert(inv.rows@[j].word == w);
                    assert(inv.rows@[j].docs.contains(dd));
                }
            }
        }
        inv
    }
}

} // verus!
