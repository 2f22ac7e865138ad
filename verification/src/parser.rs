use vstd::prelude::*;

use crate::docset::DocSet;
use crate::index::ForwardIndex;
use crate::invert::InvertedIndex;
use crate::text::{spec_split, split_query};
use crate::words::WordDictionary;
use vstd::string::StringExecFns;

verus! {

/// One token of a boolean query, after whitespace splitting and term
/// expansion.  A term carries the word forms it was expanded to; a
/// document matches the term only if it contains every one of them.
pub enum QueryToken {
    And,
    Or,
    Not,
    LParen,
    RParen,
    Term(Vec<String>),
}

/// The mathematical value of a query token: operators stand for
/// themselves, a term is the sequence of its expanded word forms.
pub enum SpecToken {
    And,
    Or,
    Not,
    LParen,
    RParen,
    Term(Seq<Seq<char>>),
}

impl View for QueryToken {
    type V = SpecToken;

    open spec fn view(&self) -> SpecToken {
        match self {
            QueryToken::And => SpecToken::And,
            QueryToken::Or => SpecToken::Or,
            QueryToken::Not => SpecToken::Not,
            QueryToken::LParen => SpecToken::LParen,
            QueryToken::RParen => SpecToken::RParen,
            QueryToken::Term(fs) => SpecToken::Term(fs.deep_view()),
        }
    }
}

impl DeepView for QueryToken {
    type V = SpecToken;

    open spec fn deep_view(&self) -> SpecToken {
        self.view()
    }
}

/// How evaluating a query can fail.  A syntax error is distinct from a
/// legitimate empty result; a tokenization failure is fatal to the query
/// and is raised by callers whose term expansion fails.
#[derive(Clone, Copy, Debug, PartialEq, Eq, Structural)]
pub enum QueryError {
    Syntax,
    Tokenization,
}

pub open spec fn at_and(t: Seq<SpecToken>, p: int) -> bool {
    0 <= p < t.len() && t[p] is And
}

pub open spec fn at_or(t: Seq<SpecToken>, p: int) -> bool {
    0 <= p < t.len() && t[p] is Or
}

pub open spec fn at_not(t: Seq<SpecToken>, p: int) -> bool {
    0 <= p < t.len() && t[p] is Not
}

pub open spec fn at_lpar(t: Seq<SpecToken>, p: int) -> bool {
    0 <= p < t.len() && t[p] is LParen
}

pub open spec fn at_rpar(t: Seq<SpecToken>, p: int) -> bool {
    0 <= p < t.len() && t[p] is RParen
}

/// The query evaluator: a recursive-descent parser over a token sequence,
/// evaluating directly to document sets against a word dictionary, a
/// forward index and the inverted index derived from it.
///
/// Grammar, lowest precedence first:
/// ```text
/// ors   = ands ( "OR" ands )*
/// ands  = nots ( ( "AND" | ) nots )*    juxtaposition acts as AND
/// nots  = "NOT" nots | parens
/// parens = "(" ors ")" | TERM
/// ```
pub struct Parser {
    dict: WordDictionary,
    fwd: ForwardIndex,
    inv: InvertedIndex,
}

impl Parser {
    /// The interned word forms, by identifier.
    pub closed spec fn dict_forms(self) -> Seq<Seq<char>> {
        self.dict@
    }

    /// The forward index queries are answered against.
    pub closed spec fn fwd_index(self) -> ForwardIndex {
        self.fwd
    }

    /// The number of indexed documents.
    pub open spec fn num_docs(self) -> nat {
        self.fwd_index().num_docs()
    }

    /// The universe: every indexed document.
    pub open spec fn universe(self) -> Set<int> {
        Set::new(|d: int| 0 <= d < self.num_docs())
    }

    /// The documents containing the word form `f`; empty if the form is
    /// not in the dictionary.
    pub open spec fn form_docs(self, f: Seq<char>) -> Set<int> {
        Set::new(
            |d: int|
                0 <= d < self.num_docs() && self.dict_forms().contains(f)
                    && self.fwd_index().has_word(d, self.dict_forms().index_of(f) as u32),
        )
    }

    /// The documents matching one term: those containing every form the
    /// term expanded to.  A term with no forms matches everything; an
    /// unknown form forces the whole term to the empty set.
    pub open spec fn term_docs(self, fs: Seq<Seq<char>>) -> Set<int>
        decreases fs.len(),
    {
        if fs.len() == 0 {
            self.universe()
        } else {
            self.term_docs(fs.drop_last()).intersect(self.form_docs(fs.last()))
        }
    }

    /// The dictionary, forward index and inverted index agree, and the
    /// inverted index is the exact transpose of the forward index.
    pub closed spec fn wf(self) -> bool {
        &&& self.dict.wf()
        &&& self.fwd.wf()
        &&& self.inv.wf()
        &&& self.inv.num_docs() == self.fwd.num_docs()
        &&& forall|w: u32, d: int| self.inv.postings_contain(w, d) <==> self.fwd.has_word(d, w)
    }

    /// `word = TERM`
    pub open spec fn spec_word(self, t: Seq<SpecToken>, p: int) -> Option<(Set<int>, int)> {
        if 0 <= p < t.len() {
            match t[p] {
                SpecToken::Term(fs) => Some((self.term_docs(fs), p + 1)),
                _ => None,
            }
        } else {
            None
        }
    }

    /// `parens = "(" ors ")" | word`
    pub open spec fn spec_parens(self, t: Seq<SpecToken>, p: int) -> Option<(Set<int>, int)>
        decreases t.len() - p, 1int,
    {
        if at_lpar(t, p) {
            match self.spec_ors(t, p + 1) {
                Some((s, p2)) => if at_rpar(t, p2) {
                    Some((s, p2 + 1))
                } else {
                    None
                },
                None => None,
            }
        } else {
            self.spec_word(t, p)
        }
    }

    /// `nots = "NOT" nots | parens`; negation is complement against the
    /// universe of all indexed documents.
    pub open spec fn spec_nots(self, t: Seq<SpecToken>, p: int) -> Option<(Set<int>, int)>
        decreases t.len() - p, 2int,
    {
        if at_not(t, p) {
            match self.spec_nots(t, p + 1) {
                Some((s, p2)) => Some((self.universe().difference(s), p2)),
                None => None,
            }
        } else {
            self.spec_parens(t, p)
        }
    }

    /// `ands = nots ( ( "AND" | ) nots )*`: after one operand, an "AND"
    /// token or any token that can begin another operand continues the
    /// conjunction; "OR", ")" and end of input close it.  A continuation
    /// that fails to parse closes the conjunction too, leaving the cursor
    /// for the caller.
    pub open spec fn spec_ands(self, t: Seq<SpecToken>, p: int) -> Option<(Set<int>, int)>
        decreases t.len() - p, 3int,
    {
        match self.spec_nots(t, p) {
            None => None,
            Some((s1, p1)) => {
                if at_and(t, p1) && p <= p1 {
                    match self.spec_ands(t, p1 + 1) {
                        Some((s2, p2)) => Some((s1.intersect(s2), p2)),
                        None => Some((s1, p1)),
                    }
                } else if p1 >= t.len() || at_or(t, p1) || at_rpar(t, p1) {
                    Some((s1, p1))
                } else if p < p1 <= t.len() {
                    match self.spec_ands(t, p1) {
                        Some((s2, p2)) => Some((s1.intersect(s2), p2)),
                        None => Some((s1, p1)),
                    }
                } else {
                    Some((s1, p1))
                }
            },
        }
    }

    /// `ors = ands ( "OR" ands )*`.
    pub open spec fn spec_ors(self, t: Seq<SpecToken>, p: int) -> Option<(Set<int>, int)>
        decreases t.len() - p, 4int,
    {
        match self.spec_ands(t, p) {
            None => None,
            Some((s1, p1)) => {
                if at_or(t, p1) && p <= p1 {
                    match self.spec_ors(t, p1 + 1) {
                        Some((s2, p2)) => Some((s1.union(s2), p2)),
                        None => Some((s1, p1)),
                    }
                } else {
                    Some((s1, p1))
                }
            },
        }
    }

    /// The whole query: a parse that fails, or leaves tokens unconsumed,
    /// is a syntax error, never an empty result.
    pub open spec fn spec_parse(self, t: Seq<SpecToken>) -> Option<Set<int>> {
        match self.spec_ors(t, 0) {
            Some((s, p)) => if p == t.len() {
                Some(s)
            } else {
                None
            },
            None => None,
        }
    }

    /// A term's documents all lie in the universe.
    pub proof fn lemma_term_docs_in_universe(self, fs: Seq<Seq<char>>)
        ensures
            self.term_docs(fs).subset_of(self.universe()),
        decreases fs.len(),
    {
        if fs.len() > 0 {
            self.lemma_term_docs_in_universe(fs.drop_last());
        }
    }

    /// A successful parse of `word` consumes exactly one token and yields
    /// a subset of the universe.
    pub proof fn lemma_word_props(self, t: Seq<SpecToken>, p: int)
        ensures
            match self.spec_word(t, p) {
                Some((s, p2)) => 0 <= p < t.len() && p2 == p + 1 && s.subset_of(self.universe()),
                None => true,
            },
    {
        if 0 <= p < t.len() {
            match t[p] {
                SpecToken::Term(fs) => {
                    self.lemma_term_docs_in_universe(fs);
                },
                _ => {},
            }
        }
    }

    /// A successful parse of `parens` advances the cursor and yields a
    /// subset of the universe.
    pub proof fn lemma_parens_props(self, t: Seq<SpecToken>, p: int)
        ensures
            match self.spec_parens(t, p) {
                Some((s, p2)) => p < p2 <= t.len() && s.subset_of(self.universe()),
                None => true,
            },
        decreases t.len() - p, 1int,
    {
        if at_lpar(t, p) {
            self.lemma_ors_props(t, p + 1);
        } else {
            self.lemma_word_props(t, p);
        }
    }

    /// A successful parse of `nots` advances the cursor and yields a
    /// subset of the universe.
    pub proof fn lemma_nots_props(self, t: Seq<SpecToken>, p: int)
        ensures
            match self.spec_nots(t, p) {
                Some((s, p2)) => p < p2 <= t.len() && s.subset_of(self.universe()),
                None => true,
            },
        decreases t.len() - p, 2int,
    {
        if at_not(t, p) {
            self.lemma_nots_props(t, p + 1);
        } else {
            self.lemma_parens_props(t, p);
        }
    }

    /// A successful parse of `ands` advances the cursor and yields a
    /// subset of the universe.
    pub proof fn lemma_ands_props(self, t: Seq<SpecToken>, p: int)
        ensures
            match self.spec_ands(t, p) {
                Some((s, p2)) => p < p2 <= t.len() && s.subset_of(self.universe()),
                None => true,
            },
        decreases t.len() - p, 3int,
    {
        self.lemma_nots_props(t, p);
        match self.spec_nots(t, p) {
            None => {},
            Some((s1, p1)) => {
                if at_and(t, p1) && p <= p1 {
                    self.lemma_ands_props(t, p1 + 1);
                } else if p1 >= t.len() || at_or(t, p1) || at_rpar(t, p1) {
                } else if p < p1 <= t.len() {
                    self.lemma_ands_props(t, p1);
                }
            },
        }
    }

    /// A successful parse of `ors` advances the cursor and yields a
    /// subset of the universe.
    pub proof fn lemma_ors_props(self, t: Seq<SpecToken>, p: int)
        ensures
            match self.spec_ors(t, p) {
                Some((s, p2)) => p < p2 <= t.len() && s.subset_of(self.universe()),
                None => true,
            },
        decreases t.len() - p, 4int,
    {
        self.lemma_ands_props(t, p);
        match self.spec_ands(t, p) {
            None => {},
            Some((s1, p1)) => {
                if at_or(t, p1) && p <= p1 {
                    self.lemma_ors_props(t, p1 + 1);
                }
            },
        }
    }

    /// How an executable evaluation result realizes a mathematical one:
    /// same outcome, same cursor, same document set.
    pub open spec fn result_matches(
        self,
        r: Option<(DocSet, usize)>,
        s: Option<(Set<int>, int)>,
    ) -> bool {
        match (r, s) {
            (None, None) => true,
            (Some((ds, p)), Some((ss, sp))) => ds.capacity() == self.num_docs() && p == sp
                && (forall|d: int| ds.contains(d) <==> ss.contains(d)),
            _ => false,
        }
    }

    /// Builds a query evaluator over a dictionary and a forward index,
    /// deriving the inverted index.
    pub fn new(dict: WordDictionary, fwd: ForwardIndex) -> (p: Parser)
        requires
            dict.wf(),
            fwd.wf(),
        ensures
            p.wf(),
            p.dict_forms() == dict@,
            p.fwd_index() == fwd,
    {
        let inv = InvertedIndex::build(&fwd);
        Parser { dict, fwd, inv }
    }

    /// The posting set of one word form: the documents containing it, or
    /// the empty set for a form the dictionary does not know.
    fn form_posting(&self, form: &String) -> (ds: DocSet)
        requires
            self.wf(),
        ensures
            ds.capacity() == self.num_docs(),
            forall|d: int| ds.contains(d) <==> self.form_docs(form@).contains(d),
    {
        let looked = self.dict.lookup(form);
        match looked {
            Some(id) => {
                let ds = self.inv.posting(id);
                proof {
                    crate::words::lemma_distinct_index_of(self.dict@, form@, id as int);
                }
                ds
            },
            None => {
                let ds = DocSet::empty(self.fwd.len());
                ds
            },
        }
    }

    /// The documents matching a term, the intersection of its forms'
    /// postings starting from the whole universe.
    fn term_posting(&self, forms: &Vec<String>) -> (ds: DocSet)
        requires
            self.wf(),
        ensures
            ds.capacity() == self.num_docs(),
            forall|d: int| ds.contains(d) <==> self.term_docs(forms.deep_view()).contains(d),
    {
        let ghost fs = forms.deep_view();
        let mut ds = DocSet::full(self.fwd.len());
        proof {
            assert(fs.take(0) =~= Seq::<Seq<char>>::empty());
        }
        let n = forms.len();
        let mut i: usize = 0;
        while i < n
            invariant
                i <= n,
                n == fs.len(),
                fs == forms.deep_view(),
                self.wf(),
                ds.capacity() == self.num_docs(),
                forall|d: int| ds.contains(d) <==> self.term_docs(fs.take(i as int)).contains(d),
            decreases n - i,
        {
            let fd = self.form_posting(&forms[i]);
            proof {
                assert(forms.deep_view()[i as int] == forms@[i as int]@);
                assert(fs.take(i as int + 1).drop_last() =~= fs.take(i as int));
                assert(fs.take(i as int + 1).last() == fs[i as int]);
            }
            ds = ds.intersect(&fd);
            i += 1;
        }
        proof {
            assert(fs.take(n as int) =~= fs);
        }
        ds
    }

    /// `word = TERM`
    fn eval_word(&self, t: &Vec<QueryToken>, p: usize) -> (r: Option<(DocSet, usize)>)
        requires
            self.wf(),
            p <= t.deep_view().len(),
        ensures
            self.result_matches(r, self.spec_word(t.deep_view(), p as int)),
    {
        if p < t.len() {
            proof {
                assert(t.deep_view()[p as int] == t@[p as int]@);
            }
            match &t[p] {
                QueryToken::Term(fs) => {
                    let ds = self.term_posting(fs);
                    Some((ds, p + 1))
                },
                _ => None,
            }
        } else {
            None
        }
    }

    /// `parens = "(" ors ")" | word`
    fn eval_parens(&self, t: &Vec<QueryToken>, p: usize) -> (r: Option<(DocSet, usize)>)
        requires
            self.wf(),
            p <= t.deep_view().len(),
        ensures
            self.result_matches(r, self.spec_parens(t.deep_view(), p as int)),
        decreases t.deep_view().len() - p, 1int,
    {
        let ghost n = t@.len();
        let _len = t.len();
        proof {
            assert(t.deep_view().len() == n);
        }
        let is_lpar = tok_is_lpar(t, p);
        if is_lpar {
            let r1 = self.eval_ors(t, p + 1);
            match r1 {
                Some((s, p2)) => {
                    proof {
                        self.lemma_ors_props(t.deep_view(), p as int + 1);
                    }
                    if tok_is_rpar(t, p2) {
                        Some((s, p2 + 1))
                    } else {
                        None
                    }
                },
                None => None,
            }
        } else {
            self.eval_word(t, p)
        }
    }

    /// `nots = "NOT" nots | parens`
    fn eval_nots(&self, t: &Vec<QueryToken>, p: usize) -> (r: Option<(DocSet, usize)>)
        requires
            self.wf(),
            p <= t.deep_view().len(),
        ensures
            self.result_matches(r, self.spec_nots(t.deep_view(), p as int)),
        decreases t.deep_view().len() - p, 2int,
    {
        let ghost n = t@.len();
        let _len = t.len();
        proof {
            assert(t.deep_view().len() == n);
        }
        let is_not = tok_is_not(t, p);
        if is_not {
            let r1 = self.eval_nots(t, p + 1);
            match r1 {
                Some((s, p2)) => Some((s.complement(), p2)),
                None => None,
            }
        } else {
            self.eval_parens(t, p)
        }
    }

    /// `ands = nots ( ( "AND" | ) nots )*`
    fn eval_ands(&self, t: &Vec<QueryToken>, p: usize) -> (r: Option<(DocSet, usize)>)
        requires
            self.wf(),
            p <= t.deep_view().len(),
        ensures
            self.result_matches(r, self.spec_ands(t.deep_view(), p as int)),
        decreases t.deep_view().len() - p, 3int,
    {
        let ghost n = t@.len();
        let len = t.len();
        proof {
            assert(t.deep_view().len() == n);
        }
        let r1 = self.eval_nots(t, p);
        match r1 {
            None => None,
            Some((s1, p1)) => {
                proof {
                    self.lemma_nots_props(t.deep_view(), p as int);
                }
                if tok_is_and(t, p1) {
                    let r2 = self.eval_ands(t, p1 + 1);
                    match r2 {
                        Some((s2, p2)) => Some((s1.intersect(&s2), p2)),
                        None => Some((s1, p1)),
                    }
                } else if p1 >= len || tok_is_or(t, p1) || tok_is_rpar(t, p1) {
                    Some((s1, p1))
                } else {
                    let r2 = self.eval_ands(t, p1);
                    match r2 {
                        Some((s2, p2)) => Some((s1.intersect(&s2), p2)),
                        None => Some((s1, p1)),
                    }
                }
            },
        }
    }

    /// `ors = ands ( "OR" ands )*`
    fn eval_ors(&self, t: &Vec<QueryToken>, p: usize) -> (r: Option<(DocSet, usize)>)
        requires
            self.wf(),
            p <= t.deep_view().len(),
        ensures
            self.result_matches(r, self.spec_ors(t.deep_view(), p as int)),
        decreases t.deep_view().len() - p, 4int,
    {
        let ghost n = t@.len();
        let _len = t.len();
        proof {
            assert(t.deep_view().len() == n);
        }
        let r1 = self.eval_ands(t, p);
        match r1 {
            None => None,
            Some((s1, p1)) => {
                proof {
                    self.lemma_ands_props(t.deep_view(), p as int);
                }
                if tok_is_or(t, p1) {
                    let r2 = self.eval_ors(t, p1 + 1);
                    match r2 {
                        Some((s2, p2)) => Some((s1.union(&s2), p2)),
                        None => Some((s1, p1)),
                    }
                } else {
                    Some((s1, p1))
                }
            },
        }
    }

    /// The documents of `s`, as paths in index order.
    pub open spec fn spec_paths_upto(self, s: Set<int>, n: int) -> Seq<Seq<char>>
        decreases n,
    {
        if n <= 0 {
            Seq::empty()
        } else if s.contains(n - 1) {
            self.spec_paths_upto(s, n - 1).push(self.fwd_index().path_at(n - 1))
        } else {
            self.spec_paths_upto(s, n - 1)
        }
    }

    /// The result of a query for the matched set `s`: the matching
    /// documents' paths, in index order.
    pub open spec fn spec_result_paths(self, s: Set<int>) -> Seq<Seq<char>> {
        self.spec_paths_upto(s, self.num_docs() as int)
    }

    /// The paths of the documents in `ds`, in index order.
    fn paths_of(&self, ds: &DocSet) -> (paths: Vec<String>)
        requires
            self.wf(),
            ds.capacity() == self.num_docs(),
        ensures
            paths.deep_view() == self.spec_result_paths(ds.to_set()),
    {
        let n = self.fwd.len();
        let mut paths: Vec<String> = Vec::new();
        let mut d: usize = 0;
        while d < n
            invariant
                d <= n,
                n == self.num_docs(),
                self.wf(),
                ds.capacity() == self.num_docs(),
                paths.deep_view() == self.spec_paths_upto(ds.to_set(), d as int),
            decreases n - d,
        {
            let ghost prev = paths.deep_view();
            if ds.get(d) {
                let p = self.fwd.path(d);
                paths.push(p.clone());
                proof {
                    assert(ds.to_set().contains(d as int));
                    assert(paths.deep_view() =~= prev.push(self.fwd_index().path_at(d as int)));
                }
            } else {
                proof {
                    assert(!ds.to_set().contains(d as int));
                }
            }
            d += 1;
        }
        paths
    }

    /// Evaluates a token sequence against the index.  Returns the paths
    /// of the matching documents in index order; a query that the grammar
    /// cannot parse, or that leaves tokens unconsumed, is a syntax error,
    /// reported as such and never as an empty result.
    pub fn parse(&self, t: &Vec<QueryToken>) -> (r: Result<Vec<String>, QueryError>)
        requires
            self.wf(),
        ensures
            match r {
                Ok(paths) => match self.spec_parse(t.deep_view()) {
                    Some(s) => paths.deep_view() == self.spec_result_paths(s),
                    None => false,
                },
                Err(e) => e is Syntax && self.spec_parse(t.deep_view()) is None,
            },
    {
        let r1 = self.eval_ors(t, 0);
        match r1 {
            Some((ds, p)) => {
                if p == t.len() {
                    let paths = self.paths_of(&ds);
                    proof {
                        match self.spec_ors(t.deep_view(), 0) {
                            Some((s, _)) => {
                                assert(ds.to_set() =~= s);
                            },
                            None => {},
                        }
                    }
                    Ok(paths)
                } else {
                    Err(QueryError::Syntax)
                }
            },
            None => Err(QueryError::Syntax),
        }
    }

    /// Evaluates a whole query string whose terms stand for themselves:
    /// the string is split on ASCII whitespace, each word is classified
    /// as an operator or a term, and the tokens are evaluated.  Exactly
    /// the queries the grammar cannot parse are syntax errors.
    pub fn parse_plain(&self, q: &str) -> (r: Result<Vec<String>, QueryError>)
        requires
            self.wf(),
        ensures
            match r {
                Ok(paths) => match self.spec_parse(spec_plain_tokens(spec_split(q@))) {
                    Some(s) => paths.deep_view() == self.spec_result_paths(s),
                    None => false,
                },
                Err(e) => e is Syntax && self.spec_parse(spec_plain_tokens(spec_split(q@))) is None,
            },
    {
        let words = split_query(q);
        let ghost wsv = words.deep_view();
        let n = words.len();
        let mut toks: Vec<QueryToken> = Vec::new();
        proof {
            assert(toks.deep_view() =~= spec_plain_tokens(wsv.take(0)));
        }
        let mut i: usize = 0;
        while i < n
            invariant
                i <= n,
                n == wsv.len(),
                wsv == words.deep_view(),
                toks.deep_view() == spec_plain_tokens(wsv.take(i as int)),
            decreases n - i,
        {
            let ghost prev = toks.deep_view();
            proof {
                assert(words.deep_view()[i as int] == words@[i as int]@);
            }
            let classified = classify_word(&words[i]);
            match classified {
                Some(tok) => {
                    proof {
                        assert(tok@ == spec_classify(wsv[i as int]));
                    }
                    toks.push(tok);
                },
                None => {
                    let mut fs: Vec<String> = Vec::new();
                    fs.push(words[i].clone());
                    proof {
                        assert(fs.deep_view() =~= seq![wsv[i as int]]);
                        assert(spec_classify(wsv[i as int]) == SpecToken::Term(
                            seq![wsv[i as int]],
                        ));
                    }
                    toks.push(QueryToken::Term(fs));
                },
            }
            proof {
                assert(toks.deep_view() =~= prev.push(spec_classify(wsv[i as int])));
                assert(spec_plain_tokens(wsv.take(i as int + 1)) =~= spec_plain_tokens(
                    wsv.take(i as int),
                ).push(spec_classify(wsv[i as int])));
            }
            i += 1;
        }
        proof {
            assert(wsv.take(n as int) =~= wsv);
        }
        self.parse(&toks)
    }
}

/// The mathematical classification of one query word: the operator it
/// denotes, or a term standing for the word itself.
pub open spec fn spec_classify(w: Seq<char>) -> SpecToken {
    if w == "AND"@ {
        SpecToken::And
    } else if w == "OR"@ {
        SpecToken::Or
    } else if w == "NOT"@ {
        SpecToken::Not
    } else if w == "("@ {
        SpecToken::LParen
    } else if w == ")"@ {
        SpecToken::RParen
    } else {
        SpecToken::Term(seq![w])
    }
}

/// The token sequence of a query whose terms stand for themselves: each
/// word classified, with no term expansion.
pub open spec fn spec_plain_tokens(ws: Seq<Seq<char>>) -> Seq<SpecToken> {
    ws.map_values(|w: Seq<char>| spec_classify(w))
}

/// Classifies one query word: the operator token it denotes, or `None`
/// for an ordinary term word.
pub fn classify_word(w: &String) -> (r: Option<QueryToken>)
    ensures
        match r {
            Some(tok) => tok@ == spec_classify(w@),
            None => spec_classify(w@) is Term,
        },
{
    if *w == String::from_str("AND") {
        Some(QueryToken::And)
    } else if *w == String::from_str("OR") {
        Some(QueryToken::Or)
    } else if *w == String::from_str("NOT") {
        Some(QueryToken::Not)
    } else if *w == String::from_str("(") {
        Some(QueryToken::LParen)
    } else if *w == String::from_str(")") {
        Some(QueryToken::RParen)
    } else {
        None
    }
}

/// Whether the token at `p` is the "AND" operator.
fn tok_is_and(t: &Vec<QueryToken>, p: usize) -> (b: bool)
    ensures
        b == at_and(t.deep_view(), p as int),
{
    if p < t.len() {
        proof {
            assert(t.deep_view()[p as int] == t@[p as int]@);
        }
        match &t[p] {
            QueryToken::And => true,
            _ => false,
        }
    } else {
        false
    }
}

/// Whether the token at `p` is the "OR" operator.
fn tok_is_or(t: &Vec<QueryToken>, p: usize) -> (b: bool)
    ensures
        b == at_or(t.deep_view(), p as int),
{
    if p < t.len() {
        proof {
            assert(t.deep_view()[p as int] == t@[p as int]@);
        }
        match &t[p] {
            QueryToken::Or => true,
            _ => false,
        }
    } else {
        false
    }
}

/// Whether the token at `p` is the "NOT" operator.
fn tok_is_not(t: &Vec<QueryToken>, p: usize) -> (b: bool)
    ensures
        b == at_not(t.deep_view(), p as int),
{
    if p < t.len() {
        proof {
            assert(t.deep_view()[p as int] == t@[p as int]@);
        }
        match &t[p] {
            QueryToken::Not => true,
            _ => false,
        }
    } else {
        false
    }
}

/// Whether the token at `p` is an opening parenthesis.
fn tok_is_lpar(t: &Vec<QueryToken>, p: usize) -> (b: bool)
    ensures
        b == at_lpar(t.deep_view(), p as int),
{
    if p < t.len() {
        proof {
            assert(t.deep_view()[p as int] == t@[p as int]@);
        }
        match &t[p] {
            QueryToken::LParen => true,
            _ => false,
        }
    } else {
        false
    }
}

/// Whether the token at `p` is a closing parenthesis.
fn tok_is_rpar(t: &Vec<QueryToken>, p: usize) -> (b: bool)
    ensures
        b == at_rpar(t.deep_view(), p as int),
{
    if p < t.len() {
        proof {
            assert(t.deep_view()[p as int] == t@[p as int]@);
        }
        match &t[p] {
            QueryToken::RParen => true,
            _ => false,
        }
    } else {
        false
    }
}

} // verus!
