use vstd::prelude::*;

verus! {

/// A dictionary interning word forms to dense, zero-based identifiers.
///
/// The form with identifier `i` is stored at position `i`, so identifiers
/// are contiguous (`0 .. len`) at all times, as the positional on-disk
/// format requires, and a form's identifier never changes while it stays
/// in the dictionary: growth only appends.
pub struct WordDictionary {
    forms: Vec<String>,
}

impl View for WordDictionary {
    type V = Seq<Seq<char>>;

    closed spec fn view(&self) -> Seq<Seq<char>> {
        self.forms.deep_view()
    }
}

/// Forms are pairwise distinct, so form and identifier determine each other.
pub open spec fn forms_distinct(forms: Seq<Seq<char>>) -> bool {
    forall|i: int, j: int| 0 <= i < j < forms.len() ==> forms[i] != forms[j]
}

/// Interning one form: a known form leaves the dictionary unchanged, an
/// unknown one is appended and takes the next identifier.
pub open spec fn spec_intern(forms: Seq<Seq<char>>, f: Seq<char>) -> Seq<Seq<char>> {
    if forms.contains(f) {
        forms
    } else {
        forms.push(f)
    }
}

/// Interning a sequence of forms, first to last.
pub open spec fn spec_intern_all(forms: Seq<Seq<char>>, fs: Seq<Seq<char>>) -> Seq<Seq<char>>
    decreases fs.len(),
{
    if fs.len() == 0 {
        forms
    } else {
        spec_intern_all(spec_intern(forms, fs[0]), fs.drop_first())
    }
}

impl WordDictionary {
    /// All forms are distinct and every position fits in a `u32` identifier.
    pub open spec fn wf(self) -> bool {
        &&& forms_distinct(self@)
        &&& self@.len() <= u32::MAX
    }

    /// The identifier of form `f`: its position in the dictionary.
    pub open spec fn id_of(self, f: Seq<char>) -> int {
        self@.index_of(f)
    }

    /// An empty dictionary.
    pub fn new() -> (d: WordDictionary)
        ensures
            d.wf(),
            d@ == Seq::<Seq<char>>::empty(),
    {
        WordDictionary { forms: Vec::new() }
    }

    /// The number of interned forms, which is also the next free identifier.
    pub fn len(&self) -> (n: usize)
        ensures
            n == self@.len(),
    {
        self.forms.len()
    }

    /// The form with identifier `id`.
    pub fn get(&self, id: usize) -> (f: &String)
        requires
            id < self@.len(),
        ensures
            f@ == self@[id as int],
    {
        &self.forms[id]
    }

    /// Looks a form up without changing anything: its identifier if the
    /// form is known, `None` otherwise (never an error).
    pub fn lookup(&self, form: &String) -> (r: Option<u32>)
        requires
            self.wf(),
        ensures
            match r {
                Some(id) => (id as int) < self@.len() && self@.contains(form@)
                    && self@[id as int] == form@,
                None => !self@.contains(form@),
            },
    {
        let n = self.forms.len();
        let mut i: usize = 0;
        while i < n
            invariant
                i <= n,
                n == self@.len(),
                self.wf(),
                forall|j: int| 0 <= j < i ==> self@[j] != form@,
            decreases n - i,
        {
            proof {
                assert(self@[i as int] == self.forms@[i as int]@);
            }
            if self.forms[i] == *form {
                return Some(i as u32);
            }
            i += 1;
        }
        None
    }

    /// Interns a form: returns the existing identifier if the form is
    /// known, otherwise appends it under the next free identifier.  This is
    /// the dictionary's only mutator.
    pub fn intern(&mut self, form: &String) -> (id: u32)
        requires
            old(self).wf(),
            old(self)@.len() < u32::MAX,
        ensures
            final(self).wf(),
            final(self)@ == spec_intern(old(self)@, form@),
            final(self)@.contains(form@),
            id == final(self).id_of(form@),
            final(self)@[id as int] == form@,
    {
        let existing = self.lookup(form);
        match existing {
            Some(id) => {
                proof {
                    lemma_distinct_index_of(self@, form@, id as int);
                }
                id
            },
            None => {
                let id = self.forms.len();
                self.forms.push(form.clone());
                proof {
                    assert(self@ =~= old(self)@.push(form@));
                    assert(self@[id as int] == form@);
                    lemma_distinct_push(old(self)@, form@);
                    lemma_distinct_index_of(self@, form@, id as int);
                }
                id as u32
            },
        }
    }
}

/// Appending a fresh form keeps the forms distinct.
proof fn lemma_distinct_push(forms: Seq<Seq<char>>, f: Seq<char>)
    requires
        forms_distinct(forms),
        !forms.contains(f),
    ensures
        forms_distinct(forms.push(f)),
{
    let p = forms.push(f);
    assert forall|i: int, j: int| 0 <= i < j < p.len() implies p[i] != p[j] by {
        if j == forms.len() {
            assert(forms[i] == p[i]);
            assert(!forms.contains(f));
            assert(forms[i] != f);
        }
    }
}

/// Interning never removes or moves a form: the old dictionary is a
/// prefix of the new one, and at most one entry is added per form.
pub proof fn lemma_intern_all_grows(forms: Seq<Seq<char>>, fs: Seq<Seq<char>>)
    ensures
        forms.len() <= spec_intern_all(forms, fs).len() <= forms.len() + fs.len(),
        forall|i: int| 0 <= i < forms.len() ==> spec_intern_all(forms, fs)[i] == forms[i],
    decreases fs.len(),
{
    if fs.len() > 0 {
        let next = spec_intern(forms, fs[0]);
        lemma_intern_all_grows(next, fs.drop_first());
        assert(spec_intern_all(forms, fs) == spec_intern_all(next, fs.drop_first()));
        assert forall|i: int| 0 <= i < forms.len() implies spec_intern_all(forms, fs)[i]
            == forms[i] by {
            assert(next[i] == forms[i]);
            assert(spec_intern_all(next, fs.drop_first())[i] == next[i]);
        }
    }
}

/// Interning keeps the forms distinct.
pub proof fn lemma_intern_all_distinct(forms: Seq<Seq<char>>, fs: Seq<Seq<char>>)
    requires
        forms_distinct(forms),
    ensures
        forms_distinct(spec_intern_all(forms, fs)),
    decreases fs.len(),
{
    if fs.len() > 0 {
        let next = spec_intern(forms, fs[0]);
        assert forall|i: int, j: int| 0 <= i < j < next.len() implies next[i] != next[j] by {
            if !forms.contains(fs[0]) && j == forms.len() {
                assert(next[i] == forms[i]);
            }
        }
        lemma_intern_all_distinct(next, fs.drop_first());
    }
}

/// The interned dictionary holds exactly the old forms and the new ones.
pub proof fn lemma_intern_all_contains(forms: Seq<Seq<char>>, fs: Seq<Seq<char>>, f: Seq<char>)
    ensures
        spec_intern_all(forms, fs).contains(f) <==> (forms.contains(f) || fs.contains(f)),
    decreases fs.len(),
{
    if fs.len() == 0 {
        assert(!fs.contains(f));
    } else {
        let next = spec_intern(forms, fs[0]);
        lemma_intern_all_contains(next, fs.drop_first(), f);
        assert(next.contains(f) <==> (forms.contains(f) || f == fs[0])) by {
            if forms.contains(f) {
                let i = choose|i: int| 0 <= i < forms.len() && forms[i] == f;
                assert(next[i] == f);
            }
            if f == fs[0] && !forms.contains(f) {
                assert(next[forms.len() as int] == f);
            }
            if next.contains(f) && !forms.contains(f) && f != fs[0] {
                let i = choose|i: int| 0 <= i < next.len() && next[i] == f;
                assert(!forms.contains(fs[0]));
                assert(i < forms.len() || next[i] == fs[0]);
            }
        }
        assert(fs.contains(f) <==> (f == fs[0] || fs.drop_first().contains(f))) by {
            if fs.contains(f) {
                let i = choose|i: int| 0 <= i < fs.len() && fs[i] == f;
                if i > 0 {
                    assert(fs.drop_first()[i - 1] == f);
                }
            }
            if fs.drop_first().contains(f) {
                let i = choose|i: int| 0 <= i < fs.drop_first().len() && fs.drop_first()[i] == f;
                assert(fs[i + 1] == f);
            }
        }
    }
}

/// In a distinct sequence, any position holding `f` is `index_of(f)`.
pub proof fn lemma_distinct_index_of(forms: Seq<Seq<char>>, f: Seq<char>, i: int)
    requires
        forms_distinct(forms),
        0 <= i < forms.len(),
        forms[i] == f,
    ensures
        forms.index_of(f) == i,
{
    assert(forms.contains(f));
    let j = forms.index_of(f);
    assert(forms[j] == f);
}

} // verus!
