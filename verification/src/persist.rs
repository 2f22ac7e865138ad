use vstd::prelude::*;

use crate::index::ForwardIndex;
use crate::text::{spec_is_space, spec_split, split_query};
use crate::words::{forms_distinct, WordDictionary};
use vstd::string::StringExecFns;

verus! {

/// Why reading a persisted table fails.  All of these are fatal to the
/// operation in progress; none is retried.
#[derive(Clone, Copy, Debug, PartialEq, Eq, Structural)]
pub enum PersistError {
    /// A word-table line repeats an earlier form.
    DuplicateForm,
    /// The word table holds more forms than there are identifiers.
    TooManyForms,
    /// A forward-index line has no document field.
    EmptyLine,
    /// A field that should be a word identifier is not a number in range.
    BadNumber,
}

/// The decimal digit character for `d`.
pub open spec fn digit_char(d: int) -> char {
    if d == 0 {
        '0'
    } else if d == 1 {
        '1'
    } else if d == 2 {
        '2'
    } else if d == 3 {
        '3'
    } else if d == 4 {
        '4'
    } else if d == 5 {
        '5'
    } else if d == 6 {
        '6'
    } else if d == 7 {
        '7'
    } else if d == 8 {
        '8'
    } else {
        '9'
    }
}

/// The decimal digits of `n`, most significant first.
pub open spec fn spec_digits(n: int) -> Seq<char>
    decreases n,
{
    if n < 10 {
        seq![digit_char(n)]
    } else {
        spec_digits(n / 10).push(digit_char(n % 10))
    }
}

/// A decimal digit character.
pub open spec fn spec_is_digit(c: char) -> bool {
    ('0' as int) <= (c as int) && (c as int) <= ('9' as int)
}

/// The value of a digit character.
pub open spec fn spec_digit_val(c: char) -> int {
    (c as int) - ('0' as int)
}

/// The value of a digit string, most significant digit first.
pub open spec fn spec_num_of(s: Seq<char>) -> int
    decreases s.len(),
{
    if s.len() == 0 {
        0
    } else {
        spec_num_of(s.drop_last()) * 10 + spec_digit_val(s.last())
    }
}

/// A non-empty string of decimal digits.
pub open spec fn spec_is_number(s: Seq<char>) -> bool {
    s.len() > 0 && forall|k: int| 0 <= k < s.len() ==> spec_is_digit(s[k])
}

/// The decimal digits of `n` form a number that reads back as `n`, and
/// no digit is whitespace.
pub proof fn lemma_digits_props(n: int)
    requires
        0 <= n,
    ensures
        spec_is_number(spec_digits(n)),
        spec_num_of(spec_digits(n)) == n,
        forall|k: int|
            0 <= k < spec_digits(n).len() ==> !crate::text::spec_is_space(#[trigger] spec_digits(
                n,
            )[k]),
    decreases n,
{
    if n < 10 {
        let s = spec_digits(n);
        assert(s == seq![digit_char(n)]);
        assert(s.len() == 1 && s[0] == digit_char(n));
        assert(spec_is_digit(digit_char(n)));
        assert(!crate::text::spec_is_space(digit_char(n)));
        assert(s.drop_last() =~= Seq::<char>::empty());
        assert(s.last() == digit_char(n));
        assert(spec_num_of(Seq::<char>::empty()) == 0);
        assert(spec_num_of(s) == spec_num_of(s.drop_last()) * 10 + spec_digit_val(s.last()));
        assert(spec_digit_val(digit_char(n)) == n);
    } else {
        lemma_digits_props(n / 10);
        let b = spec_digits(n / 10);
        let s = spec_digits(n);
        assert(s == b.push(digit_char(n % 10)));
        assert(s.drop_last() =~= b);
        assert(s.last() == digit_char(n % 10));
        assert(spec_digit_val(digit_char(n % 10)) == n % 10);
        assert(spec_num_of(s) == spec_num_of(b) * 10 + n % 10);
        assert((n / 10) * 10 + n % 10 == n);
        assert(spec_is_digit(digit_char(n % 10)));
        assert(!crate::text::spec_is_space(digit_char(n % 10)));
        assert forall|k: int| 0 <= k < s.len() implies spec_is_digit(s[k]) by {
            if k < b.len() {
                assert(s[k] == b[k]);
            }
        }
        assert forall|k: int|
            0 <= k < s.len() implies !crate::text::spec_is_space(#[trigger] s[k]) by {
            if k < b.len() {
                assert(s[k] == b[k]);
            }
        }
    }
}

/// A digit string's value never goes negative.
pub proof fn lemma_num_of_nonneg(s: Seq<char>)
    requires
        forall|k: int| 0 <= k < s.len() ==> spec_is_digit(s[k]),
    ensures
        spec_num_of(s) >= 0,
    decreases s.len(),
{
    if s.len() > 0 {
        assert forall|k: int| 0 <= k < s.drop_last().len() implies spec_is_digit(
            s.drop_last()[k],
        ) by {
            assert(s.drop_last()[k] == s[k]);
        }
        lemma_num_of_nonneg(s.drop_last());
        assert(spec_is_digit(s.last()));
    }
}

/// A digit string's value bounds the value of each of its prefixes.
proof fn lemma_num_of_prefix_le(s: Seq<char>, m: int)
    requires
        forall|k: int| 0 <= k < s.len() ==> spec_is_digit(s[k]),
        0 <= m <= s.len(),
    ensures
        spec_num_of(s.take(m)) <= spec_num_of(s),
    decreases s.len() - m,
{
    if m < s.len() {
        lemma_num_of_prefix_le(s, m + 1);
        assert(s.take(m + 1).drop_last() =~= s.take(m));
        assert(s.take(m + 1).last() == s[m]);
        assert forall|k: int| 0 <= k < s.take(m).len() implies spec_is_digit(s.take(m)[k]) by {
            assert(s.take(m)[k] == s[k]);
        }
        lemma_num_of_nonneg(s.take(m));
        assert(spec_is_digit(s[m]));
        assert(spec_num_of(s.take(m + 1)) == spec_num_of(s.take(m)) * 10 + spec_digit_val(s[m]));
    } else {
        assert(s.take(m) =~= s);
    }
}

/// The decimal digit character of `d`.
fn digit_str(d: u32) -> (r: &'static str)
    requires
        d < 10,
    ensures
        r@ == seq![digit_char(d as int)],
{
    proof {
        reveal_strlit("0");
        reveal_strlit("1");
        reveal_strlit("2");
        reveal_strlit("3");
        reveal_strlit("4");
        reveal_strlit("5");
        reveal_strlit("6");
        reveal_strlit("7");
        reveal_strlit("8");
        reveal_strlit("9");
    }
    if d == 0 {
        "0"
    } else if d == 1 {
        "1"
    } else if d == 2 {
        "2"
    } else if d == 3 {
        "3"
    } else if d == 4 {
        "4"
    } else if d == 5 {
        "5"
    } else if d == 6 {
        "6"
    } else if d == 7 {
        "7"
    } else if d == 8 {
        "8"
    } else {
        "9"
    }
}

/// Writes `n` in decimal.
pub fn u32_to_string(n: u32) -> (s: String)
    ensures
        s@ == spec_digits(n as int),
    decreases n,
{
    if n < 10 {
        String::from_str(digit_str(n))
    } else {
        let mut s = u32_to_string(n / 10);
        s.append(digit_str(n % 10));
        proof {
            assert((n / 10) as int == (n as int) / 10);
            assert((n % 10) as int == (n as int) % 10);
            assert(s@ =~= spec_digits((n as int) / 10).push(digit_char((n as int) % 10)));
        }
        s
    }
}

/// Reads a decimal number: the value of `s` if `s` is entirely digits
/// and the value fits a word identifier, `None` otherwise.
pub fn parse_u32(s: &str) -> (r: Option<u32>)
    ensures
        match r {
            Some(v) => spec_is_number(s@) && spec_num_of(s@) <= u32::MAX && v as int == spec_num_of(
                s@,
            ),
            None => !(spec_is_number(s@) && spec_num_of(s@) <= u32::MAX),
        },
{
    let n = s.unicode_len();
    if n == 0 {
        return None;
    }
    let mut acc: u32 = 0;
    let mut i: usize = 0;
    while i < n
        invariant
            i <= n,
            n == s@.len(),
            n > 0,
            forall|k: int| 0 <= k < i ==> spec_is_digit(s@[k]),
            acc as int == spec_num_of(s@.take(i as int)),
        decreases n - i,
    {
        let c = s.get_char(i);
        let x = c as u32;
        if x < 48 || x > 57 {
            proof {
                assert(!spec_is_digit(s@[i as int]));
            }
            return None;
        }
        let d = x - 48;
        let wide: u64 = acc as u64 * 10 + d as u64;
        proof {
            assert(s@.take(i as int + 1).drop_last() =~= s@.take(i as int));
            assert(s@.take(i as int + 1).last() == s@[i as int]);
            assert(spec_digit_val(s@[i as int]) == d as int);
            assert(spec_num_of(s@.take(i as int + 1)) == wide as int);
        }
        if wide > u32::MAX as u64 {
            proof {
                if spec_is_number(s@) {
                    lemma_num_of_prefix_le(s@, i as int + 1);
                }
            }
            return None;
        }
        acc = wide as u32;
        i += 1;
    }
    proof {
        assert(s@.take(n as int) =~= s@);
    }
    Some(acc)
}

/// Where the line starting at `i` ends: the next line feed, or the end
/// of the text.
pub open spec fn line_end(s: Seq<char>, i: int) -> int
    decreases s.len() - i,
{
    if i < 0 || i >= s.len() || s[i] == '\n' {
        i
    } else {
        line_end(s, i + 1)
    }
}

/// The line starting at `i` runs to the first line feed and no further.
pub proof fn lemma_line_end(s: Seq<char>, i: int)
    requires
        0 <= i <= s.len(),
    ensures
        i <= line_end(s, i) <= s.len(),
        forall|k: int| i <= k < line_end(s, i) ==> s[k] != '\n',
        line_end(s, i) < s.len() ==> s[line_end(s, i)] == '\n',
    decreases s.len() - i,
{
    if i < s.len() && s[i] != '\n' {
        lemma_line_end(s, i + 1);
    }
}

/// A run without line feeds ending at a line feed or at the end of the
/// text is exactly one line.
proof fn lemma_line_end_at(s: Seq<char>, i: int, j: int)
    requires
        0 <= i <= j <= s.len(),
        forall|k: int| i <= k < j ==> s[k] != '\n',
        j == s.len() || s[j] == '\n',
    ensures
        line_end(s, i) == j,
    decreases j - i,
{
    if i < j {
        assert(s[i] != '\n');
        lemma_line_end_at(s, i + 1, j);
        assert(line_end(s, i) == line_end(s, i + 1));
    }
}

/// A line with a trailing carriage return removed, as the reader strips
/// it.
pub open spec fn strip_cr(l: Seq<char>) -> Seq<char> {
    if l.len() > 0 && l.last() == '\r' {
        l.drop_last()
    } else {
        l
    }
}

/// The lines of the text from position `i` on, separated by line feeds:
/// a line feed closes a line, text after the last line feed is a final
/// line, and each line loses one trailing carriage return.
pub open spec fn lines_from(s: Seq<char>, i: int) -> Seq<Seq<char>>
    decreases s.len() - i,
    via lines_from_dec
{
    if i < 0 || i >= s.len() {
        Seq::empty()
    } else {
        let e = line_end(s, i);
        let first = strip_cr(s.subrange(i, e));
        if e >= s.len() {
            seq![first]
        } else {
            seq![first] + lines_from(s, e + 1)
        }
    }
}

#[via_fn]
proof fn lines_from_dec(s: Seq<char>, i: int) {
    if 0 <= i < s.len() {
        lemma_line_end(s, i);
    }
}

/// Finding a line's end is unaffected by an earlier prefix.
proof fn lemma_line_end_shift(s1: Seq<char>, s2: Seq<char>, j: int)
    requires
        0 <= j <= s2.len(),
    ensures
        line_end(s1 + s2, s1.len() + j) == s1.len() + line_end(s2, j),
    decreases s2.len() - j,
{
    let s = s1 + s2;
    let pl = s1.len() as int;
    if j < s2.len() {
        assert(s[pl + j] == s2[j]);
        if s2[j] != '\n' {
            lemma_line_end_shift(s1, s2, j + 1);
        }
    }
}

/// Splitting into lines is unaffected by an earlier prefix.
pub proof fn lemma_lines_shift(s1: Seq<char>, s2: Seq<char>, j: int)
    requires
        0 <= j <= s2.len(),
    ensures
        lines_from(s1 + s2, s1.len() + j) == lines_from(s2, j),
    decreases s2.len() - j,
{
    let s = s1 + s2;
    let pl = s1.len() as int;
    if j >= s2.len() {
    } else {
        lemma_line_end_shift(s1, s2, j);
        lemma_line_end(s2, j);
        let e = line_end(s2, j);
        assert(s.subrange(pl + j, pl + e) =~= s2.subrange(j, e));
        if e >= s2.len() {
            assert(pl + e >= s.len());
        } else {
            lemma_lines_shift(s1, s2, e + 1);
            assert(lines_from(s, pl + j) == seq![
                strip_cr(s.subrange(pl + j, pl + e)),
            ] + lines_from(s, pl + e + 1));
            assert(lines_from(s2, j) == seq![strip_cr(s2.subrange(j, e))] + lines_from(s2, e + 1));
        }
    }
}

/// Splits a text into its lines, as the table readers do: line feeds
/// separate lines, text after the last line feed is a final line, and a
/// trailing carriage return is stripped from each line.
pub fn split_lines(s: &str) -> (lines: Vec<String>)
    ensures
        lines.deep_view() == lines_from(s@, 0),
{
    let n = s.unicode_len();
    let mut lines: Vec<String> = Vec::new();
    proof {
        assert(lines.deep_view() =~= Seq::<Seq<char>>::empty());
        assert(Seq::<Seq<char>>::empty() + lines_from(s@, 0) =~= lines_from(s@, 0));
    }
    let mut i: usize = 0;
    while i < n
        invariant
            i <= n,
            n == s@.len(),
            lines.deep_view() + lines_from(s@, i as int) == lines_from(s@, 0),
        decreases n - i,
    {
        let start = i;
        let mut j = i;
        while j < n
            invariant
                start <= j <= n,
                n == s@.len(),
                forall|k: int| start <= k < j ==> s@[k] != '\n',
            ensures
                start <= j <= n,
                forall|k: int| start <= k < j ==> s@[k] != '\n',
                j == n || s@[j as int] == '\n',
            decreases n - j,
        {
            let c = s.get_char(j);
            if c == '\n' {
                break ;
            }
            j += 1;
        }
        proof {
            lemma_line_end_at(s@, start as int, j as int);
        }
        let line = if j > start && s.get_char(j - 1) == '\r' {
            s.substring_char(start, j - 1)
        } else {
            s.substring_char(start, j)
        };
        proof {
            let sub = s@.subrange(start as int, j as int);
            if j > start && s@[j as int - 1] == '\r' {
                assert(sub.last() == s@[j as int - 1]);
                assert(sub.drop_last() =~= s@.subrange(start as int, j as int - 1));
                assert(line@ =~= strip_cr(sub));
            } else {
                if sub.len() > 0 {
                    assert(sub.last() == s@[j as int - 1]);
                }
                assert(line@ =~= strip_cr(sub));
            }
        }
        let ghost prev = lines.deep_view();
        lines.push(line.to_owned());
        proof {
            assert(lines.deep_view() =~= prev.push(strip_cr(s@.subrange(start as int, j as int))));
        }
        if j < n {
            i = j + 1;
            proof {
                assert(lines_from(s@, start as int) == seq![
                    strip_cr(s@.subrange(start as int, j as int)),
                ] + lines_from(s@, j as int + 1));
                assert(lines.deep_view() + lines_from(s@, j as int + 1) =~= prev + lines_from(
                    s@,
                    start as int,
                ));
            }
        } else {
            i = n;
            proof {
                assert(lines_from(s@, start as int) == seq![
                    strip_cr(s@.subrange(start as int, j as int)),
                ]);
                assert(lines_from(s@, n as int) =~= Seq::<Seq<char>>::empty());
                assert(lines.deep_view() + lines_from(s@, n as int) =~= prev + lines_from(
                    s@,
                    start as int,
                ));
            }
        }
    }
    proof {
        assert(lines_from(s@, n as int) =~= Seq::<Seq<char>>::empty());
        assert(lines.deep_view() =~= lines.deep_view() + lines_from(s@, n as int));
    }
    lines
}

/// The serialized word table: one form per line, in identifier order, so
/// that the line number is the identifier.
pub open spec fn spec_ser_words(forms: Seq<Seq<char>>) -> Seq<char>
    decreases forms.len(),
{
    if forms.len() == 0 {
        Seq::empty()
    } else {
        forms.first() + seq!['\n'] + spec_ser_words(forms.drop_first())
    }
}

/// Writes the word table.
pub fn serialize_words(dict: &WordDictionary) -> (s: String)
    ensures
        s@ == spec_ser_words(dict@),
{
    let n = dict.len();
    let mut s = String::new();
    proof {
        assert(Seq::<char>::empty() + spec_ser_words(dict@.skip(0)) =~= spec_ser_words(
            dict@.skip(0),
        ));
        assert(dict@.skip(0) =~= dict@);
    }
    let mut i: usize = 0;
    while i < n
        invariant
            i <= n,
            n == dict@.len(),
            s@ + spec_ser_words(dict@.skip(i as int)) == spec_ser_words(dict@),
        decreases n - i,
    {
        let ghost prev = s@;
        let f = dict.get(i);
        s.append(f.as_str());
        proof {
            reveal_strlit("\n");
            assert("\n"@.len() == 1 && "\n"@[0] == '\n');
        }
        s.append("\n");
        proof {
            let sk = dict@.skip(i as int);
            assert(sk.first() == dict@[i as int]);
            assert(sk.drop_first() =~= dict@.skip(i as int + 1));
            assert(spec_ser_words(sk) == sk.first() + seq!['\n'] + spec_ser_words(
                dict@.skip(i as int + 1),
            ));
            assert(s@ =~= prev + dict@[i as int] + seq!['\n']);
            assert(s@ + spec_ser_words(dict@.skip(i as int + 1)) =~= prev + spec_ser_words(sk));
        }
        i += 1;
    }
    proof {
        assert(dict@.skip(n as int) =~= Seq::<Seq<char>>::empty());
        assert(s@ + spec_ser_words(dict@.skip(n as int)) =~= s@);
    }
    s
}

/// Reads the word table: lines become forms, in order, the line number
/// being the identifier.  A repeated form or an overfull table is an
/// error; reading succeeds exactly when the lines are distinct and fit.
pub fn parse_words(text: &str) -> (r: Result<WordDictionary, PersistError>)
    ensures
        match r {
            Ok(d) => d.wf() && d@ == lines_from(text@, 0),
            Err(e) => (e is DuplicateForm && !forms_distinct(lines_from(text@, 0))) || (
            e is TooManyForms && lines_from(text@, 0).len() > u32::MAX),
        },
        r is Ok <==> (forms_distinct(lines_from(text@, 0)) && lines_from(text@, 0).len()
            <= u32::MAX),
{
    let lines = split_lines(text);
    let ghost lv = lines_from(text@, 0);
    let mut dict = WordDictionary::new();
    proof {
        assert(dict@ =~= lv.take(0));
    }
    let n = lines.len();
    let mut i: usize = 0;
    while i < n
        invariant
            i <= n,
            n == lv.len(),
            lv == lines.deep_view(),
            lv == lines_from(text@, 0),
            dict.wf(),
            dict@ == lv.take(i as int),
        decreases n - i,
    {
        proof {
            assert(lines.deep_view()[i as int] == lines@[i as int]@);
        }
        let line = &lines[i];
        let existing = dict.lookup(line);
        if existing.is_some() {
            proof {
                let tk = lv.take(i as int);
                assert(tk.contains(lv[i as int]));
                let j = choose|j: int| 0 <= j < tk.len() && tk[j] == lv[i as int];
                assert(lv[j] == lv[i as int]);
                assert(!forms_distinct(lv));
            }
            return Err(PersistError::DuplicateForm);
        }
        if dict.len() >= 4294967295 {
            proof {
                assert(lv.len() > u32::MAX);
            }
            return Err(PersistError::TooManyForms);
        }
        let _ = dict.intern(line);
        proof {
            assert(dict@ =~= lv.take(i as int + 1));
        }
        i += 1;
    }
    proof {
        assert(lv.take(n as int) =~= lv);
        assert(forms_distinct(dict@));
    }
    Ok(dict)
}

/// The document field of a forward-index line: its first
/// whitespace-separated field.
pub open spec fn line_path(l: Seq<char>) -> Seq<char> {
    spec_split(l)[0]
}

/// The word identifiers of a forward-index line: the values of its
/// numeric fields after the first.
pub open spec fn line_ids(l: Seq<char>) -> Set<u32> {
    Set::new(
        |w: u32|
            exists|k: int|
                1 <= k < spec_split(l).len() && spec_is_number(#[trigger] spec_split(l)[k])
                    && spec_num_of(spec_split(l)[k]) == w,
    )
}

/// A readable forward-index line: a document field, then fields that are
/// numbers small enough to be word identifiers.
pub open spec fn line_ok(l: Seq<char>) -> bool {
    spec_split(l).len() >= 1 && forall|k: int|
        1 <= k < spec_split(l).len() ==> spec_is_number(#[trigger] spec_split(l)[k]) && spec_num_of(
            spec_split(l)[k],
        ) <= u32::MAX
}

/// Every line of a forward-index table is readable.
pub open spec fn lines_ok(ls: Seq<Seq<char>>) -> bool {
    forall|k: int| 0 <= k < ls.len() ==> line_ok(#[trigger] ls[k])
}

/// The mapping described by the lines of a forward-index table; a later
/// line for the same document replaces an earlier one.
pub open spec fn spec_matrix_map(ls: Seq<Seq<char>>) -> Map<Seq<char>, Set<u32>>
    decreases ls.len(),
{
    if ls.len() == 0 {
        Map::empty()
    } else {
        spec_matrix_map(ls.drop_last()).insert(line_path(ls.last()), line_ids(ls.last()))
    }
}

/// Whether `x` is among the identifiers collected so far.
fn contains_id(v: &Vec<u32>, x: u32) -> (b: bool)
    ensures
        b == v@.contains(x),
{
    let n = v.len();
    let mut i: usize = 0;
    while i < n
        invariant
            i <= n,
            n == v@.len(),
            forall|j: int| 0 <= j < i ==> v@[j] != x,
        decreases n - i,
    {
        if v[i] == x {
            return true;
        }
        i += 1;
    }
    false
}

/// Reads the forward-index table: each line holds a document identifier
/// and the word identifiers it contains; a later line for the same
/// document replaces an earlier one.  Reading succeeds exactly when
/// every line has a document field followed by in-range numbers.
pub fn parse_matrix(text: &str) -> (r: Result<ForwardIndex, PersistError>)
    ensures
        match r {
            Ok(fwd) => fwd.wf() && fwd.as_map() == spec_matrix_map(lines_from(text@, 0)),
            Err(e) => (e is EmptyLine || e is BadNumber) && !lines_ok(lines_from(text@, 0)),
        },
        r is Ok <==> lines_ok(lines_from(text@, 0)),
{
    let lines = split_lines(text);
    let ghost lv = lines_from(text@, 0);
    let mut fwd = ForwardIndex::new();
    proof {
        assert(lv.take(0) =~= Seq::<Seq<char>>::empty());
        assert(fwd.as_map() =~= spec_matrix_map(lv.take(0)));
    }
    let n = lines.len();
    let mut i: usize = 0;
    while i < n
        invariant
            i <= n,
            n == lv.len(),
            lv == lines.deep_view(),
            lv == lines_from(text@, 0),
            fwd.wf(),
            fwd.as_map() == spec_matrix_map(lv.take(i as int)),
            forall|k: int| 0 <= k < i ==> line_ok(#[trigger] lv[k]),
        decreases n - i,
    {
        proof {
            assert(lines.deep_view()[i as int] == lines@[i as int]@);
        }
        let line = &lines[i];
        let fields = split_query(line.as_str());
        let ghost fv = spec_split(lv[i as int]);
        proof {
            assert(fields.deep_view() == fv);
        }
        let m = fields.len();
        if m == 0 {
            proof {
                assert(!line_ok(lv[i as int]));
            }
            proof {
                assert(!lines_ok(lv)) by {
                    if lines_ok(lv) {
                        assert(line_ok(lv[i as int]));
                    }
                }
            }
            return Err(PersistError::EmptyLine);
        }
        proof {
            assert(fields.deep_view()[0] == fields@[0]@);
        }
        let path = fields[0].clone();
        let mut ids: Vec<u32> = Vec::new();
        let mut k: usize = 1;
        while k < m
            invariant
                1 <= k <= m,
                i < n,
                n == lv.len(),
                lv == lines_from(text@, 0),
                m == fv.len(),
                fv == fields.deep_view(),
                fields.deep_view() == spec_split(lv[i as int]),
                forall|j: int|
                    1 <= j < k ==> spec_is_number(#[trigger] fv[j]) && spec_num_of(fv[j])
                        <= u32::MAX,
                crate::index::ids_distinct(ids@),
                forall|w: u32|
                    ids@.contains(w) <==> exists|j: int|
                        1 <= j < k && spec_is_number(#[trigger] fv[j]) && spec_num_of(fv[j]) == w,
            decreases m - k,
        {
            proof {
                assert(fields.deep_view()[k as int] == fields@[k as int]@);
            }
            let parsed = parse_u32(fields[k].as_str());
            match parsed {
                None => {
                    proof {
                        assert(!(spec_is_number(fv[k as int]) && spec_num_of(fv[k as int])
                            <= u32::MAX));
                        assert(!line_ok(lv[i as int]));
                        assert(!lines_ok(lv)) by {
                            if lines_ok(lv) {
                                assert(line_ok(lv[i as int]));
                            }
                        }
                    }
                    return Err(PersistError::BadNumber);
                },
                Some(v) => {
                    let ghost prev_ids = ids@;
                    let seen = contains_id(&ids, v);
                    if !seen {
                        ids.push(v);
                        proof {
                            assert forall|a: int, b: int| 0 <= a < b < ids@.len()
                                implies ids@[a] != ids@[b] by {
                                if b == prev_ids.len() {
                                    assert(ids@[a] == prev_ids[a]);
                                    assert(!prev_ids.contains(v));
                                }
                            }
                        }
                    }
                    proof {
                        assert forall|w: u32| ids@.contains(w) <==> (prev_ids.contains(w) || w
                            == v) by {
                            if prev_ids.contains(v) {
                                assert(ids@ == prev_ids);
                            } else {
                                crate::seqs::lemma_push_contains(prev_ids, v, w);
                            }
                        }
                        assert forall|w: u32| ids@.contains(w) implies exists|j: int|
                            1 <= j < k as int + 1 && spec_is_number(#[trigger] fv[j])
                                && spec_num_of(fv[j]) == w by {
                            if w == v {
                                assert(1 <= k as int);
                                assert(spec_is_number(fv[k as int]) && spec_num_of(fv[k as int])
                                    == w);
                            } else {
                                assert(prev_ids.contains(w));
                                let j = choose|j: int|
                                    1 <= j < k && spec_is_number(#[trigger] fv[j]) && spec_num_of(
                                        fv[j],
                                    ) == w;
                                assert(1 <= j && j < k as int + 1);
                                assert(spec_is_number(fv[j]) && spec_num_of(fv[j]) == w);
                            }
                        }
                        assert forall|w: u32|
                            (exists|j: int|
                                1 <= j < k as int + 1 && spec_is_number(#[trigger] fv[j])
                                    && spec_num_of(fv[j]) == w) implies ids@.contains(w) by {
                            let j = choose|j: int|
                                1 <= j < k as int + 1 && spec_is_number(#[trigger] fv[j])
                                    && spec_num_of(fv[j]) == w;
                            if j == k as int {
                                assert(w == v);
                                assert(ids@.contains(w));
                            } else {
                                assert(exists|jj: int|
                                    1 <= jj < k && spec_is_number(#[trigger] fv[jj])
                                        && spec_num_of(fv[jj]) == w) by {
                                    assert(1 <= j && j < k as int);
                                    assert(spec_is_number(fv[j]) && spec_num_of(fv[j]) == w);
                                }
                                assert(prev_ids.contains(w));
                                assert(ids@.contains(w));
                            }
                        }
                    }
                },
            }
            k += 1;
        }
        let ghost prev_map = fwd.as_map();
        fwd.set_doc(path, ids);
        proof {
            assert(lv.take(i as int + 1).drop_last() =~= lv.take(i as int));
            assert(lv.take(i as int + 1).last() == lv[i as int]);
            assert(line_path(lv[i as int]) == fv[0]);
            assert(ids@.to_set() =~= line_ids(lv[i as int]));
            assert(spec_matrix_map(lv.take(i as int + 1)) == spec_matrix_map(
                lv.take(i as int),
            ).insert(line_path(lv[i as int]), line_ids(lv[i as int])));
            assert(fwd.as_map() == spec_matrix_map(lv.take(i as int + 1)));
            assert(line_ok(lv[i as int]));
        }
        i += 1;
    }
    proof {
        assert(lv.take(n as int) =~= lv);
    }
    Ok(fwd)
}

/// A forward-index line's identifier list: the identifiers in decimal,
/// separated by single spaces.
pub open spec fn spec_ser_ids(ws: Seq<u32>) -> Seq<char>
    decreases ws.len(),
{
    if ws.len() == 0 {
        Seq::empty()
    } else if ws.len() == 1 {
        spec_digits(ws[0] as int)
    } else {
        spec_digits(ws[0] as int) + seq![' '] + spec_ser_ids(ws.drop_first())
    }
}

/// One serialized forward-index line: the document identifier, then a
/// tab and the word identifiers, space-separated.
pub open spec fn spec_ser_line(path: Seq<char>, ws: Seq<u32>) -> Seq<char> {
    if ws.len() == 0 {
        path
    } else {
        path + seq!['\t'] + spec_ser_ids(ws)
    }
}

/// The serialized forward-index table from document `d` on: one line
/// per document, each closed by a line feed.
pub open spec fn spec_ser_matrix_from(fwd: ForwardIndex, d: int) -> Seq<char>
    decreases fwd.num_docs() - d,
{
    if d < 0 || d >= fwd.num_docs() {
        Seq::empty()
    } else {
        spec_ser_line(fwd.path_at(d), fwd.words_at(d)) + seq!['\n'] + spec_ser_matrix_from(
            fwd,
            d + 1,
        )
    }
}

/// Appending one identifier to a serialized list appends its digits,
/// with a space before them unless the list was empty.
proof fn lemma_ser_ids_snoc(ws: Seq<u32>, w: u32)
    ensures
        spec_ser_ids(ws.push(w)) == if ws.len() == 0 {
            spec_digits(w as int)
        } else {
            spec_ser_ids(ws) + seq![' '] + spec_digits(w as int)
        },
    decreases ws.len(),
{
    let p = ws.push(w);
    if ws.len() == 0 {
        assert(p.len() == 1 && p[0] == w);
    } else if ws.len() == 1 {
        assert(p.len() == 2 && p[0] == ws[0]);
        assert(p.drop_first() =~= seq![w]);
        assert(spec_ser_ids(seq![w]) == spec_digits(w as int));
    } else {
        assert(p[0] == ws[0]);
        assert(p.drop_first() =~= ws.drop_first().push(w));
        lemma_ser_ids_snoc(ws.drop_first(), w);
        assert(spec_ser_ids(p) == spec_digits(ws[0] as int) + seq![' '] + spec_ser_ids(
            ws.drop_first().push(w),
        ));
        assert(spec_ser_ids(ws) == spec_digits(ws[0] as int) + seq![' '] + spec_ser_ids(
            ws.drop_first(),
        ));
        assert(spec_digits(ws[0] as int) + seq![' '] + (spec_ser_ids(ws.drop_first()) + seq![' ']
            + spec_digits(w as int)) =~= spec_ser_ids(ws) + seq![' '] + spec_digits(w as int));
    }
}

/// Writes the forward-index table.
pub fn serialize_matrix(fwd: &ForwardIndex) -> (s: String)
    ensures
        s@ == spec_ser_matrix_from(*fwd, 0),
{
    let n = fwd.len();
    let mut s = String::new();
    proof {
        assert(Seq::<char>::empty() + spec_ser_matrix_from(*fwd, 0) =~= spec_ser_matrix_from(
            *fwd,
            0,
        ));
    }
    let mut d: usize = 0;
    while d < n
        invariant
            d <= n,
            n == fwd.num_docs(),
            s@ + spec_ser_matrix_from(*fwd, d as int) == spec_ser_matrix_from(*fwd, 0),
        decreases n - d,
    {
        let ghost line_start = s@;
        s.append(fwd.path(d).as_str());
        let ws = fwd.words(d);
        let m = ws.len();
        proof {
            assert(ws@.take(0) =~= Seq::<u32>::empty());
            assert(s@ =~= line_start + fwd.path_at(d as int));
        }
        let mut k: usize = 0;
        while k < m
            invariant
                k <= m,
                d < n,
                n == fwd.num_docs(),
                m == ws@.len(),
                ws@ == fwd.words_at(d as int),
                s@ == line_start + fwd.path_at(d as int) + (if k == 0 {
                    Seq::<char>::empty()
                } else {
                    seq!['\t'] + spec_ser_ids(ws@.take(k as int))
                }),
            decreases m - k,
        {
            let ghost pre_line = s@;
            if k == 0 {
                proof {
                    reveal_strlit("\t");
                    assert("\t"@.len() == 1 && "\t"@[0] == '\t');
                }
                s.append("\t");
            } else {
                proof {
                    reveal_strlit(" ");
                    assert(" "@.len() == 1 && " "@[0] == ' ');
                }
                s.append(" ");
            }
            let t = u32_to_string(ws[k]);
            s.append(t.as_str());
            proof {
                assert(ws@.take(k as int + 1) =~= ws@.take(k as int).push(ws@[k as int]));
                lemma_ser_ids_snoc(ws@.take(k as int), ws@[k as int]);
                if k == 0 {
                    assert(spec_ser_ids(ws@.take(1)) == spec_digits(ws@[0] as int));
                    assert(s@ =~= line_start + fwd.path_at(d as int) + (seq!['\t'] + spec_ser_ids(
                        ws@.take(1),
                    )));
                } else {
                    assert(spec_ser_ids(ws@.take(k as int + 1)) == spec_ser_ids(ws@.take(k as int))
                        + seq![' '] + spec_digits(ws@[k as int] as int));
                    assert(s@ =~= line_start + fwd.path_at(d as int) + (seq!['\t'] + spec_ser_ids(
                        ws@.take(k as int + 1),
                    )));
                }
            }
            k += 1;
        }
        proof {
            reveal_strlit("\n");
            assert("\n"@.len() == 1 && "\n"@[0] == '\n');
        }
        s.append("\n");
        proof {
            assert(ws@.take(m as int) =~= ws@);
            let line = spec_ser_line(fwd.path_at(d as int), fwd.words_at(d as int));
            if m == 0 {
                assert(line == fwd.path_at(d as int));
            } else {
                assert(line =~= fwd.path_at(d as int) + (seq!['\t'] + spec_ser_ids(ws@)));
            }
            assert(s@ =~= line_start + line + seq!['\n']);
            assert(spec_ser_matrix_from(*fwd, d as int) == line + seq!['\n']
                + spec_ser_matrix_from(*fwd, d as int + 1));
            assert(s@ + spec_ser_matrix_from(*fwd, d as int + 1) =~= line_start
                + spec_ser_matrix_from(*fwd, d as int));
        }
        d += 1;
    }
    proof {
        assert(spec_ser_matrix_from(*fwd, n as int) =~= Seq::<char>::empty());
        assert(s@ =~= s@ + spec_ser_matrix_from(*fwd, n as int));
    }
    s
}

/// Every character of a serialized identifier list is a digit or a
/// space.
proof fn lemma_ser_ids_chars(ws: Seq<u32>)
    ensures
        forall|k: int|
            0 <= k < spec_ser_ids(ws).len() ==> (#[trigger] spec_ser_ids(ws)[k] == ' '
                || spec_is_digit(spec_ser_ids(ws)[k])),
    decreases ws.len(),
{
    if ws.len() == 1 {
        lemma_digits_props(ws[0] as int);
        assert(spec_ser_ids(ws) == spec_digits(ws[0] as int));
    } else if ws.len() > 1 {
        lemma_digits_props(ws[0] as int);
        lemma_ser_ids_chars(ws.drop_first());
        let dg = spec_digits(ws[0] as int);
        let rest = spec_ser_ids(ws.drop_first());
        let s = spec_ser_ids(ws);
        assert(s == dg + seq![' '] + rest);
        assert forall|k: int|
            0 <= k < s.len() implies (#[trigger] s[k] == ' ' || spec_is_digit(s[k])) by {
            if k < dg.len() {
                assert(s[k] == dg[k]);
            } else if k == dg.len() {
                assert(s[k] == ' ');
            } else {
                assert(s[k] == rest[k - dg.len() - 1]);
            }
        }
    }
}

/// A digit is not whitespace.
proof fn lemma_digit_not_space(c: char)
    requires
        spec_is_digit(c),
    ensures
        !spec_is_space(c),
{
    if c == ' ' || c == '\t' || c == '\n' || c == '\r' || c == '\x0c' {
        assert((c as int) < ('0' as int));
    }
}

/// Splitting a serialized identifier list recovers each identifier's
/// digits as one field.
proof fn lemma_split_ser_ids(ws: Seq<u32>)
    requires
        ws.len() > 0,
    ensures
        spec_split(spec_ser_ids(ws)) == ws.map_values(|w: u32| spec_digits(w as int)),
    decreases ws.len(),
{
    lemma_digits_props(ws[0] as int);
    let dg = spec_digits(ws[0] as int);
    if ws.len() == 1 {
        assert(spec_ser_ids(ws) == dg);
        assert(dg + Seq::<char>::empty() =~= dg);
        crate::text::lemma_split_token_prefix(dg, Seq::empty());
        assert(crate::text::split_from(Seq::empty(), 0) =~= Seq::<Seq<char>>::empty());
        assert(spec_split(dg) =~= seq![dg]);
        assert(ws.map_values(|w: u32| spec_digits(w as int)) =~= seq![dg]);
    } else {
        let rest = spec_ser_ids(ws.drop_first());
        let sep_rest = seq![' '] + rest;
        let s = spec_ser_ids(ws);
        assert(s == dg + seq![' '] + rest);
        assert(s =~= dg + sep_rest);
        assert(sep_rest[0] == ' ');
        crate::text::lemma_split_token_prefix(dg, sep_rest);
        assert(spec_split(s) == seq![dg] + crate::text::split_from(sep_rest, 0));
        assert(crate::text::split_from(sep_rest, 0) == crate::text::split_from(sep_rest, 1));
        assert(sep_rest =~= seq![' '] + rest);
        crate::text::lemma_split_from_shift(seq![' '], rest, 0);
        assert(crate::text::split_from(sep_rest, 1) == crate::text::split_from(rest, 0));
        lemma_split_ser_ids(ws.drop_first());
        assert(spec_split(s) =~= seq![dg] + ws.drop_first().map_values(
            |w: u32| spec_digits(w as int),
        ));
        assert(spec_split(s) =~= ws.map_values(|w: u32| spec_digits(w as int)));
    }
}

/// A document identifier that the forward-index table can carry:
/// non-empty and free of whitespace.
pub open spec fn path_clean(p: Seq<char>) -> bool {
    p.len() > 0 && forall|k: int| 0 <= k < p.len() ==> !spec_is_space(#[trigger] p[k])
}

/// A serialized forward-index line reads back as its document and its
/// identifier set.
proof fn lemma_line_fields(path: Seq<char>, ws: Seq<u32>)
    requires
        path_clean(path),
    ensures
        line_ok(spec_ser_line(path, ws)),
        line_path(spec_ser_line(path, ws)) == path,
        line_ids(spec_ser_line(path, ws)) == ws.to_set(),
{
    let l = spec_ser_line(path, ws);
    let fields = spec_split(l);
    if ws.len() == 0 {
        assert(l == path);
        assert(path + Seq::<char>::empty() =~= path);
        crate::text::lemma_split_token_prefix(path, Seq::empty());
        assert(crate::text::split_from(Seq::empty(), 0) =~= Seq::<Seq<char>>::empty());
        assert(fields =~= seq![path]);
        assert(line_ids(l) =~= ws.to_set());
    } else {
        let ids_txt = spec_ser_ids(ws);
        let sep_rest = seq!['\t'] + ids_txt;
        assert(l == path + seq!['\t'] + ids_txt);
        assert(l =~= path + sep_rest);
        assert(sep_rest[0] == '\t');
        crate::text::lemma_split_token_prefix(path, sep_rest);
        assert(crate::text::split_from(sep_rest, 0) == crate::text::split_from(sep_rest, 1));
        crate::text::lemma_split_from_shift(seq!['\t'], ids_txt, 0);
        assert(crate::text::split_from(sep_rest, 1) == crate::text::split_from(ids_txt, 0));
        lemma_split_ser_ids(ws);
        let digit_fields = ws.map_values(|w: u32| spec_digits(w as int));
        assert(fields =~= seq![path] + digit_fields);
        assert(fields[0] == path);
        assert forall|k: int|
            1 <= k < fields.len() implies spec_is_number(#[trigger] fields[k]) && spec_num_of(
            fields[k],
        ) <= u32::MAX by {
            assert(fields[k] == digit_fields[k - 1]);
            assert(digit_fields[k - 1] == spec_digits(ws[k - 1] as int));
            lemma_digits_props(ws[k - 1] as int);
        }
        assert forall|w: u32| #[trigger] line_ids(l).contains(w) implies ws.to_set().contains(w) by {
            let k = choose|k: int|
                1 <= k < fields.len() && spec_is_number(#[trigger] fields[k]) && spec_num_of(
                    fields[k],
                ) == w;
            assert(fields[k] == spec_digits(ws[k - 1] as int));
            lemma_digits_props(ws[k - 1] as int);
            assert(ws[k - 1] == w);
            assert(ws.contains(w)) by {
                assert(ws[k - 1] == w);
            }
        }
        assert forall|w: u32| ws.to_set().contains(w) implies #[trigger] line_ids(l).contains(
            w,
        ) by {
            let i = choose|i: int| 0 <= i < ws.len() && ws[i] == w;
            assert(fields[i + 1] == spec_digits(ws[i] as int));
            lemma_digits_props(ws[i] as int);
            assert(1 <= i + 1 < fields.len() && spec_is_number(fields[i + 1]) && spec_num_of(
                fields[i + 1],
            ) == w);
        }
        assert(line_ids(l) =~= ws.to_set());
    }
}

/// No character of a serialized forward-index line is a line feed, and
/// the line does not end in a carriage return.
proof fn lemma_line_clean(path: Seq<char>, ws: Seq<u32>)
    requires
        path_clean(path),
    ensures
        spec_ser_line(path, ws).len() > 0,
        forall|k: int|
            0 <= k < spec_ser_line(path, ws).len() ==> #[trigger] spec_ser_line(path, ws)[k]
                != '\n',
        spec_ser_line(path, ws).last() != '\r',
{
    let l = spec_ser_line(path, ws);
    lemma_ser_ids_chars(ws);
    assert forall|k: int| 0 <= k < l.len() implies #[trigger] l[k] != '\n' && (k == l.len() - 1
        ==> l[k] != '\r') by {
        if ws.len() == 0 {
            assert(l[k] == path[k]);
            assert(!spec_is_space(path[k]));
        } else {
            let ids_txt = spec_ser_ids(ws);
            assert(l == path + seq!['\t'] + ids_txt);
            if k < path.len() {
                assert(l[k] == path[k]);
                assert(!spec_is_space(path[k]));
            } else if k == path.len() {
                assert(l[k] == '\t');
            } else {
                assert(l[k] == ids_txt[k - path.len() - 1]);
                assert(ids_txt[k - path.len() - 1] == ' ' || spec_is_digit(
                    ids_txt[k - path.len() - 1],
                ));
                if spec_is_digit(ids_txt[k - path.len() - 1]) {
                    lemma_digit_not_space(ids_txt[k - path.len() - 1]);
                }
            }
        }
    }
    if ws.len() == 0 {
        assert(l.last() == path.last());
    }
}

/// The serialized forward-index table splits back into one line per
/// document, in order.
proof fn lemma_matrix_lines(fwd: ForwardIndex, d: int)
    requires
        0 <= d <= fwd.num_docs(),
        forall|e: int| 0 <= e < fwd.num_docs() ==> path_clean(#[trigger] fwd.path_at(e)),
    ensures
        lines_from(spec_ser_matrix_from(fwd, d), 0) == Seq::new(
            (fwd.num_docs() - d) as nat,
            |k: int| spec_ser_line(fwd.path_at(d + k), fwd.words_at(d + k)),
        ),
    decreases fwd.num_docs() - d,
{
    let goal = Seq::new(
        (fwd.num_docs() - d) as nat,
        |k: int| spec_ser_line(fwd.path_at(d + k), fwd.words_at(d + k)),
    );
    if d >= fwd.num_docs() {
        assert(lines_from(spec_ser_matrix_from(fwd, d), 0) =~= goal);
    } else {
        let line = spec_ser_line(fwd.path_at(d), fwd.words_at(d));
        let rest = spec_ser_matrix_from(fwd, d + 1);
        let s = spec_ser_matrix_from(fwd, d);
        let head = line + seq!['\n'];
        assert(s == line + seq!['\n'] + rest);
        assert(s =~= head + rest);
        lemma_line_clean(fwd.path_at(d), fwd.words_at(d));
        assert forall|k: int| 0 <= k < line.len() implies s[k] != '\n' by {
            assert(s[k] == line[k]);
        }
        assert(s[line.len() as int] == '\n');
        lemma_line_end_at(s, 0, line.len() as int);
        assert(s.subrange(0, line.len() as int) =~= line);
        assert(strip_cr(line) == line);
        lemma_lines_shift(head, rest, 0);
        lemma_matrix_lines(fwd, d + 1);
        assert(line.len() < s.len());
        assert(lines_from(s, 0) == seq![line] + lines_from(s, line.len() as int + 1));
        assert(lines_from(s, line.len() as int + 1) == lines_from(rest, 0));
        assert(seq![line] + Seq::new(
            (fwd.num_docs() - d - 1) as nat,
            |k: int| spec_ser_line(fwd.path_at(d + 1 + k), fwd.words_at(d + 1 + k)),
        ) =~= goal);
    }
}

/// The mapping read back from the first `d` serialized lines is the
/// index's own mapping restricted to its first `d` documents.
proof fn lemma_matrix_map_build(fwd: ForwardIndex, d: int)
    requires
        fwd.wf(),
        0 <= d <= fwd.num_docs(),
        forall|e: int| 0 <= e < fwd.num_docs() ==> path_clean(#[trigger] fwd.path_at(e)),
    ensures
        spec_matrix_map(
            Seq::new(d as nat, |k: int| spec_ser_line(fwd.path_at(k), fwd.words_at(k))),
        ) == Map::new(
            |p: Seq<char>| fwd.paths().take(d).contains(p),
            |p: Seq<char>|
                Set::new(|w: u32| fwd.words_at(fwd.paths().index_of(p)).contains(w)),
        ),
    decreases d,
{
    let lines = Seq::new(d as nat, |k: int| spec_ser_line(fwd.path_at(k), fwd.words_at(k)));
    let goal = Map::new(
        |p: Seq<char>| fwd.paths().take(d).contains(p),
        |p: Seq<char>| Set::new(|w: u32| fwd.words_at(fwd.paths().index_of(p)).contains(w)),
    );
    if d == 0 {
        assert(lines.len() == 0);
        assert(fwd.paths().take(0) =~= Seq::<Seq<char>>::empty());
        assert(goal.dom() =~= Set::<Seq<char>>::empty());
        assert(spec_matrix_map(lines) =~= goal);
    } else {
        lemma_matrix_map_build(fwd, d - 1);
        let prev_lines = Seq::new(
            (d - 1) as nat,
            |k: int| spec_ser_line(fwd.path_at(k), fwd.words_at(k)),
        );
        let prev = Map::new(
            |p: Seq<char>| fwd.paths().take(d - 1).contains(p),
            |p: Seq<char>| Set::new(|w: u32| fwd.words_at(fwd.paths().index_of(p)).contains(w)),
        );
        assert(lines.drop_last() =~= prev_lines);
        let last_path = fwd.path_at(d - 1);
        let last_ws = fwd.words_at(d - 1);
        assert(lines.last() == spec_ser_line(last_path, last_ws));
        lemma_line_fields(last_path, last_ws);
        assert(spec_matrix_map(lines) == prev.insert(last_path, last_ws.to_set()));
        let built = prev.insert(last_path, last_ws.to_set());
        assert forall|p: Seq<char>|
            #![auto]
            built.dom().contains(p) <==> goal.dom().contains(p) by {
            crate::seqs::lemma_take_succ_contains(fwd.paths(), d - 1, p);
            assert(fwd.paths()[d - 1] == last_path);
        }
        assert(built.dom() =~= goal.dom());
        assert forall|p: Seq<char>| #[trigger] goal.dom().contains(p) implies built[p]
            == goal[p] by {
            if p == last_path {
                assert(fwd.paths()[d - 1] == last_path);
                crate::words::lemma_distinct_index_of(fwd.paths(), last_path, d - 1);
                assert(fwd.paths().index_of(p) == d - 1);
                assert(built[p] == last_ws.to_set());
                assert(goal[p] =~= last_ws.to_set());
            } else {
                assert(fwd.paths().take(d).contains(p));
                crate::seqs::lemma_take_succ_contains(fwd.paths(), d - 1, p);
                assert(fwd.paths().take(d - 1).contains(p));
                assert(built[p] == prev[p]);
                assert(prev[p] == goal[p]);
            }
        }
        assert(built =~= goal);
    }
}

/// Writing the forward-index table and reading it back yields readable
/// lines that describe exactly the index's own mapping.
pub proof fn lemma_matrix_round_trip(fwd: ForwardIndex)
    requires
        fwd.wf(),
        forall|d: int| 0 <= d < fwd.num_docs() ==> path_clean(#[trigger] fwd.path_at(d)),
    ensures
        lines_ok(lines_from(spec_ser_matrix_from(fwd, 0), 0)),
        spec_matrix_map(lines_from(spec_ser_matrix_from(fwd, 0), 0)) == fwd.as_map(),
{
    lemma_matrix_lines(fwd, 0);
    let lines = lines_from(spec_ser_matrix_from(fwd, 0), 0);
    assert(lines == Seq::new(
        fwd.num_docs(),
        |k: int| spec_ser_line(fwd.path_at(k), fwd.words_at(k)),
    ));
    assert forall|k: int| 0 <= k < lines.len() implies line_ok(#[trigger] lines[k]) by {
        lemma_line_fields(fwd.path_at(k), fwd.words_at(k));
    }
    lemma_matrix_map_build(fwd, fwd.num_docs() as int);
    let built = Map::new(
        |p: Seq<char>| fwd.paths().take(fwd.num_docs() as int).contains(p),
        |p: Seq<char>| Set::new(|w: u32| fwd.words_at(fwd.paths().index_of(p)).contains(w)),
    );
    assert(fwd.paths().take(fwd.num_docs() as int) =~= fwd.paths());
    assert forall|p: Seq<char>|
        #![auto]
        built.dom().contains(p) <==> fwd.as_map().dom().contains(p) by {}
    assert(built.dom() =~= fwd.as_map().dom());
    assert forall|p: Seq<char>| #[trigger] built.dom().contains(p) implies built[p]
        == fwd.as_map()[p] by {}
    assert(built =~= fwd.as_map());
    assert(spec_matrix_map(lines) == built);
}

/// A form that the word table can carry on one line: free of line feeds
/// and carriage returns.
pub open spec fn form_clean(f: Seq<char>) -> bool {
    forall|k: int| 0 <= k < f.len() ==> f[k] != '\n' && f[k] != '\r'
}

/// Writing the word table and reading it back yields exactly the
/// dictionary's forms, in identifier order.
pub proof fn lemma_words_round_trip(forms: Seq<Seq<char>>)
    requires
        forall|i: int| 0 <= i < forms.len() ==> form_clean(#[trigger] forms[i]),
    ensures
        lines_from(spec_ser_words(forms), 0) == forms,
    decreases forms.len(),
{
    if forms.len() > 0 {
        let f0 = forms.first();
        let rest = forms.drop_first();
        let rest_txt = spec_ser_words(rest);
        let s = spec_ser_words(forms);
        let head = f0 + seq!['\n'];
        assert(form_clean(forms[0]));
        assert(s =~= head + rest_txt);
        assert forall|k: int| 0 <= k < f0.len() implies s[k] != '\n' by {
            assert(s[k] == f0[k]);
        }
        assert(s[f0.len() as int] == '\n');
        lemma_line_end_at(s, 0, f0.len() as int);
        assert(s.subrange(0, f0.len() as int) =~= f0);
        assert(strip_cr(f0) == f0);
        lemma_lines_shift(head, rest_txt, 0);
        assert(forall|i: int| 0 <= i < rest.len() ==> rest[i] == forms[i + 1]);
        assert forall|i: int| 0 <= i < rest.len() implies form_clean(#[trigger] rest[i]) by {
            assert(rest[i] == forms[i + 1]);
        }
        lemma_words_round_trip(rest);
        assert(f0.len() < s.len());
        assert(lines_from(s, 0) == seq![f0] + lines_from(s, f0.len() as int + 1));
        assert(lines_from(s, f0.len() as int + 1) == lines_from(rest_txt, 0));
        assert(seq![f0] + rest =~= forms);
    }
}

} // verus!
