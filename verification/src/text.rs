use vstd::prelude::*;

verus! {

/// ASCII whitespace, the only token separator of the query language.
pub open spec fn spec_is_space(c: char) -> bool {
    c == ' ' || c == '\t' || c == '\n' || c == '\r' || c == '\x0c'
}

/// A line, tab or carriage-return character, normalized to a space before
/// indexing.
pub open spec fn spec_is_line_break(c: char) -> bool {
    c == '\n' || c == '\r' || c == '\t'
}

fn is_space(c: char) -> (b: bool)
    ensures
        b == spec_is_space(c),
{
    c == ' ' || c == '\t' || c == '\n' || c == '\r' || c == '\x0c'
}

/// Where the token starting at `i` ends: the first position at or after
/// `i` holding whitespace, or the end of the text.
pub open spec fn token_end(s: Seq<char>, i: int) -> int
    decreases s.len() - i,
{
    if i < 0 || i >= s.len() || spec_is_space(s[i]) {
        i
    } else {
        token_end(s, i + 1)
    }
}

/// The token starting at `i` runs to the first whitespace and no further.
pub proof fn lemma_token_end(s: Seq<char>, i: int)
    requires
        0 <= i <= s.len(),
    ensures
        i <= token_end(s, i) <= s.len(),
        0 <= i < s.len() && !spec_is_space(s[i]) ==> token_end(s, i) > i,
        forall|k: int| i <= k < token_end(s, i) ==> !spec_is_space(s[k]),
        token_end(s, i) < s.len() ==> spec_is_space(s[token_end(s, i)]),
    decreases s.len() - i,
{
    if i < s.len() && !spec_is_space(s[i]) {
        lemma_token_end(s, i + 1);
    }
}

/// The whitespace-separated tokens of `s`, from position `i` on: maximal
/// runs of non-whitespace characters, in order.
pub open spec fn split_from(s: Seq<char>, i: int) -> Seq<Seq<char>>
    decreases s.len() - i,
    via split_from_dec
{
    if i < 0 || i >= s.len() {
        Seq::empty()
    } else if spec_is_space(s[i]) {
        split_from(s, i + 1)
    } else {
        seq![s.subrange(i, token_end(s, i))] + split_from(s, token_end(s, i))
    }
}

#[via_fn]
proof fn split_from_dec(s: Seq<char>, i: int) {
    if 0 <= i < s.len() && !spec_is_space(s[i]) {
        lemma_token_end(s, i);
    }
}

/// The whitespace-separated tokens of the whole text.
pub open spec fn spec_split(s: Seq<char>) -> Seq<Seq<char>> {
    split_from(s, 0)
}

/// Splits a query string on ASCII whitespace: the returned words are the
/// maximal non-whitespace runs of `q`, in order.
pub fn split_query(q: &str) -> (words: Vec<String>)
    ensures
        words.deep_view() == spec_split(q@),
{
    let n = q.unicode_len();
    let mut words: Vec<String> = Vec::new();
    proof {
        assert(Seq::<Seq<char>>::empty() + split_from(q@, 0) =~= split_from(q@, 0));
        assert(words.deep_view() =~= Seq::<Seq<char>>::empty());
    }
    let mut i: usize = 0;
    while i < n
        invariant
            i <= n,
            n == q@.len(),
            words.deep_view() + split_from(q@, i as int) == spec_split(q@),
        decreases n - i,
    {
        let c = q.get_char(i);
        if is_space(c) {
            i += 1;
        } else {
            let start = i;
            let mut j = i + 1;
            while j < n
                invariant
                    start < j <= n,
                    n == q@.len(),
                    forall|k: int| start <= k < j ==> !spec_is_space(q@[k]),
                ensures
                    start < j <= n,
                    forall|k: int| start <= k < j ==> !spec_is_space(q@[k]),
                    j == n || spec_is_space(q@[j as int]),
                decreases n - j,
            {
                let cj = q.get_char(j);
                if is_space(cj) {
                    break ;
                }
                j += 1;
            }
            proof {
                lemma_token_end_at(q@, start as int, j as int);
            }
            let w = q.substring_char(start, j);
            let ghost prev = words.deep_view();
            words.push(w.to_owned());
            proof {
                assert(words.deep_view() =~= prev.push(w@));
                assert(split_from(q@, start as int) == seq![q@.subrange(
                    start as int,
                    j as int,
                )] + split_from(q@, j as int));
                assert(words.deep_view() + split_from(q@, j as int) =~= prev + (seq![q@.subrange(
                    start as int,
                    j as int,
                )] + split_from(q@, j as int)));
            }
            i = j;
        }
    }
    proof {
        assert(split_from(q@, n as int) =~= Seq::<Seq<char>>::empty());
        assert(words.deep_view() =~= words.deep_view() + split_from(q@, n as int));
    }
    words
}

/// A run of non-whitespace followed by whitespace or the end is exactly
/// the token the splitter takes.
proof fn lemma_token_end_at(s: Seq<char>, i: int, j: int)
    requires
        0 <= i < j <= s.len(),
        forall|k: int| i <= k < j ==> !spec_is_space(s[k]),
        j == s.len() || spec_is_space(s[j]),
    ensures
        token_end(s, i) == j,
    decreases j - i,
{
    assert(!spec_is_space(s[i]));
    if i + 1 < j {
        lemma_token_end_at(s, i + 1, j);
    } else {
        assert(token_end(s, j) == j);
    }
    assert(token_end(s, i) == token_end(s, i + 1));
}

/// Scanning for the end of a token is unaffected by an earlier prefix.
pub proof fn lemma_token_end_shift(s1: Seq<char>, s2: Seq<char>, j: int)
    requires
        0 <= j <= s2.len(),
    ensures
        token_end(s1 + s2, s1.len() + j) == s1.len() + token_end(s2, j),
    decreases s2.len() - j,
{
    let s = s1 + s2;
    let pl = s1.len() as int;
    if j < s2.len() {
        assert(s[pl + j] == s2[j]);
        if !spec_is_space(s2[j]) {
            lemma_token_end_shift(s1, s2, j + 1);
        }
    }
}

/// Splitting is unaffected by an earlier prefix: the tokens found from a
/// position of `s2` are the tokens found at the same place after any
/// prefix.
pub proof fn lemma_split_from_shift(s1: Seq<char>, s2: Seq<char>, j: int)
    requires
        0 <= j <= s2.len(),
    ensures
        split_from(s1 + s2, s1.len() + j) == split_from(s2, j),
    decreases s2.len() - j,
{
    let s = s1 + s2;
    let pl = s1.len() as int;
    if j >= s2.len() {
    } else if spec_is_space(s2[j]) {
        assert(s[pl + j] == s2[j]);
        lemma_split_from_shift(s1, s2, j + 1);
    } else {
        assert(s[pl + j] == s2[j]);
        lemma_token_end_shift(s1, s2, j);
        lemma_token_end(s2, j);
        let e = token_end(s2, j);
        assert(s.subrange(pl + j, pl + e) =~= s2.subrange(j, e));
        lemma_split_from_shift(s1, s2, e);
        assert(split_from(s, pl + j) == seq![s.subrange(pl + j, pl + e)] + split_from(s, pl + e));
        assert(split_from(s2, j) == seq![s2.subrange(j, e)] + split_from(s2, e));
    }
}

/// The text `tok + rest`, where `tok` is a non-blank run and `rest` is
/// empty or begins with whitespace, splits into `tok` followed by the
/// tokens of `rest`.
pub proof fn lemma_split_token_prefix(tok: Seq<char>, rest: Seq<char>)
    requires
        tok.len() > 0,
        forall|k: int| 0 <= k < tok.len() ==> !spec_is_space(tok[k]),
        rest.len() == 0 || spec_is_space(rest[0]),
    ensures
        spec_split(tok + rest) == seq![tok] + split_from(rest, 0),
{
    let s = tok + rest;
    assert forall|k: int| 0 <= k < tok.len() implies !spec_is_space(s[k]) by {
        assert(s[k] == tok[k]);
    }
    if tok.len() < s.len() {
        assert(s[tok.len() as int] == rest[0]);
    }
    lemma_token_end_at(s, 0, tok.len() as int);
    assert(s.subrange(0, tok.len() as int) =~= tok);
    lemma_split_from_shift(tok, rest, 0);
    assert(spec_split(s) == seq![s.subrange(0, tok.len() as int)] + split_from(
        s,
        tok.len() as int,
    ));
}

/// Replaces every line feed, carriage return and tab with a space, so
/// that a document's text can be indexed and serialized as a single line.
pub fn replace_lf(buf: &String) -> (r: String)
    ensures
        r@.len() == buf@.len(),
        forall|k: int|
            0 <= k < buf@.len() ==> r@[k] == (if spec_is_line_break(buf@[k]) {
                ' '
            } else {
                buf@[k]
            }),
{
    let s = buf.as_str();
    let n = s.unicode_len();
    let mut r = String::new();
    let mut i: usize = 0;
    while i < n
        invariant
            i <= n,
            n == buf@.len(),
            s@ == buf@,
            r@.len() == i,
            forall|k: int|
                0 <= k < i ==> r@[k] == (if spec_is_line_break(buf@[k]) {
                    ' '
                } else {
                    buf@[k]
                }),
        decreases n - i,
    {
        let c = s.get_char(i);
        if c == '\n' || c == '\r' || c == '\t' {
            proof {
                reveal_strlit(" ");
                assert(" "@.len() == 1 && " "@[0] == ' ');
            }
            r.append(" ");
        } else {
            let piece = s.substring_char(i, i + 1);
            r.append(piece);
        }
        i += 1;
    }
    r
}

} // verus!
