use vstd::prelude::*;

use vstd::string::StringExecFns;

verus! {

/// The suffix of `p` after its last slash.
pub open spec fn component_after_slash(p: Seq<char>) -> Seq<char>
    decreases p.len(),
{
    if p.len() == 0 {
        p
    } else if p.last() == '/' {
        Seq::empty()
    } else {
        component_after_slash(p.drop_last()).push(p.last())
    }
}

/// `p` without its trailing slashes.
pub open spec fn strip_slashes(p: Seq<char>) -> Seq<char>
    decreases p.len(),
{
    if p.len() > 0 && p.last() == '/' {
        strip_slashes(p.drop_last())
    } else {
        p
    }
}

/// The file name part of a path, as used when building a result's link:
/// its last non-empty slash-separated component, trailing slashes
/// ignored, as the standard path reader finds it.
pub open spec fn file_name_of(p: Seq<char>) -> Seq<char> {
    component_after_slash(strip_slashes(p))
}

/// The position of the last dot of `name`, or `-1` if it has none.
pub open spec fn last_dot_of(name: Seq<char>) -> int
    decreases name.len(),
{
    if name.len() == 0 {
        -1
    } else if name.last() == '.' {
        name.len() - 1
    } else {
        last_dot_of(name.drop_last())
    }
}

/// The stem of a file name: what stands before its last dot.  A name
/// without a dot, or whose only dot begins it, is its own stem.
pub open spec fn stem_of(name: Seq<char>) -> Seq<char> {
    let d = last_dot_of(name);
    if d <= 0 {
        name
    } else {
        name.take(d)
    }
}

/// A suffix free of slashes, preceded by a slash or the start, is the
/// component after the last slash.
proof fn lemma_component_at(p: Seq<char>, k: int)
    requires
        -1 <= k < p.len(),
        forall|j: int| k < j < p.len() ==> p[j] != '/',
        k == -1 || p[k] == '/',
    ensures
        component_after_slash(p) == p.subrange(k + 1, p.len() as int),
    decreases p.len() - k,
{
    if k == p.len() - 1 {
        if k == -1 {
            assert(p.len() == 0);
            assert(component_after_slash(p) =~= p.subrange(0, 0));
        } else {
            assert(p.last() == '/');
            assert(component_after_slash(p) =~= p.subrange(k + 1, p.len() as int));
        }
    } else {
        assert(p.last() != '/');
        let q = p.drop_last();
        assert forall|j: int| k < j < q.len() implies q[j] != '/' by {
            assert(q[j] == p[j]);
        }
        if k >= 0 {
            assert(q[k] == p[k]);
        }
        lemma_component_at(q, k);
        assert(component_after_slash(p) == component_after_slash(q).push(p.last()));
        assert(q.subrange(k + 1, q.len() as int).push(p.last()) =~= p.subrange(
            k + 1,
            p.len() as int,
        ));
    }
}

/// Dropping a run of trailing slashes is stripping them.
proof fn lemma_strip_slashes_at(p: Seq<char>, m: int)
    requires
        0 <= m <= p.len(),
        forall|j: int| m <= j < p.len() ==> p[j] == '/',
        m > 0 ==> p[m - 1] != '/',
    ensures
        strip_slashes(p) == p.take(m),
    decreases p.len() - m,
{
    if m == p.len() {
        assert(p.take(m) =~= p);
        if p.len() > 0 {
            assert(p.last() != '/');
        }
    } else {
        assert(p.last() == '/');
        let q = p.drop_last();
        assert forall|j: int| m <= j < q.len() implies q[j] == '/' by {
            assert(q[j] == p[j]);
        }
        if m > 0 {
            assert(q[m - 1] == p[m - 1]);
        }
        lemma_strip_slashes_at(q, m);
        assert(q.take(m) =~= p.take(m));
    }
}

/// A suffix free of dots, preceded by a dot or the start, fixes the
/// position of the last dot.
proof fn lemma_last_dot_at(name: Seq<char>, k: int)
    requires
        -1 <= k < name.len(),
        forall|j: int| k < j < name.len() ==> name[j] != '.',
        k == -1 || name[k] == '.',
    ensures
        last_dot_of(name) == k,
    decreases name.len() - k,
{
    if k == name.len() - 1 {
    } else {
        assert(name.last() != '.');
        let q = name.drop_last();
        assert forall|j: int| k < j < q.len() implies q[j] != '.' by {
            assert(q[j] == name[j]);
        }
        if k >= 0 {
            assert(q[k] == name[k]);
        }
        lemma_last_dot_at(q, k);
    }
}

/// The link for a result: a fixed host, then the stem of the document's
/// file name.
pub open spec fn spec_url_of(p: Seq<char>) -> Seq<char> {
    "http://localhost/"@ + stem_of(file_name_of(p))
}

/// One document of a query result, ready for rendering: its path, the
/// link derived from it, and the title and summary read from the
/// document's text.
pub struct ResultFile {
    pub path: String,
    pub url: String,
    pub title: String,
    pub summary: String,
}

impl ResultFile {
    /// Builds one rendered result.  The title is the document's first
    /// line and the summary its remaining text, both prepared by the
    /// caller; the link is derived here from the path.
    pub fn new(path: String, title: String, summary: String) -> (r: ResultFile)
        ensures
            r.path == path,
            r.title == title,
            r.summary == summary,
            r.url@ == spec_url_of(path@),
    {
        let url = Self::make_url(&path);
        ResultFile { path, url, title, summary }
    }

    /// The link for the document at `path`: a fixed host followed by the
    /// stem of the path's file name.
    pub fn make_url(path: &String) -> (r: String)
        ensures
            r@ == spec_url_of(path@),
    {
        let s = path.as_str();
        let n = s.unicode_len();
        // the end of the path with trailing slashes ignored
        let mut m: usize = n;
        while m > 0
            invariant
                m <= n,
                n == s@.len(),
                forall|j: int| m <= j < n ==> s@[j] == '/',
            ensures
                m <= n,
                forall|j: int| m <= j < n ==> s@[j] == '/',
                m == 0 || s@[m as int - 1] != '/',
            decreases m,
        {
            if s.get_char(m - 1) != '/' {
                break ;
            }
            m -= 1;
        }
        proof {
            lemma_strip_slashes_at(s@, m as int);
        }
        let ghost stripped = s@.take(m as int);
        // the position after the last slash before `m`
        let mut start: usize = 0;
        let mut i: usize = 0;
        while i < m
            invariant
                0 <= start <= i <= m,
                m <= n,
                n == s@.len(),
                forall|j: int| start <= j < i ==> s@[j] != '/',
                start == 0 || s@[start - 1] == '/',
            decreases m - i,
        {
            if s.get_char(i) == '/' {
                start = i + 1;
            }
            i += 1;
        }
        proof {
            assert(start < m || m == 0) by {
                if start == m && m > 0 {
                    assert(s@[start - 1] == '/');
                }
            }
            assert forall|j: int| (start as int - 1) < j < stripped.len() implies stripped[j]
                != '/' by {
                assert(stripped[j] == s@[j]);
            }
            if start > 0 {
                assert(stripped[start as int - 1] == s@[start as int - 1]);
            }
            lemma_component_at(stripped, start as int - 1);
            assert(stripped.subrange(start as int, m as int) =~= s@.subrange(
                start as int,
                m as int,
            ));
        }
        // the position after the last dot of the file name, or `start`
        // if it has none
        let mut dot: usize = start;
        let mut k: usize = start;
        while k < m
            invariant
                start <= k <= m,
                start <= dot <= k,
                m <= n,
                n == s@.len(),
                dot == start || s@[dot as int - 1] == '.',
                forall|j: int| dot <= j < k ==> s@[j] != '.',
            decreases m - k,
        {
            if s.get_char(k) == '.' {
                dot = k + 1;
            }
            k += 1;
        }
        let stem_end = if dot > start && dot - 1 > start {
            dot - 1
        } else {
            m
        };
        proof {
            let nm = s@.subrange(start as int, m as int);
            if dot > start + 1 {
                assert forall|j: int| (dot - 1 - start) < j < nm.len() implies nm[j] != '.' by {
                    assert(nm[j] == s@[j + start]);
                }
                assert(nm[dot as int - 1 - start] == s@[dot as int - 1]);
                lemma_last_dot_at(nm, dot as int - 1 - start);
                assert(stem_of(nm) =~= nm.take(dot as int - 1 - start));
                assert(nm.take(dot as int - 1 - start) =~= s@.subrange(
                    start as int,
                    dot as int - 1,
                ));
            } else {
                assert forall|j: int| -1 < j < nm.len() && (dot == start || j != dot - 1 - start)
                    implies nm[j] != '.' by {
                    assert(nm[j] == s@[j + start]);
                }
                if dot == start {
                    lemma_last_dot_at(nm, -1);
                    assert(stem_of(nm) == nm);
                } else {
                    // dot == start + 1: the name begins with its only dot
                    assert(nm[0] == s@[start as int]);
                    assert forall|j: int| 0 < j < nm.len() implies nm[j] != '.' by {
                        assert(nm[j] == s@[j + start]);
                    }
                    lemma_last_dot_at(nm, 0);
                    assert(stem_of(nm) == nm);
                }
                assert(nm =~= s@.subrange(start as int, m as int));
            }
        }
        let stem = s.substring_char(start, stem_end);
        let mut r = String::from_str("http://localhost/");
        r.append(stem);
        proof {
            assert(stem@ =~= stem_of(file_name_of(s@)));
        }
        r
    }
}

/// Renders query results.  Building the page itself is template work
/// left to the caller; this type prepares the values the template takes.
pub struct Responder {}

impl Responder {
    /// A fresh renderer.
    pub fn new() -> (r: Responder) {
        Responder {  }
    }

    /// The body served when rendering fails.
    pub fn make_internal_error(&self) -> (r: String)
        ensures
            r@ == "internal error"@,
    {
        String::from_str("internal error")
    }
}

/// A Unicode white-space character: the White_Space set that
/// `str::trim` removes, which includes the ideographic space alongside
/// the ASCII separators.
pub open spec fn spec_is_white(c: char) -> bool {
    let x = c as int;
    (9 <= x && x <= 13) || x == 32 || x == 0x85 || x == 0xA0 || x == 0x1680 || (0x2000 <= x && x
        <= 0x200A) || x == 0x2028 || x == 0x2029 || x == 0x202F || x == 0x205F || x == 0x3000
}

fn is_white(c: char) -> (b: bool)
    ensures
        b == spec_is_white(c),
{
    let x = c as u32;
    (9 <= x && x <= 13) || x == 32 || x == 0x85 || x == 0xA0 || x == 0x1680 || (0x2000 <= x && x
        <= 0x200A) || x == 0x2028 || x == 0x2029 || x == 0x202F || x == 0x205F || x == 0x3000
}

/// `s` without its leading whitespace.
pub open spec fn spec_trim_front(s: Seq<char>) -> Seq<char>
    decreases s.len(),
{
    if s.len() > 0 && spec_is_white(s[0]) {
        spec_trim_front(s.drop_first())
    } else {
        s
    }
}

/// `s` without its trailing whitespace.
pub open spec fn spec_trim_back(s: Seq<char>) -> Seq<char>
    decreases s.len(),
{
    if s.len() > 0 && spec_is_white(s.last()) {
        spec_trim_back(s.drop_last())
    } else {
        s
    }
}

/// `s` without leading and trailing whitespace.
pub open spec fn spec_trim(s: Seq<char>) -> Seq<char> {
    spec_trim_back(spec_trim_front(s))
}

/// Dropping a whitespace prefix is trimming the front.
proof fn lemma_trim_front_at(s: Seq<char>, a: int)
    requires
        0 <= a <= s.len(),
        forall|j: int| 0 <= j < a ==> spec_is_white(s[j]),
        a < s.len() ==> !spec_is_white(s[a]),
    ensures
        spec_trim_front(s) == s.skip(a),
    decreases a,
{
    if a == 0 {
        assert(s.skip(0) =~= s);
    } else {
        assert(spec_is_white(s[0]));
        let q = s.drop_first();
        assert forall|j: int| 0 <= j < a - 1 implies spec_is_white(q[j]) by {
            assert(q[j] == s[j + 1]);
        }
        if a - 1 < q.len() {
            assert(q[a - 1] == s[a]);
        }
        lemma_trim_front_at(q, a - 1);
        assert(q.skip(a - 1) =~= s.skip(a));
    }
}

/// Dropping a whitespace suffix is trimming the back.
proof fn lemma_trim_back_at(s: Seq<char>, b: int)
    requires
        0 <= b <= s.len(),
        forall|j: int| b <= j < s.len() ==> spec_is_white(s[j]),
        b > 0 ==> !spec_is_white(s[b - 1]),
    ensures
        spec_trim_back(s) == s.take(b),
    decreases s.len() - b,
{
    if b == s.len() {
        assert(s.take(b) =~= s);
        if s.len() > 0 {
            assert(!spec_is_white(s.last()));
        }
    } else {
        assert(spec_is_white(s.last()));
        let q = s.drop_last();
        assert forall|j: int| b <= j < q.len() implies spec_is_white(q[j]) by {
            assert(q[j] == s[j]);
        }
        if b > 0 {
            assert(q[b - 1] == s[b - 1]);
        }
        lemma_trim_back_at(q, b);
        assert(q.take(b) =~= s.take(b));
    }
}

/// `s` without leading and trailing Unicode whitespace, as a title line
/// is trimmed before rendering.
pub fn trim_spaces(s: &str) -> (r: String)
    ensures
        r@ == spec_trim(s@),
{
    let n = s.unicode_len();
    let mut a: usize = 0;
    while a < n
        invariant
            a <= n,
            n == s@.len(),
            forall|j: int| 0 <= j < a ==> spec_is_white(s@[j]),
        ensures
            a <= n,
            n == s@.len(),
            forall|j: int| 0 <= j < a ==> spec_is_white(s@[j]),
            a == n || !spec_is_white(s@[a as int]),
        decreases n - a,
    {
        let c = s.get_char(a);
        if !is_white(c) {
            break ;
        }
        a += 1;
    }
    let mut b: usize = n;
    while b > a
        invariant
            a <= b <= n,
            n == s@.len(),
            forall|j: int| b <= j < n ==> spec_is_white(s@[j]),
        ensures
            a <= b <= n,
            forall|j: int| b <= j < n ==> spec_is_white(s@[j]),
            b == a || !spec_is_white(s@[b as int - 1]),
        decreases b,
    {
        let c = s.get_char(b - 1);
        if !is_white(c) {
            break ;
        }
        b -= 1;
    }
    let r = s.substring_char(a, b).to_owned();
    proof {
        if b == n {
            lemma_trim_front_at(s@, a as int);
            lemma_trim_back_at(s@.skip(a as int), (b - a) as int);
        } else {
            assert(a < n);
            lemma_trim_front_at(s@, a as int);
            let q = s@.skip(a as int);
            assert forall|j: int| b - a <= j < q.len() implies spec_is_white(q[j]) by {
                assert(q[j] == s@[j + a]);
            }
            if b > a {
                assert(q[b as int - a - 1] == s@[b as int - 1]);
            }
            lemma_trim_back_at(q, b as int - a as int);
        }
        assert(s@.skip(a as int).take(b as int - a as int) =~= s@.subrange(a as int, b as int));
        assert(r@ == s@.subrange(a as int, b as int));
    }
    r
}

/// The summary of a document: its lines after the first, each trimmed
/// of surrounding whitespace, run together with single spaces.
pub open spec fn spec_summary(lines: Seq<Seq<char>>) -> Seq<char>
    decreases lines.len(),
{
    if lines.len() == 0 {
        Seq::empty()
    } else {
        spec_trim(lines.first()) + seq![' '] + spec_summary(lines.drop_first())
    }
}

/// Joins a document's body lines into its summary: every line trimmed,
/// a space after each.
pub fn make_summary_text(lines: &Vec<String>) -> (r: String)
    ensures
        r@ == spec_summary(lines.deep_view()),
{
    let ghost lv = lines.deep_view();
    let n = lines.len();
    let mut r = String::new();
    proof {
        assert(Seq::<char>::empty() + spec_summary(lv.skip(0)) =~= spec_summary(lv.skip(0)));
        assert(lv.skip(0) =~= lv);
    }
    let mut i: usize = 0;
    while i < n
        invariant
            i <= n,
            n == lv.len(),
            lv == lines.deep_view(),
            r@ + spec_summary(lv.skip(i as int)) == spec_summary(lv),
        decreases n - i,
    {
        let ghost prev = r@;
        proof {
            assert(lines.deep_view()[i as int] == lines@[i as int]@);
        }
        let t = trim_spaces(lines[i].as_str());
        r.append(t.as_str());
        proof {
            reveal_strlit(" ");
            assert(" "@.len() == 1 && " "@[0] == ' ');
        }
        r.append(" ");
        proof {
            let sk = lv.skip(i as int);
            assert(sk.first() == lv[i as int]);
            assert(sk.drop_first() =~= lv.skip(i as int + 1));
            assert(spec_summary(sk) == spec_trim(lv[i as int]) + seq![' '] + spec_summary(
                lv.skip(i as int + 1),
            ));
            assert(r@ =~= prev + spec_trim(lv[i as int]) + seq![' ']);
            assert(r@ + spec_summary(lv.skip(i as int + 1)) =~= prev + spec_summary(sk));
        }
        i += 1;
    }
    proof {
        assert(lv.skip(n as int) =~= Seq::<Seq<char>>::empty());
        assert(r@ + spec_summary(lv.skip(n as int)) =~= r@);
    }
    r
}

/// The on-disk location of one index table: the index directory, the
/// table's kind, and a generation suffix.
pub fn index_file_path(dir: &str, typ: &str, suffix: &str) -> (r: String)
    ensures
        r@ == dir@ + "/index."@ + typ@ + ".txt"@ + suffix@,
{
    let mut r = String::from_str(dir);
    r.append("/index.");
    r.append(typ);
    r.append(".txt");
    r.append(suffix);
    proof {
        assert(r@ =~= dir@ + "/index."@ + typ@ + ".txt"@ + suffix@);
    }
    r
}

} // verus!
