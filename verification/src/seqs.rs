use vstd::prelude::*;

verus! {

/// Membership in a sequence extended by one element.
pub proof fn lemma_push_contains<A>(s: Seq<A>, x: A, y: A)
    ensures
        s.push(x).contains(y) <==> (s.contains(y) || y == x),
{
    if s.push(x).contains(y) {
        let i = choose|i: int| 0 <= i < s.push(x).len() && s.push(x)[i] == y;
        if i < s.len() {
            assert(s[i] == y);
        }
    }
    if s.contains(y) {
        let i = choose|i: int| 0 <= i < s.len() && s[i] == y;
        assert(s.push(x)[i] == y);
    }
    assert(s.push(x)[s.len() as int] == x);
}

/// Membership in a prefix extended by one element.
pub proof fn lemma_take_succ_contains<A>(s: Seq<A>, i: int, y: A)
    requires
        0 <= i < s.len(),
    ensures
        s.take(i + 1).contains(y) <==> (s.take(i).contains(y) || y == s[i]),
{
    assert(s.take(i + 1) =~= s.take(i).push(s[i]));
    lemma_push_contains(s.take(i), s[i], y);
}

} // verus!
