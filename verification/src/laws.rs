use vstd::prelude::*;

use crate::parser::{at_not, at_or, Parser, SpecToken};

verus! {

/// The complement law of negation: wherever `NOT x` parses, the
/// documents of `NOT x` and those of `x` are disjoint and together cover
/// the whole universe, and both parses leave the cursor at the same
/// place.
pub proof fn lemma_not_complement(p: Parser, t: Seq<SpecToken>, pos: int)
    requires
        at_not(t, pos),
        p.spec_nots(t, pos) is Some,
    ensures
        match (p.spec_nots(t, pos), p.spec_nots(t, pos + 1)) {
            (Some((ns, np)), Some((xs, xp))) => np == xp && ns.union(xs) =~= p.universe()
                && ns.intersect(xs) =~= Set::<int>::empty(),
            _ => false,
        },
{
    p.lemma_nots_props(t, pos + 1);
    match p.spec_nots(t, pos + 1) {
        Some((xs, xp)) => {
            assert(p.spec_nots(t, pos) == Some((p.universe().difference(xs), xp)));
            assert(p.universe().difference(xs).union(xs) =~= p.universe());
            assert(p.universe().difference(xs).intersect(xs) =~= Set::<int>::empty());
        },
        None => {
            assert(p.spec_nots(t, pos) is None);
        },
    }
}

/// Implicit conjunction: two adjacent terms with no operator between
/// them evaluate exactly as the same terms joined by an explicit "AND".
pub proof fn lemma_implicit_and(p: Parser, a: Seq<Seq<char>>, b: Seq<Seq<char>>)
    ensures
        p.spec_parse(seq![SpecToken::Term(a), SpecToken::Term(b)]) == p.spec_parse(
            seq![SpecToken::Term(a), SpecToken::And, SpecToken::Term(b)],
        ),
        p.spec_parse(seq![SpecToken::Term(a), SpecToken::Term(b)]) == Some(
            p.term_docs(a).intersect(p.term_docs(b)),
        ),
{
    let ta = SpecToken::Term(a);
    let tb = SpecToken::Term(b);
    let t1 = seq![ta, tb];
    let t2 = seq![ta, SpecToken::And, tb];
    let sa = p.term_docs(a);
    let sb = p.term_docs(b);

    assert(t1.len() == 2 && t1[0] == ta && t1[1] == tb);
    assert(p.spec_word(t1, 0) == Some((sa, 1int)));
    assert(p.spec_parens(t1, 0) == Some((sa, 1int)));
    assert(p.spec_nots(t1, 0) == Some((sa, 1int)));
    assert(p.spec_word(t1, 1) == Some((sb, 2int)));
    assert(p.spec_parens(t1, 1) == Some((sb, 2int)));
    assert(p.spec_nots(t1, 1) == Some((sb, 2int)));
    assert(p.spec_ands(t1, 1) == Some((sb, 2int)));
    assert(p.spec_ands(t1, 0) == Some((sa.intersect(sb), 2int)));
    assert(p.spec_ors(t1, 0) == Some((sa.intersect(sb), 2int)));
    assert(p.spec_parse(t1) == Some(sa.intersect(sb)));

    assert(t2.len() == 3 && t2[0] == ta && t2[1] == SpecToken::And && t2[2] == tb);
    assert(p.spec_word(t2, 0) == Some((sa, 1int)));
    assert(p.spec_parens(t2, 0) == Some((sa, 1int)));
    assert(p.spec_nots(t2, 0) == Some((sa, 1int)));
    assert(p.spec_word(t2, 2) == Some((sb, 3int)));
    assert(p.spec_parens(t2, 2) == Some((sb, 3int)));
    assert(p.spec_nots(t2, 2) == Some((sb, 3int)));
    assert(p.spec_ands(t2, 2) == Some((sb, 3int)));
    assert(p.spec_ands(t2, 0) == Some((sa.intersect(sb), 3int)));
    assert(p.spec_ors(t2, 0) == Some((sa.intersect(sb), 3int)));
    assert(p.spec_parse(t2) == Some(sa.intersect(sb)));
}

/// Evaluating `x OR y` for two single terms yields the union of their
/// document sets.
proof fn lemma_or_pair(p: Parser, a: Seq<Seq<char>>, b: Seq<Seq<char>>)
    ensures
        p.spec_parse(seq![SpecToken::Term(a), SpecToken::Or, SpecToken::Term(b)]) == Some(
            p.term_docs(a).union(p.term_docs(b)),
        ),
{
    let ta = SpecToken::Term(a);
    let tb = SpecToken::Term(b);
    let t = seq![ta, SpecToken::Or, tb];
    let sa = p.term_docs(a);
    let sb = p.term_docs(b);
    assert(t.len() == 3 && t[0] == ta && t[1] == SpecToken::Or && t[2] == tb);
    assert(p.spec_word(t, 0) == Some((sa, 1int)));
    assert(p.spec_parens(t, 0) == Some((sa, 1int)));
    assert(p.spec_nots(t, 0) == Some((sa, 1int)));
    assert(p.spec_ands(t, 0) == Some((sa, 1int)));
    assert(p.spec_word(t, 2) == Some((sb, 3int)));
    assert(p.spec_parens(t, 2) == Some((sb, 3int)));
    assert(p.spec_nots(t, 2) == Some((sb, 3int)));
    assert(p.spec_ands(t, 2) == Some((sb, 3int)));
    assert(p.spec_ors(t, 2) == Some((sb, 3int)));
    assert(at_or(t, 1));
    assert(p.spec_ors(t, 0) == Some((sa.union(sb), 3int)));
    assert(p.spec_parse(t) == Some(sa.union(sb)));
}

/// Commutativity of "OR": exchanging the operands of a disjunction of
/// two terms does not change the matched documents.
pub proof fn lemma_or_commutative(p: Parser, a: Seq<Seq<char>>, b: Seq<Seq<char>>)
    ensures
        p.spec_parse(seq![SpecToken::Term(a), SpecToken::Or, SpecToken::Term(b)]) == p.spec_parse(
            seq![SpecToken::Term(b), SpecToken::Or, SpecToken::Term(a)],
        ),
{
    lemma_or_pair(p, a, b);
    lemma_or_pair(p, b, a);
    assert(p.term_docs(a).union(p.term_docs(b)) =~= p.term_docs(b).union(p.term_docs(a)));
}

/// Reordering the operands of a three-way disjunction does not change
/// the matched documents: swapping the first two, or reversing all
/// three, evaluates to the same set.
pub proof fn lemma_or_operand_order(
    p: Parser,
    a: Seq<Seq<char>>,
    b: Seq<Seq<char>>,
    c: Seq<Seq<char>>,
)
    ensures
        p.spec_parse(
            seq![
                SpecToken::Term(a),
                SpecToken::Or,
                SpecToken::Term(b),
                SpecToken::Or,
                SpecToken::Term(c),
            ],
        ) == p.spec_parse(
            seq![
                SpecToken::Term(b),
                SpecToken::Or,
                SpecToken::Term(a),
                SpecToken::Or,
                SpecToken::Term(c),
            ],
        ),
        p.spec_parse(
            seq![
                SpecToken::Term(a),
                SpecToken::Or,
                SpecToken::Term(b),
                SpecToken::Or,
                SpecToken::Term(c),
            ],
        ) == p.spec_parse(
            seq![
                SpecToken::Term(c),
                SpecToken::Or,
                SpecToken::Term(b),
                SpecToken::Or,
                SpecToken::Term(a),
            ],
        ),
{
    lemma_or_associative(p, a, b, c);
    lemma_or_associative(p, b, a, c);
    lemma_or_associative(p, c, b, a);
    let sa = p.term_docs(a);
    let sb = p.term_docs(b);
    let sc = p.term_docs(c);
    assert(sa.union(sb).union(sc) =~= sb.union(sa).union(sc));
    assert(sa.union(sb).union(sc) =~= sc.union(sb).union(sa));
}

/// Associativity of "OR": `a OR b OR c` evaluates to the same documents
/// under either explicit parenthesization.
pub proof fn lemma_or_associative(
    p: Parser,
    a: Seq<Seq<char>>,
    b: Seq<Seq<char>>,
    c: Seq<Seq<char>>,
)
    ensures
        p.spec_parse(
            seq![
                SpecToken::Term(a),
                SpecToken::Or,
                SpecToken::Term(b),
                SpecToken::Or,
                SpecToken::Term(c),
            ],
        ) == Some(p.term_docs(a).union(p.term_docs(b)).union(p.term_docs(c))),
        p.spec_parse(
            seq![
                SpecToken::LParen,
                SpecToken::Term(a),
                SpecToken::Or,
                SpecToken::Term(b),
                SpecToken::RParen,
                SpecToken::Or,
                SpecToken::Term(c),
            ],
        ) == Some(p.term_docs(a).union(p.term_docs(b)).union(p.term_docs(c))),
        p.spec_parse(
            seq![
                SpecToken::Term(a),
                SpecToken::Or,
                SpecToken::LParen,
                SpecToken::Term(b),
                SpecToken::Or,
                SpecToken::Term(c),
                SpecToken::RParen,
            ],
        ) == Some(p.term_docs(a).union(p.term_docs(b)).union(p.term_docs(c))),
{
    let ta = SpecToken::Term(a);
    let tb = SpecToken::Term(b);
    let tc = SpecToken::Term(c);
    let sa = p.term_docs(a);
    let sb = p.term_docs(b);
    let sc = p.term_docs(c);

    // a OR b OR c, parsed with right recursion: a OR (b OR c)
    let tf = seq![ta, SpecToken::Or, tb, SpecToken::Or, tc];
    assert(tf.len() == 5 && tf[0] == ta && tf[1] == SpecToken::Or && tf[2] == tb && tf[3]
        == SpecToken::Or && tf[4] == tc);
    assert(p.spec_word(tf, 4) == Some((sc, 5int)));
    assert(p.spec_parens(tf, 4) == Some((sc, 5int)));
    assert(p.spec_nots(tf, 4) == Some((sc, 5int)));
    assert(p.spec_ands(tf, 4) == Some((sc, 5int)));
    assert(p.spec_ors(tf, 4) == Some((sc, 5int)));
    assert(p.spec_word(tf, 2) == Some((sb, 3int)));
    assert(p.spec_parens(tf, 2) == Some((sb, 3int)));
    assert(p.spec_nots(tf, 2) == Some((sb, 3int)));
    assert(p.spec_ands(tf, 2) == Some((sb, 3int)));
    assert(p.spec_ors(tf, 2) == Some((sb.union(sc), 5int)));
    assert(p.spec_word(tf, 0) == Some((sa, 1int)));
    assert(p.spec_parens(tf, 0) == Some((sa, 1int)));
    assert(p.spec_nots(tf, 0) == Some((sa, 1int)));
    assert(p.spec_ands(tf, 0) == Some((sa, 1int)));
    assert(p.spec_ors(tf, 0) == Some((sa.union(sb.union(sc)), 5int)));
    assert(p.spec_parse(tf) == Some(sa.union(sb.union(sc))));
    assert(sa.union(sb.union(sc)) =~= sa.union(sb).union(sc));

    // ( a OR b ) OR c
    let tl = seq![SpecToken::LParen, ta, SpecToken::Or, tb, SpecToken::RParen, SpecToken::Or, tc];
    assert(tl.len() == 7 && tl[0] == SpecToken::LParen && tl[1] == ta && tl[2] == SpecToken::Or
        && tl[3] == tb && tl[4] == SpecToken::RParen && tl[5] == SpecToken::Or && tl[6] == tc);
    assert(p.spec_word(tl, 3) == Some((sb, 4int)));
    assert(p.spec_parens(tl, 3) == Some((sb, 4int)));
    assert(p.spec_nots(tl, 3) == Some((sb, 4int)));
    assert(p.spec_ands(tl, 3) == Some((sb, 4int)));
    assert(p.spec_ors(tl, 3) == Some((sb, 4int)));
    assert(p.spec_word(tl, 1) == Some((sa, 2int)));
    assert(p.spec_parens(tl, 1) == Some((sa, 2int)));
    assert(p.spec_nots(tl, 1) == Some((sa, 2int)));
    assert(p.spec_ands(tl, 1) == Some((sa, 2int)));
    assert(p.spec_ors(tl, 1) == Some((sa.union(sb), 4int)));
    assert(p.spec_parens(tl, 0) == Some((sa.union(sb), 5int)));
    assert(p.spec_nots(tl, 0) == Some((sa.union(sb), 5int)));
    assert(p.spec_ands(tl, 0) == Some((sa.union(sb), 5int)));
    assert(p.spec_word(tl, 6) == Some((sc, 7int)));
    assert(p.spec_parens(tl, 6) == Some((sc, 7int)));
    assert(p.spec_nots(tl, 6) == Some((sc, 7int)));
    assert(p.spec_ands(tl, 6) == Some((sc, 7int)));
    assert(p.spec_ors(tl, 6) == Some((sc, 7int)));
    assert(p.spec_ors(tl, 0) == Some((sa.union(sb).union(sc), 7int)));
    assert(p.spec_parse(tl) == Some(sa.union(sb).union(sc)));

    // a OR ( b OR c )
    let tr = seq![ta, SpecToken::Or, SpecToken::LParen, tb, SpecToken::Or, tc, SpecToken::RParen];
    assert(tr.len() == 7 && tr[0] == ta && tr[1] == SpecToken::Or && tr[2] == SpecToken::LParen
        && tr[3] == tb && tr[4] == SpecToken::Or && tr[5] == tc && tr[6] == SpecToken::RParen);
    assert(p.spec_word(tr, 5) == Some((sc, 6int)));
    assert(p.spec_parens(tr, 5) == Some((sc, 6int)));
    assert(p.spec_nots(tr, 5) == Some((sc, 6int)));
    assert(p.spec_ands(tr, 5) == Some((sc, 6int)));
    assert(p.spec_ors(tr, 5) == Some((sc, 6int)));
    assert(p.spec_word(tr, 3) == Some((sb, 4int)));
    assert(p.spec_parens(tr, 3) == Some((sb, 4int)));
    assert(p.spec_nots(tr, 3) == Some((sb, 4int)));
    assert(p.spec_ands(tr, 3) == Some((sb, 4int)));
    assert(p.spec_ors(tr, 3) == Some((sb.union(sc), 6int)));
    assert(p.spec_parens(tr, 2) == Some((sb.union(sc), 7int)));
    assert(p.spec_nots(tr, 2) == Some((sb.union(sc), 7int)));
    assert(p.spec_ands(tr, 2) == Some((sb.union(sc), 7int)));
    assert(p.spec_ors(tr, 2) == Some((sb.union(sc), 7int)));
    assert(p.spec_word(tr, 0) == Some((sa, 1int)));
    assert(p.spec_parens(tr, 0) == Some((sa, 1int)));
    assert(p.spec_nots(tr, 0) == Some((sa, 1int)));
    assert(p.spec_ands(tr, 0) == Some((sa, 1int)));
    assert(p.spec_ors(tr, 0) == Some((sa.union(sb.union(sc)), 7int)));
    assert(p.spec_parse(tr) == Some(sa.union(sb.union(sc))));
}

} // verus!
