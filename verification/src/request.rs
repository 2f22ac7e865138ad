use vstd::prelude::*;

use vstd::string::StringExecFns;

verus! {

/// What the form decoder yields for a query string: its name/value
/// pairs in order, percent-decoding and plus-for-space applied.  The
/// pairs are a function of the query text alone.
pub uninterp spec fn form_decoded_pairs(q: Seq<char>) -> Seq<(Seq<char>, Seq<char>)>;

/// Relies on url::form_urlencoded::parse: decodes a query string into
/// its name/value pairs, in order.
#[verifier::external_body]
fn form_pairs(query: &str) -> (r: Vec<(String, String)>)
    ensures
        r.deep_view() == form_decoded_pairs(query@),
{
    url::form_urlencoded::parse(query.as_bytes()).into_owned().collect()
}

/// The value of the first `q` field among decoded pairs.
pub open spec fn spec_first_q(ps: Seq<(Seq<char>, Seq<char>)>) -> Option<Seq<char>>
    decreases ps.len(),
{
    if ps.len() == 0 {
        None
    } else if ps[0].0 == "q"@ {
        Some(ps[0].1)
    } else {
        spec_first_q(ps.drop_first())
    }
}

/// The search text of a request: the value of the first `q` field of
/// its decoded query string, or nothing if the query has no such field.
pub fn get_q(query: &str) -> (r: Option<String>)
    ensures
        match r {
            Some(v) => spec_first_q(form_decoded_pairs(query@)) == Some(v@),
            None => spec_first_q(form_decoded_pairs(query@)) is None,
        },
{
    let pairs = form_pairs(query);
    let ghost ps = form_decoded_pairs(query@);
    let n = pairs.len();
    let key = String::from_str("q");
    proof {
        assert(ps.skip(0) =~= ps);
    }
    let mut i: usize = 0;
    while i < n
        invariant
            i <= n,
            n == ps.len(),
            ps == pairs.deep_view(),
            ps == form_decoded_pairs(query@),
            key@ == "q"@,
            spec_first_q(ps.skip(i as int)) == spec_first_q(ps),
        decreases n - i,
    {
        proof {
            assert(pairs.deep_view()[i as int] == pairs@[i as int].deep_view());
            assert(ps.skip(i as int)[0] == ps[i as int]);
            assert(ps.skip(i as int).drop_first() =~= ps.skip(i as int + 1));
        }
        if pairs[i].0 == key {
            let v = pairs[i].1.clone();
            proof {
                assert(ps[i as int].0 == "q"@);
                assert(spec_first_q(ps.skip(i as int)) == Some(ps[i as int].1));
                assert(v@ == ps[i as int].1);
            }
            return Some(v);
        }
        i += 1;
    }
    proof {
        assert(ps.skip(n as int) =~= Seq::<(Seq<char>, Seq<char>)>::empty());
    }
    None
}

} // verus!
