//! Decimal output of unsigned integers as ASCII digits.

use vstd::prelude::*;

verus! {

/// The ASCII decimal digits of `x`, most significant first, with no
/// leading zeros (`0` is the single digit `0`).
pub open spec fn decimal(x: nat) -> Seq<u8>
    decreases x,
{
    if x < 10 {
        seq![(48 + x) as u8]
    } else {
        decimal(x / 10).push((48 + x % 10) as u8)
    }
}

/// Appends the decimal digits of `x` to `out`.
pub fn push_u32(out: &mut Vec<u8>, x: u32)
    ensures
        final(out)@ == old(out)@ + decimal(x as nat),
{
    if x == 0 {
        out.push(48u8);
        return;
    }
    let ghost x0 = x as nat;
    let mut x = x;
    let mut rev: Vec<u8> = Vec::new();
    while x > 0
        invariant
            x > 0 ==> decimal(x0) == decimal(x as nat) + rev@.reverse(),
            x == 0 ==> decimal(x0) == rev@.reverse(),
            x0 > 0,
        decreases x,
    {
        let d = (x % 10) as u8;
        proof {
            let xs = x as nat;
            assert(rev@.push((48 + d) as u8).reverse() =~= seq![(48 + d) as u8] + rev@.reverse());
            if xs >= 10 {
                assert(decimal(xs) == decimal(xs / 10).push((48 + xs % 10) as u8));
                assert(decimal(xs / 10).push((48 + xs % 10) as u8) + rev@.reverse()
                    =~= decimal(xs / 10) + rev@.push((48 + d) as u8).reverse());
            } else {
                assert(decimal(xs) == seq![(48 + xs) as u8]);
            }
        }
        rev.push(48 + d);
        x = x / 10;
    }
    let mut j = rev.len();
    let ghost base = out@;
    while j > 0
        invariant
            j <= rev@.len(),
            out@ == base + rev@.subrange(j as int, rev@.len() as int).reverse(),
        decreases j,
    {
        j -= 1;
        proof {
            assert(rev@.subrange(j as int, rev@.len() as int).reverse()
                =~= rev@.subrange(j + 1, rev@.len() as int).reverse().push(rev@[j as int]));
        }
        out.push(rev[j]);
    }
    proof {
        assert(rev@.subrange(0, rev@.len() as int) =~= rev@);
    }
}

} // verus!
