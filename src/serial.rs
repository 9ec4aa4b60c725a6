//! Serial numbers: minimal big-endian two's-complement octets of a non-negative integer.
use vstd::prelude::*;
use crate::certificate::valid_serial;

verus! {

/// The unsigned big-endian value of `s`.
pub open spec fn be_value(s: Seq<u8>) -> nat
    decreases s.len(),
{
    if s.len() == 0 {
        0
    } else {
        be_value(s.drop_last()) * 256 + s.last() as nat
    }
}

/// The unsigned little-endian value of `s`.
pub open spec fn le_value(s: Seq<u8>) -> nat
    decreases s.len(),
{
    if s.len() == 0 {
        0
    } else {
        s[0] as nat + 256 * le_value(s.drop_first())
    }
}

pub open spec fn pow256(k: nat) -> nat
    decreases k,
{
    if k == 0 {
        1
    } else {
        256 * pow256((k - 1) as nat)
    }
}

proof fn lemma_le_push(s: Seq<u8>, d: u8)
    ensures
        le_value(s.push(d)) == le_value(s) + pow256(s.len()) * d,
    decreases s.len(),
{
    if s.len() > 0 {
        assert(s.push(d).drop_first() =~= s.drop_first().push(d));
        lemma_le_push(s.drop_first(), d);
        assert(pow256(s.len()) == 256 * pow256((s.len() - 1) as nat));
        let p = pow256((s.len() - 1) as nat);
        assert(256 * (le_value(s.drop_first()) + p * d) == 256 * le_value(s.drop_first()) + (256 * p) * d)
            by (nonlinear_arith);
        assert(s.push(d)[0] == s[0]);
    } else {
        assert(s.push(d).drop_first() =~= Seq::<u8>::empty());
        assert(le_value(Seq::<u8>::empty()) == 0);
        assert(le_value(s) == 0);
        assert(pow256(0) == 1);
    }
}

proof fn lemma_be_of_reverse(s: Seq<u8>)
    ensures
        be_value(s.reverse()) == le_value(s),
    decreases s.len(),
{
    if s.len() > 0 {
        lemma_be_of_reverse(s.drop_first());
        assert(s.reverse().drop_last() =~= s.drop_first().reverse());
        assert(s.reverse().last() == s[0]);
    }
}

proof fn lemma_be_leading_zero(s: Seq<u8>)
    ensures
        be_value(seq![0u8] + s) == be_value(s),
    decreases s.len(),
{
    if s.len() > 0 {
        assert((seq![0u8] + s).drop_last() =~= seq![0u8] + s.drop_last());
        lemma_be_leading_zero(s.drop_last());
        assert((seq![0u8] + s).last() == s.last());
    } else {
        assert((seq![0u8] + s).drop_last() =~= Seq::<u8>::empty());
        assert(be_value(Seq::<u8>::empty()) == 0);
        assert(seq![0u8] + s =~= seq![0u8]);
    }
}

proof fn lemma_pow256_positive(k: nat)
    ensures
        pow256(k) >= 1,
    decreases k,
{
    if k > 0 {
        lemma_pow256_positive((k - 1) as nat);
    }
}

/// The serial-number octets of `n`: big-endian, no leading zero octet unless the next
/// octet has its high bit set, so that the value reads as non-negative.
pub fn serial_number_from_u64(n: u64) -> (r: Vec<u8>)
    ensures
        be_value(r@) == n,
        valid_serial(r@),
        r@[0] < 0x80,
        1 <= r@.len() <= 9,
{
    let mut le: Vec<u8> = Vec::new();
    let mut m: u64 = n;
    assert(le_value(le@) == 0 && pow256(0) == 1);
    while m > 0
        invariant
            n == le_value(le@) + pow256(le@.len()) * m,
            le@.len() <= 8,
            m > 0 ==> pow256(le@.len()) * m <= u64::MAX,
            le@.len() > 0 && m == 0 ==> le@.last() != 0,
            le@.len() == 8 ==> m == 0,
        decreases m,
    {
        let d = (m % 256) as u8;
        let ghost old_le = le@;
        le.push(d);
        proof {
            lemma_le_push(old_le, d);
            let p = pow256(old_le.len());
            lemma_pow256_positive(old_le.len());
            assert(pow256(le@.len()) == 256 * p);
            assert(p * m == p * d + (256 * p) * (m / 256)) by (nonlinear_arith)
                requires
                    d == m % 256,
                    m >= 0,
            ;
            assert(m / 256 > 0 ==> (256 * p) * (m / 256) <= p * m) by (nonlinear_arith)
                requires
                    d == m % 256,
                    p >= 1,
            ;
        }
        m = m / 256;
        proof {
            if le@.len() == 8 && m > 0 {
                reveal_with_fuel(pow256, 9);
                assert(pow256(8) == 0x1_0000_0000_0000_0000);
                assert(pow256(8) * m > u64::MAX) by (nonlinear_arith)
                    requires
                        pow256(8) == 0x1_0000_0000_0000_0000,
                        m >= 1,
                ;
            }
        }
    }
    if le.len() == 0 {
        le.push(0);
        assert(be_value(le@) == 0) by {
            assert(le@.drop_last() =~= Seq::<u8>::empty());
            assert(be_value(Seq::<u8>::empty()) == 0);
        }
        return le;
    }
    let mut r: Vec<u8> = Vec::new();
    let top = le[le.len() - 1];
    if top >= 0x80 {
        r.push(0);
    }
    let ghost prefix = r@;
    let mut i: usize = le.len();
    while i > 0
        invariant
            i <= le@.len(),
            r@ == prefix + le@.subrange(i as int, le@.len() as int).reverse(),
        decreases i,
    {
        i -= 1;
        r.push(le[i]);
        assert(r@ =~= prefix + le@.subrange(i as int, le@.len() as int).reverse());
    }
    proof {
        assert(le@.subrange(0, le@.len() as int) =~= le@);
        lemma_be_of_reverse(le@);
        lemma_be_leading_zero(le@.reverse());
        assert(le@.reverse()[0] == top);
    }
    r
}

} // verus!
