use vstd::prelude::*;

use ruint::aliases::U256;

verus! {

/// 2^64.
pub open spec fn limb_base() -> nat {
    0x1_0000_0000_0000_0000
}

/// 2^256, the first value that a `Wide` cannot hold.
pub open spec fn wide_modulus() -> nat {
    limb_base() * limb_base() * limb_base() * limb_base()
}

/// A 256-bit unsigned integer, as four 64-bit limbs, least significant first.
#[derive(Clone, Copy)]
pub struct Wide {
    pub limbs: [u64; 4],
}

impl Wide {
    /// The number that the limbs stand for.
    pub open spec fn value(self) -> nat {
        self.limbs@[0] as nat + limb_base() * (self.limbs@[1] as nat + limb_base() * (
        self.limbs@[2] as nat + limb_base() * self.limbs@[3] as nat))
    }
}

/// Every `Wide` is below 2^256.
pub proof fn lemma_wide_bounded(w: Wide)
    ensures
        w.value() < wide_modulus(),
{
    let b = limb_base() as int;
    let l0 = w.limbs@[0] as int;
    let l1 = w.limbs@[1] as int;
    let l2 = w.limbs@[2] as int;
    let l3 = w.limbs@[3] as int;
    assert(l0 + b * (l1 + b * (l2 + b * l3)) < b * b * b * b) by (nonlinear_arith)
        requires
            0 <= l0 < b,
            0 <= l1 < b,
            0 <= l2 < b,
            0 <= l3 < b,
    {
        assert(l2 + b * l3 <= b * b - 1) by {
            assert(b * l3 <= b * (b - 1));
        }
        assert(l1 + b * (l2 + b * l3) <= b * b * b - 1) by {
            assert(b * (l2 + b * l3) <= b * (b * b - 1));
        }
        assert(b * (l1 + b * (l2 + b * l3)) <= b * (b * b * b - 1));
    }
}

/// The 256-bit form of a `u128`.
pub(crate) fn wide_from_u128(x: u128) -> (r: Wide)
    ensures
        r.value() == x,
{
    let lo = (x % 0x1_0000_0000_0000_0000) as u64;
    let hi = (x / 0x1_0000_0000_0000_0000) as u64;
    let r = Wide { limbs: [lo, hi, 0, 0] };
    assert(r.limbs@[0] == lo && r.limbs@[1] == hi && r.limbs@[2] == 0 && r.limbs@[3] == 0);
    r
}

/// The `u128` that a `Wide` holds, if it fits.
pub(crate) fn wide_to_u128(w: Wide) -> (r: Option<u128>)
    ensures
        w.value() <= u128::MAX ==> r == Some(w.value() as u128),
        w.value() > u128::MAX ==> r is None,
{
    let l0 = w.limbs[0];
    let l1 = w.limbs[1];
    let l2 = w.limbs[2];
    let l3 = w.limbs[3];
    let ghost b = limb_base() as int;
    if l2 == 0 && l3 == 0 {
        assert(l1 as int * b + l0 as int <= u128::MAX) by (nonlinear_arith)
            requires
                0 <= l1 < b,
                0 <= l0 < b,
                b == 0x1_0000_0000_0000_0000int,
        {
            assert(l1 as int * b <= (b - 1) * b);
        }
        Some(l0 as u128 + (l1 as u128) * 0x1_0000_0000_0000_0000)
    } else {
        assert(w.value() > u128::MAX) by (nonlinear_arith)
            requires
                w.value() == l0 as int + b * (l1 as int + b * (l2 as int + b * l3 as int)),
                l2 > 0 || l3 > 0,
                0 <= l0,
                0 <= l1,
                0 <= l2,
                0 <= l3,
                b == 0x1_0000_0000_0000_0000int,
        {
            assert(l2 as int + b * l3 as int >= 1);
            assert(b * (l2 as int + b * l3 as int) >= b);
            assert(l1 as int + b * (l2 as int + b * l3 as int) >= b);
            assert(b * (l1 as int + b * (l2 as int + b * l3 as int)) >= b * b);
        }
        None
    }
}

/// Relies on ruint's `Uint::checked_mul`: the exact product, or `None` past 256 bits.
#[verifier::external_body]
pub(crate) fn wide_checked_mul(a: Wide, b: Wide) -> (r: Option<Wide>)
    ensures
        a.value() * b.value() < wide_modulus() ==> r is Some && r->0.value() == a.value() * b.value(),
        a.value() * b.value() >= wide_modulus() ==> r is None,
{
    match U256::from_limbs(a.limbs).checked_mul(U256::from_limbs(b.limbs)) {
        Some(p) => Some(Wide { limbs: p.into_limbs() }),
        None => None,
    }
}

/// Relies on ruint's `Uint::checked_add`: the exact sum, or `None` past 256 bits.
#[verifier::external_body]
pub(crate) fn wide_checked_add(a: Wide, b: Wide) -> (r: Option<Wide>)
    ensures
        a.value() + b.value() < wide_modulus() ==> r is Some && r->0.value() == a.value() + b.value(),
        a.value() + b.value() >= wide_modulus() ==> r is None,
{
    match U256::from_limbs(a.limbs).checked_add(U256::from_limbs(b.limbs)) {
        Some(s) => Some(Wide { limbs: s.into_limbs() }),
        None => None,
    }
}

/// Relies on ruint's `Uint::div_rem`: the quotient rounded down (the remainder is dropped).
#[verifier::external_body]
pub(crate) fn wide_div_floor(a: Wide, d: Wide) -> (r: Wide)
    requires
        d.value() > 0,
    ensures
        r.value() == a.value() / d.value(),
{
    let (q, _) = U256::from_limbs(a.limbs).div_rem(U256::from_limbs(d.limbs));
    Wide { limbs: q.into_limbs() }
}

/// Relies on ruint's `Uint::div_ceil`: the quotient rounded up.
#[verifier::external_body]
pub(crate) fn wide_div_ceil(a: Wide, d: Wide) -> (r: Wide)
    requires
        d.value() > 0,
    ensures
        a.value() % d.value() == 0 ==> r.value() == a.value() / d.value(),
        a.value() % d.value() != 0 ==> r.value() == a.value() / d.value() + 1,
{
    Wide { limbs: U256::from_limbs(a.limbs).div_ceil(U256::from_limbs(d.limbs)).into_limbs() }
}

/// Relies on ruint's `Uint::root` with degree 2: the floor of the square root.
#[verifier::external_body]
pub(crate) fn wide_sqrt(a: Wide) -> (r: Wide)
    ensures
        r.value() * r.value() <= a.value(),
        a.value() < (r.value() + 1) * (r.value() + 1),
{
    Wide { limbs: U256::from_limbs(a.limbs).root(2).into_limbs() }
}

} // verus!
