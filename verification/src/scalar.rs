//! The scalar type itself: elements of `Z/nZ` for a curve's group order `n`,
//! kept canonical in `[0, n)` from construction on, with modular arithmetic,
//! ordering, byte codecs, random sampling, and zeroization.

use crate::limb::{
    bytes_be_value, bytes_le_value, bytes_reversed, le_bytes_to_limbs, lemma_limbs_value_low,
    lemma_limbs_value_lower, lemma_limbs_value_parity, lemma_limbs_value_zero,
    lemma_limbs_value_injective, limbs_add_mod, limbs_eq, limbs_is_zero, limbs_lt,
    limbs_neg_mod, limbs_select, limbs_sub_mod, limbs_to_le_bytes, limbs_value, limbs_zero,
};
use rand_core::RngCore;
use vstd::arithmetic::div_mod::{lemma_mod_multiples_vanish, lemma_small_mod};
use vstd::arithmetic::power2::{lemma2_to64, lemma_pow2_strictly_increases};
use vstd::prelude::*;
use zeroize::Zeroize;

verus! {

/// The error for malformed input: a byte slice of the wrong length, or a
/// decoded value outside the canonical range. Deliberately carries no detail
/// about why a value was rejected.
#[derive(Clone, Copy, PartialEq, Eq, Debug)]
pub struct Error;

/// A curve descriptor: the scalar field's modulus (the curve's group order)
/// as a little-endian limb vector, which also fixes the byte width of the
/// canonical encodings.
#[derive(Debug)]
pub struct Curve {
    order: Vec<u64>,
}

impl Curve {
    /// The modulus `n`.
    pub closed spec fn modulus(&self) -> nat {
        limbs_value(self.order@)
    }

    /// The modulus's limbs.
    pub closed spec fn order_limbs(&self) -> Seq<u64> {
        self.order@
    }

    /// The width in limbs of every scalar of this curve.
    pub closed spec fn width(&self) -> nat {
        self.order@.len()
    }

    /// A usable descriptor: a positive width whose encodings fit in memory,
    /// and a modulus above one, so that zero and one are scalars.
    pub open spec fn wf(&self) -> bool {
        &&& self.width() >= 1
        &&& 8 * self.width() <= usize::MAX
        &&& self.modulus() >= 2
    }

    /// Accepts a modulus given as little-endian limbs. Succeeds exactly when
    /// the limb vector is nonempty, small enough that its byte width fits in
    /// memory, and worth at least two.
    pub fn new(order: Vec<u64>) -> (r: Option<Curve>)
        ensures
            (r is Some) <==> (order@.len() >= 1 && 8 * order@.len() <= usize::MAX && limbs_value(
                order@,
            ) >= 2),
            r matches Some(c) ==> c.wf() && c.modulus() == limbs_value(order@) && c.width()
                == order@.len() && c.order_limbs() == order@,
    {
        let k: usize = order.len();
        if k == 0 || k > usize::MAX / 8 {
            proof {
                if k > usize::MAX / 8 {
                    assert(8 * order@.len() > usize::MAX);
                }
            }
            return None;
        }
        let mut acc: u64 = 0;
        let mut i: usize = 1;
        while i < k
            invariant
                1 <= i <= k,
                k == order@.len(),
                (acc == 0) <==> (forall|j: int| 1 <= j < i ==> order@[j] == 0),
            decreases k - i,
        {
            let oi: u64 = order[i];
            proof {
                assert(((acc | oi) == 0) <==> (acc == 0 && oi == 0)) by (bit_vector);
            }
            acc = acc | oi;
            i = i + 1;
        }
        let big: bool = acc != 0;
        let ok: bool = big || order[0] >= 2;
        proof {
            if big {
                let j = choose|j: int| 1 <= j < k && order@[j] != 0;
                lemma_limbs_value_lower(order@, j);
                lemma_pow2_strictly_increases(0, (64 * j) as nat);
                lemma2_to64();
            } else {
                lemma_limbs_value_low(order@);
            }
        }
        if ok {
            Some(Curve { order })
        } else {
            None
        }
    }

    /// Borrows the modulus's little-endian limbs.
    pub fn order(&self) -> (r: &Vec<u64>)
        ensures
            r@ == self.order_limbs(),
            limbs_value(r@) == self.modulus(),
    {
        &self.order
    }

    /// The byte width of the canonical encodings.
    pub fn byte_size(&self) -> (r: usize)
        requires
            self.wf(),
        ensures
            r == 8 * self.width(),
    {
        8 * self.order.len()
    }
}

/// A scalar: an element of `Z/nZ`, held as a little-endian limb vector that
/// every constructor proves canonical, below the modulus of its curve.
#[derive(Debug)]
pub struct ScalarCore {
    inner: Vec<u64>,
}

impl ScalarCore {
    /// The limbs of the scalar's fixed-width integer.
    pub closed spec fn limbs(&self) -> Seq<u64> {
        self.inner@
    }

    /// The mathematical value of the scalar.
    pub open spec fn value(&self) -> nat {
        limbs_value(self.limbs())
    }

    /// The width in limbs.
    pub open spec fn limb_width(&self) -> nat {
        self.limbs().len()
    }

    /// Canonical for a curve: the right width, and reduced below the modulus.
    pub open spec fn wf(&self, c: &Curve) -> bool {
        self.limb_width() == c.width() && self.value() < c.modulus()
    }

    /// The scalar zero, the additive identity.
    pub fn zero(c: &Curve) -> (r: ScalarCore)
        requires
            c.wf(),
        ensures
            r.wf(c),
            r.value() == 0,
    {
        ScalarCore { inner: limbs_zero(c.order.len()) }
    }

    /// The scalar one, the multiplicative identity.
    pub fn one(c: &Curve) -> (r: ScalarCore)
        requires
            c.wf(),
        ensures
            r.wf(c),
            r.value() == 1,
    {
        Self::from_u64(1, c)
    }

    /// Embeds a small integer, valid whenever it is below the modulus; for
    /// a cryptographic curve the modulus exceeds every 64-bit value.
    pub fn from_u64(x: u64, c: &Curve) -> (r: ScalarCore)
        requires
            c.wf(),
            x < c.modulus(),
        ensures
            r.wf(c),
            r.value() == x,
    {
        let k: usize = c.order.len();
        let mut inner: Vec<u64> = Vec::new();
        inner.push(x);
        let mut i: usize = 1;
        while i < k
            invariant
                1 <= i <= k,
                inner@.len() == i,
                inner@[0] == x,
                forall|j: int| 1 <= j < i ==> inner@[j] == 0,
            decreases k - i,
        {
            inner.push(0u64);
            i = i + 1;
        }
        proof {
            lemma_limbs_value_low(inner@);
        }
        ScalarCore { inner }
    }

    /// Validated construction from a fixed-width integer: succeeds exactly
    /// when the value is already canonical, and never otherwise. The range
    /// test is a full borrow chain with no early exit.
    pub fn new(uint: Vec<u64>, c: &Curve) -> (r: Option<ScalarCore>)
        requires
            c.wf(),
            uint@.len() == c.width(),
        ensures
            (r is Some) <==> limbs_value(uint@) < c.modulus(),
            r matches Some(s) ==> s.wf(c) && s.value() == limbs_value(uint@) && s.limbs()
                == uint@,
    {
        let in_range: bool = limbs_lt(&uint, &c.order);
        if in_range {
            Some(ScalarCore { inner: uint })
        } else {
            None
        }
    }

    /// Decodes a fixed-width big-endian byte vector, then applies the same
    /// range check as `new`.
    pub fn from_be_bytes(bytes: &Vec<u8>, c: &Curve) -> (r: Option<ScalarCore>)
        requires
            c.wf(),
            bytes@.len() == 8 * c.width(),
        ensures
            (r is Some) <==> bytes_be_value(bytes@) < c.modulus(),
            r matches Some(s) ==> s.wf(c) && s.value() == bytes_be_value(bytes@),
    {
        let le = bytes_reversed(bytes);
        Self::from_le_bytes(&le, c)
    }

    /// Decodes a fixed-width little-endian byte vector, then applies the
    /// same range check as `new`.
    pub fn from_le_bytes(bytes: &Vec<u8>, c: &Curve) -> (r: Option<ScalarCore>)
        requires
            c.wf(),
            bytes@.len() == 8 * c.width(),
        ensures
            (r is Some) <==> bytes_le_value(bytes@) < c.modulus(),
            r matches Some(s) ==> s.wf(c) && s.value() == bytes_le_value(bytes@),
    {
        let limbs = le_bytes_to_limbs(bytes);
        Self::new(limbs, c)
    }

    /// Decodes a big-endian byte slice of any length: rejected outright
    /// (lengths are public) unless exactly the curve's byte width, then
    /// decoded as `from_be_bytes`, with an absent value mapped to `Error`.
    pub fn from_be_slice(slice: &[u8], c: &Curve) -> (r: Result<ScalarCore, Error>)
        requires
            c.wf(),
        ensures
            (r is Ok) <==> (slice@.len() == 8 * c.width() && bytes_be_value(slice@) < c.modulus()),
            r matches Ok(s) ==> s.wf(c) && s.value() == bytes_be_value(slice@),
    {
        if slice.len() != c.byte_size() {
            return Err(Error);
        }
        let bytes = vstd::slice::slice_to_vec(slice);
        match Self::from_be_bytes(&bytes, c) {
            Some(s) => Ok(s),
            None => Err(Error),
        }
    }

    /// Decodes a little-endian byte slice of any length, as `from_be_slice`.
    pub fn from_le_slice(slice: &[u8], c: &Curve) -> (r: Result<ScalarCore, Error>)
        requires
            c.wf(),
        ensures
            (r is Ok) <==> (slice@.len() == 8 * c.width() && bytes_le_value(slice@) < c.modulus()),
            r matches Ok(s) ==> s.wf(c) && s.value() == bytes_le_value(slice@),
    {
        if slice.len() != c.byte_size() {
            return Err(Error);
        }
        let bytes = vstd::slice::slice_to_vec(slice);
        match Self::from_le_bytes(&bytes, c) {
            Some(s) => Ok(s),
            None => Err(Error),
        }
    }

    /// Encodes as big-endian bytes: total, lossless, the inverse of
    /// `from_be_bytes` on every scalar.
    pub fn to_be_bytes(&self) -> (r: Vec<u8>)
        ensures
            r@.len() == 8 * self.limb_width(),
            bytes_be_value(r@) == self.value(),
    {
        let le = limbs_to_le_bytes(&self.inner);
        let r = bytes_reversed(&le);
        proof {
            assert(r@.reverse() =~= le@);
        }
        r
    }

    /// Encodes as little-endian bytes: total, lossless, the inverse of
    /// `from_le_bytes` on every scalar.
    pub fn to_bytes_le(&self) -> (r: Vec<u8>)
        ensures
            r@.len() == 8 * self.limb_width(),
            bytes_le_value(r@) == self.value(),
    {
        limbs_to_le_bytes(&self.inner)
    }

    /// Borrows the inner fixed-width integer.
    pub fn as_uint(&self) -> (r: &Vec<u64>)
        ensures
            r@ == self.limbs(),
    {
        &self.inner
    }

    /// Borrows the inner limbs as a slice.
    pub fn as_limbs(&self) -> (r: &[u64])
        ensures
            r@ == self.limbs(),
    {
        self.inner.as_slice()
    }

    /// Whether the scalar is zero, by accumulating all limbs with no early
    /// exit.
    pub fn is_zero(&self) -> (r: bool)
        ensures
            r == (self.value() == 0),
    {
        limbs_is_zero(&self.inner)
    }

    /// Whether the scalar is even; `is_even` and `is_odd` are mutually
    /// exclusive and exhaustive.
    pub fn is_even(&self) -> (r: bool)
        ensures
            r == (self.value() % 2 == 0),
    {
        !self.is_odd()
    }

    /// Whether the scalar is odd, read off the lowest limb's lowest bit.
    pub fn is_odd(&self) -> (r: bool)
        ensures
            r == (self.value() % 2 == 1),
    {
        let mut low: u64 = 0;
        if self.inner.len() > 0 {
            low = self.inner[0];
            proof {
                lemma_limbs_value_parity(self.inner@);
            }
        }
        proof {
            assert((low & 1) == low % 2) by (bit_vector);
        }
        (low & 1) == 1
    }

    /// Constant-time-style equality: the limb vectors compared in full, the
    /// verdict equivalent to equality of values.
    pub fn ct_eq(&self, other: &ScalarCore) -> (r: bool)
        requires
            self.limb_width() == other.limb_width(),
        ensures
            r == (self.value() == other.value()),
            r == (self.limbs() == other.limbs()),
    {
        limbs_eq(&self.inner, &other.inner)
    }

    /// Constant-time-style strictly-below test, agreeing with unsigned
    /// magnitude.
    pub fn ct_lt(&self, other: &ScalarCore) -> (r: bool)
        requires
            self.limb_width() == other.limb_width(),
        ensures
            r == (self.value() < other.value()),
    {
        limbs_lt(&self.inner, &other.inner)
    }

    /// Constant-time-style strictly-above test, agreeing with unsigned
    /// magnitude.
    pub fn ct_gt(&self, other: &ScalarCore) -> (r: bool)
        requires
            self.limb_width() == other.limb_width(),
        ensures
            r == (self.value() > other.value()),
    {
        limbs_lt(&other.inner, &self.inner)
    }

    /// Branch-free selection: `a` when `choice` is false, `b` when true,
    /// multiplexed limb by limb through a bitmask.
    pub fn conditional_select(a: &ScalarCore, b: &ScalarCore, choice: bool) -> (r: ScalarCore)
        requires
            a.limb_width() == b.limb_width(),
        ensures
            r.limbs() == (if choice {
                b.limbs()
            } else {
                a.limbs()
            }),
            r.value() == (if choice {
                b.value()
            } else {
                a.value()
            }),
    {
        ScalarCore { inner: limbs_select(&a.inner, &b.inner, choice) }
    }

    /// Modular addition: `(a + b) mod n`, canonically reduced.
    pub fn add(&self, other: &ScalarCore, c: &Curve) -> (r: ScalarCore)
        requires
            c.wf(),
            self.wf(c),
            other.wf(c),
        ensures
            r.wf(c),
            r.value() == (self.value() + other.value()) % c.modulus(),
    {
        ScalarCore { inner: limbs_add_mod(&self.inner, &other.inner, &c.order) }
    }

    /// Modular subtraction: `(a - b) mod n`, canonically reduced.
    pub fn sub(&self, other: &ScalarCore, c: &Curve) -> (r: ScalarCore)
        requires
            c.wf(),
            self.wf(c),
            other.wf(c),
        ensures
            r.wf(c),
            r.value() as int == (self.value() as int - other.value()) % (c.modulus() as int),
    {
        ScalarCore { inner: limbs_sub_mod(&self.inner, &other.inner, &c.order) }
    }

    /// Modular addition in place: the scalar becomes `(self + other) mod n`.
    pub fn add_assign(&mut self, other: &ScalarCore, c: &Curve)
        requires
            c.wf(),
            old(self).wf(c),
            other.wf(c),
        ensures
            final(self).wf(c),
            final(self).value() == (old(self).value() + other.value()) % c.modulus(),
    {
        let r = ScalarCore { inner: limbs_add_mod(&self.inner, &other.inner, &c.order) };
        *self = r;
    }

    /// Modular subtraction in place: the scalar becomes `(self - other) mod n`.
    pub fn sub_assign(&mut self, other: &ScalarCore, c: &Curve)
        requires
            c.wf(),
            old(self).wf(c),
            other.wf(c),
        ensures
            final(self).wf(c),
            final(self).value() as int == (old(self).value() as int - other.value()) % (
            c.modulus() as int),
    {
        let r = ScalarCore { inner: limbs_sub_mod(&self.inner, &other.inner, &c.order) };
        *self = r;
    }

    /// Modular negation: `(n - a) mod n`, so zero stays zero and any other
    /// scalar maps to `n - a`.
    pub fn neg(&self, c: &Curve) -> (r: ScalarCore)
        requires
            c.wf(),
            self.wf(c),
        ensures
            r.wf(c),
            r.value() as int == (c.modulus() as int - self.value()) % (c.modulus() as int),
    {
        ScalarCore { inner: limbs_neg_mod(&self.inner, &c.order) }
    }

    /// A scalar drawn uniformly in `[0, n)` by rejection sampling: random
    /// limbs masked down to the modulus's occupied bits, redrawn while the
    /// candidate is out of range. The number of redraws is bounded; should
    /// every draw miss — vanishingly unlikely, as the mask keeps at least
    /// one candidate in four canonical — the last candidate is reduced by
    /// conditional subtraction instead, so the call always returns a
    /// canonical scalar.
    pub fn random(c: &Curve) -> (r: ScalarCore)
        requires
            c.wf(),
        ensures
            r.wf(c),
    {
        let mut cand: Vec<u64> = draw_candidate(c);
        let mut ok: bool = limbs_lt(&cand, &c.order);
        let mut tries: usize = 0;
        while tries < 32 && !ok
            invariant
                c.wf(),
                cand@.len() == c.width(),
                ok == (limbs_value(cand@) < c.modulus()),
            decreases 32 - tries,
        {
            cand = draw_candidate(c);
            ok = limbs_lt(&cand, &c.order);
            tries = tries + 1;
        }
        while !ok
            invariant
                c.wf(),
                cand@.len() == c.width(),
                ok == (limbs_value(cand@) < c.modulus()),
            decreases limbs_value(cand@),
        {
            let (d, _) = crate::limb::limbs_sub(&cand, &c.order);
            cand = d;
            ok = limbs_lt(&cand, &c.order);
        }
        ScalarCore { inner: cand }
    }

    /// Overwrites the backing limbs with zero in place, for scalars that
    /// held secret material; the width stays, the value becomes zero.
    pub fn zeroize(&mut self)
        ensures
            final(self).limb_width() == old(self).limb_width(),
            final(self).value() == 0,
    {
        zeroize_limbs(&mut self.inner);
        proof {
            lemma_limbs_value_zero(self.inner@);
        }
    }
}

impl PartialEq for ScalarCore {
    /// Equality of scalars: their limb vectors compared in full.
    fn eq(&self, other: &ScalarCore) -> (r: bool) {
        self.inner.len() == other.inner.len() && limbs_eq(&self.inner, &other.inner)
    }
}

impl Eq for ScalarCore {

}

impl vstd::std_specs::cmp::PartialEqSpecImpl for ScalarCore {
    open spec fn obeys_eq_spec() -> bool {
        true
    }

    open spec fn eq_spec(&self, other: &ScalarCore) -> bool {
        self.limbs() == other.limbs()
    }
}

/// Relies on `zeroize::Zeroize` for `[u64]` (through `DefaultIsZeroes`):
/// overwrites every element of the slice with zero, in place and through a
/// volatile write the compiler may not elide, leaving the length unchanged.
#[verifier::external_body]
fn zeroize_limbs(v: &mut Vec<u64>)
    ensures
        final(v)@.len() == old(v)@.len(),
        forall|i: int| 0 <= i < final(v)@.len() ==> final(v)@[i] == 0,
{
    v.as_mut_slice().zeroize()
}

/// Relies on `rand_core::OsRng` (`RngCore::next_u64`): one word from the
/// operating system's entropy source. Nothing can be promised of its value.
#[verifier::external_body]
fn random_u64() -> u64 {
    rand_core::OsRng.next_u64()
}

/// One random candidate of the curve's width: zero above the modulus's
/// highest occupied limb, that limb masked down to the modulus's occupied
/// bits, fully random below, so that a fixed fraction of candidates lands
/// in range whatever the modulus.
fn draw_candidate(c: &Curve) -> (r: Vec<u64>)
    requires
        c.wf(),
    ensures
        r@.len() == c.width(),
{
    let k: usize = c.order.len();
    let mut h: usize = 0;
    let mut i: usize = 0;
    while i < k
        invariant
            i <= k,
            k >= 1,
            h < k,
            k == c.width(),
        decreases k - i,
    {
        if c.order[i] != 0 {
            h = i;
        }
        i = i + 1;
    }
    let mut m: u64 = c.order[h];
    m = m | (m >> 1);
    m = m | (m >> 2);
    m = m | (m >> 4);
    m = m | (m >> 8);
    m = m | (m >> 16);
    m = m | (m >> 32);
    let mut cand: Vec<u64> = Vec::new();
    i = 0;
    while i < k
        invariant
            i <= k,
            cand@.len() == i,
            h < k,
        decreases k - i,
    {
        let mut word: u64 = 0;
        if i < h {
            word = random_u64();
        }
        if i == h {
            word = random_u64() & m;
        }
        cand.push(word);
        i = i + 1;
    }
    cand
}

/// Additive inverse: for every canonical `a`, adding `a` to its negation
/// yields zero modulo `n`.
pub proof fn lemma_add_neg_is_zero(a: int, n: int)
    requires
        0 < n,
        0 <= a < n,
    ensures
        (a + (n - a) % n) % n == 0,
{
    lemma_mod_multiples_vanish(1, 0, n);
    if a == 0 {
        lemma_small_mod(0, n as nat);
    } else {
        lemma_small_mod((n - a) as nat, n as nat);
    }
}

/// Subtraction consistency: for every canonical `a` and `b`, subtracting
/// `b` agrees with adding the negation of `b`, modulo `n`.
pub proof fn lemma_sub_is_add_neg(a: int, b: int, n: int)
    requires
        0 < n,
        0 <= a < n,
        0 <= b < n,
    ensures
        (a - b) % n == (a + (n - b) % n) % n,
{
    if b == 0 {
        lemma_mod_multiples_vanish(1, 0, n);
        lemma_small_mod(a as nat, n as nat);
    } else {
        lemma_small_mod((n - b) as nat, n as nat);
        lemma_mod_multiples_vanish(1, a - b, n);
    }
}

/// Identity: for every canonical `a`, adding zero returns `a` itself and
/// subtracting `a` from itself yields zero, modulo `n`.
pub proof fn lemma_add_sub_identity(a: int, n: int)
    requires
        0 < n,
        0 <= a < n,
    ensures
        (a + 0) % n == a,
        (a - a) % n == 0,
{
    lemma_small_mod(a as nat, n as nat);
    lemma_small_mod(0, n as nat);
}

/// Parity exclusivity: every value is even or odd, never both.
pub proof fn lemma_parity_exclusive(v: nat)
    ensures
        (v % 2 == 0) <==> !(v % 2 == 1),
{
}

/// Total order: the magnitude order behind `ct_lt`, `ct_gt` and `ct_eq` is
/// antisymmetric and transitive, and exactly one of below, equal, above
/// holds of any two values.
pub proof fn lemma_order_laws(a: nat, b: nat, c: nat)
    ensures
        a < b ==> !(b < a),
        (a < b && b < c) ==> a < c,
        (a < b) <==> !(b < a || a == b),
{
}

/// Round trip: a scalar is determined by its value at a fixed width, so
/// decoding the encoding of a scalar — which the codec contracts state
/// carries exactly its value — returns a scalar with exactly its limbs.
pub proof fn lemma_scalar_value_injective(a: ScalarCore, b: ScalarCore)
    requires
        a.limb_width() == b.limb_width(),
        a.value() == b.value(),
    ensures
        a.limbs() == b.limbs(),
{
    lemma_limbs_value_injective(a.limbs(), b.limbs());
}

} // verus!
