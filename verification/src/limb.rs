//! Fixed-width unsigned big integers as little-endian `u64` limb vectors:
//! value semantics, comparison, carry/borrow arithmetic, selection, and
//! byte-level codecs, all verified against a `nat`-valued model.

use vstd::prelude::*;
use vstd::arithmetic::power2::{
    lemma2_to64, lemma2_to64_rest, lemma_pow2_adds, lemma_pow2_pos, pow2,
};
use vstd::arithmetic::div_mod::{
    lemma_breakdown, lemma_fundamental_div_mod, lemma_mod_multiples_vanish, lemma_small_mod,
};
use vstd::arithmetic::power2::lemma_pow2_strictly_increases;
use vstd::bits::{lemma_u64_shl_is_mul, lemma_u64_shr_is_div};

verus! {

/// Value of a little-endian limb vector: `sum limbs[i] * 2^(64*i)`.
pub open spec fn limbs_value(s: Seq<u64>) -> nat
    decreases s.len(),
{
    if s.len() == 0 {
        0
    } else {
        (limbs_value(s.drop_last()) + s.last() * pow2(64 * (s.len() - 1) as nat)) as nat
    }
}

/// Value of a little-endian byte string: `sum bytes[i] * 256^i`.
pub open spec fn bytes_le_value(s: Seq<u8>) -> nat
    decreases s.len(),
{
    if s.len() == 0 {
        0
    } else {
        (bytes_le_value(s.drop_last()) + s.last() * pow2(8 * (s.len() - 1) as nat)) as nat
    }
}

/// Value of a big-endian byte string: the little-endian value of its mirror.
pub open spec fn bytes_be_value(s: Seq<u8>) -> nat {
    bytes_le_value(s.reverse())
}

/// Extending a limb prefix by one limb adds that limb at its place value.
pub proof fn lemma_limbs_take_succ(s: Seq<u64>, i: int)
    requires
        0 <= i < s.len(),
    ensures
        limbs_value(s.take(i + 1)) == limbs_value(s.take(i)) + s[i] * pow2((64 * i) as nat),
{
    let t = s.take(i + 1);
    assert(t.drop_last() =~= s.take(i));
}

/// Extending a byte prefix by one byte adds that byte at its place value.
pub proof fn lemma_bytes_take_succ(s: Seq<u8>, i: int)
    requires
        0 <= i < s.len(),
    ensures
        bytes_le_value(s.take(i + 1)) == bytes_le_value(s.take(i)) + s[i] * pow2((8 * i) as nat),
{
    let t = s.take(i + 1);
    assert(t.drop_last() =~= s.take(i));
}

/// A limb vector's value is below `2^(64 * len)`.
pub proof fn lemma_limbs_value_bound(s: Seq<u64>)
    ensures
        limbs_value(s) < pow2((64 * s.len()) as nat),
    decreases s.len(),
{
    lemma2_to64();
    lemma2_to64_rest();
    if s.len() == 0 {
    } else {
        lemma_limbs_value_bound(s.drop_last());
        let e1 = (64 * (s.len() - 1)) as nat;
        lemma_pow2_adds(e1, 64);
        assert(limbs_value(s.drop_last()) + s.last() * pow2(e1) < pow2(e1) * pow2(64))
            by (nonlinear_arith)
            requires
                limbs_value(s.drop_last()) < pow2(e1),
                s.last() < pow2(64),
                pow2(e1) > 0,
        ;
    }
}

/// A byte string's value is below `2^(8 * len)`.
pub proof fn lemma_bytes_value_bound(s: Seq<u8>)
    ensures
        bytes_le_value(s) < pow2((8 * s.len()) as nat),
    decreases s.len(),
{
    lemma2_to64();
    if s.len() == 0 {
    } else {
        lemma_bytes_value_bound(s.drop_last());
        let e1 = (8 * (s.len() - 1)) as nat;
        lemma_pow2_adds(e1, 8);
        assert(bytes_le_value(s.drop_last()) + s.last() * pow2(e1) < pow2(e1) * pow2(8))
            by (nonlinear_arith)
            requires
                bytes_le_value(s.drop_last()) < pow2(e1),
                s.last() < pow2(8),
                pow2(e1) > 0,
        ;
    }
}

/// A limb vector's value is zero exactly when every limb is zero.
pub proof fn lemma_limbs_value_zero(s: Seq<u64>)
    ensures
        limbs_value(s) == 0 <==> (forall|i: int| 0 <= i < s.len() ==> s[i] == 0),
    decreases s.len(),
{
    if s.len() == 0 {
    } else {
        lemma_limbs_value_zero(s.drop_last());
        let e1 = (64 * (s.len() - 1)) as nat;
        lemma_pow2_pos(e1);
        assert(s.last() * pow2(e1) == 0 <==> s.last() == 0) by (nonlinear_arith)
            requires
                pow2(e1) > 0,
        ;
        if limbs_value(s) == 0 {
            assert(forall|i: int| 0 <= i < s.len() - 1 ==> s[i] == s.drop_last()[i]);
        }
        if forall|i: int| 0 <= i < s.len() ==> s[i] == 0 {
            assert(forall|i: int| 0 <= i < s.len() - 1 ==> s.drop_last()[i] == s[i]);
        }
    }
}

/// A one-limb vector's value is its single limb.
pub proof fn lemma_limbs_value_single(s: Seq<u64>)
    requires
        s.len() == 1,
    ensures
        limbs_value(s) == s[0],
{
    lemma2_to64();
    assert(s.drop_last().len() == 0);
    assert(limbs_value(s.drop_last()) == 0);
    let e = 64 * (s.len() - 1) as nat;
    assert(e == 0);
    assert(s.last() * pow2(e) == s.last()) by (nonlinear_arith)
        requires
            pow2(e) == 1,
    ;
}

/// When every limb above the first is zero, the value is the first limb.
pub proof fn lemma_limbs_value_low(s: Seq<u64>)
    requires
        s.len() >= 1,
        forall|i: int| 1 <= i < s.len() ==> s[i] == 0,
    ensures
        limbs_value(s) == s[0],
    decreases s.len(),
{
    lemma2_to64();
    if s.len() == 1 {
        lemma_limbs_value_single(s);
    } else {
        assert(forall|i: int| 1 <= i < s.len() - 1 ==> s.drop_last()[i] == s[i]);
        lemma_limbs_value_low(s.drop_last());
    }
}

/// A nonzero limb at position `i` puts the value at or above `2^(64*i)`.
pub proof fn lemma_limbs_value_lower(s: Seq<u64>, i: int)
    requires
        0 <= i < s.len(),
        s[i] != 0,
    ensures
        limbs_value(s) >= pow2((64 * i) as nat),
    decreases s.len(),
{
    if i == s.len() - 1 {
        assert(s.last() * pow2((64 * i) as nat) >= pow2((64 * i) as nat)) by (nonlinear_arith)
            requires
                s.last() >= 1,
                s[i as int] == s.last(),
                i == s.len() - 1,
        ;
    } else {
        lemma_limbs_value_lower(s.drop_last(), i);
    }
}

/// Equal-width limb vectors with the same value are the same vector.
pub proof fn lemma_limbs_value_injective(a: Seq<u64>, b: Seq<u64>)
    requires
        a.len() == b.len(),
        limbs_value(a) == limbs_value(b),
    ensures
        a == b,
    decreases a.len(),
{
    if a.len() == 0 {
        assert(a =~= b);
    } else {
        let e1 = (64 * (a.len() - 1)) as nat;
        lemma_limbs_value_bound(a.drop_last());
        lemma_limbs_value_bound(b.drop_last());
        assert(a.last() == b.last()) by (nonlinear_arith)
            requires
                limbs_value(a.drop_last()) < pow2(e1),
                limbs_value(b.drop_last()) < pow2(e1),
                limbs_value(a.drop_last()) + a.last() * pow2(e1) == limbs_value(b.drop_last())
                    + b.last() * pow2(e1),
        ;
        lemma_limbs_value_injective(a.drop_last(), b.drop_last());
        assert(a =~= a.drop_last().push(a.last()));
        assert(b =~= b.drop_last().push(b.last()));
    }
}

/// A limb vector's value has the parity of its lowest limb.
pub proof fn lemma_limbs_value_parity(s: Seq<u64>)
    requires
        s.len() >= 1,
    ensures
        limbs_value(s) % 2 == s[0] % 2,
    decreases s.len(),
{
    lemma2_to64();
    if s.len() == 1 {
        lemma_limbs_value_single(s);
    } else {
        lemma_limbs_value_parity(s.drop_last());
        let e1 = (64 * (s.len() - 1)) as nat;
        let half = (64 * (s.len() - 1) - 1) as nat;
        lemma_pow2_adds(half, 1);
        assert(s.last() * pow2(e1) == 2 * (s.last() * pow2(half))) by (nonlinear_arith)
            requires
                pow2(e1) == pow2(half) * pow2(1),
                pow2(1) == 2,
        ;
        lemma_mod_multiples_vanish(
            s.last() * pow2(half) as int,
            limbs_value(s.drop_last()) as int,
            2,
        );
    }
}

/// One column of a comparison: how a limb pair and the borrow so far decide
/// the order of the extended prefixes.
proof fn lemma_lt_step(va: nat, vb: nat, x: nat, y: nat, p: nat)
    requires
        va < p,
        vb < p,
    ensures
        (va + x * p < vb + y * p) <==> (x < y || (x == y && va < vb)),
{
    if x < y {
        assert(va + x * p < vb + y * p) by (nonlinear_arith)
            requires
                va < p,
                x < y,
        ;
    } else if x > y {
        assert(vb + y * p < va + x * p) by (nonlinear_arith)
            requires
                vb < p,
                y < x,
        ;
    }
}

/// Whether `a`'s value is below `b`'s, by a full borrow chain with no early
/// exit.
pub fn limbs_lt(a: &Vec<u64>, b: &Vec<u64>) -> (r: bool)
    requires
        a@.len() == b@.len(),
    ensures
        r == (limbs_value(a@) < limbs_value(b@)),
{
    let n: usize = a.len();
    let mut borrow: u64 = 0;
    let mut i: usize = 0;
    while i < n
        invariant
            i <= n,
            n == a@.len(),
            b@.len() == n,
            borrow <= 1,
            (borrow == 1) <==> (limbs_value(a@.take(i as int)) < limbs_value(b@.take(i as int))),
        decreases n - i,
    {
        let ai: u64 = a[i];
        let bi: u64 = b[i];
        proof {
            lemma_limbs_take_succ(a@, i as int);
            lemma_limbs_take_succ(b@, i as int);
            lemma_limbs_value_bound(a@.take(i as int));
            lemma_limbs_value_bound(b@.take(i as int));
            lemma_lt_step(
                limbs_value(a@.take(i as int)),
                limbs_value(b@.take(i as int)),
                ai as nat,
                bi as nat,
                pow2((64 * i) as nat),
            );
        }
        borrow = if (ai as u128) < (bi as u128) + (borrow as u128) {
            1
        } else {
            0
        };
        i = i + 1;
    }
    proof {
        assert(a@.take(n as int) =~= a@);
        assert(b@.take(n as int) =~= b@);
    }
    borrow == 1
}

/// One column of an addition: folding a limb sum with carry in and out into
/// the running place-value equation.
proof fn lemma_carry_step(
    vout: nat,
    va: nat,
    vb: nat,
    x: nat,
    y: nat,
    cin: nat,
    limb: nat,
    cout: nat,
    p: nat,
    big: nat,
)
    requires
        vout + cin * p == va + vb,
        limb + cout * 0x10000000000000000 == x + y + cin,
        big == p * 0x10000000000000000,
    ensures
        (vout + limb * p) + cout * big == (va + x * p) + (vb + y * p),
{
    assert((vout + limb * p) + cout * big == (va + x * p) + (vb + y * p)) by (nonlinear_arith)
        requires
            vout + cin * p == va + vb,
            limb + cout * 0x10000000000000000 == x + y + cin,
            big == p * 0x10000000000000000,
    ;
}

/// Schoolbook addition: the output limbs plus the carry-out at its place
/// value equal the sum of the inputs.
pub fn limbs_add(a: &Vec<u64>, b: &Vec<u64>) -> (r: (Vec<u64>, bool))
    requires
        a@.len() == b@.len(),
    ensures
        r.0@.len() == a@.len(),
        limbs_value(r.0@) + (if r.1 {
            pow2((64 * a@.len()) as nat)
        } else {
            0
        }) == limbs_value(a@) + limbs_value(b@),
{
    let n: usize = a.len();
    let mut out: Vec<u64> = Vec::new();
    let mut carry: u64 = 0;
    let mut i: usize = 0;
    while i < n
        invariant
            i <= n,
            n == a@.len(),
            b@.len() == n,
            out@.len() == i,
            carry <= 1,
            limbs_value(out@) + (carry as nat) * pow2((64 * i) as nat) == limbs_value(
                a@.take(i as int),
            ) + limbs_value(b@.take(i as int)),
        decreases n - i,
    {
        let ai: u64 = a[i];
        let bi: u64 = b[i];
        let t: u128 = ai as u128 + bi as u128 + carry as u128;
        let limb: u64 = (t % 0x10000000000000000u128) as u64;
        let c2: u64 = (t / 0x10000000000000000u128) as u64;
        let ghost prev = out@;
        proof {
            lemma_limbs_take_succ(a@, i as int);
            lemma_limbs_take_succ(b@, i as int);
            lemma2_to64();
            lemma_pow2_adds((64 * i) as nat, 64);
            lemma_fundamental_div_mod(t as int, 0x10000000000000000);
            lemma_carry_step(
                limbs_value(prev),
                limbs_value(a@.take(i as int)),
                limbs_value(b@.take(i as int)),
                ai as nat,
                bi as nat,
                carry as nat,
                limb as nat,
                c2 as nat,
                pow2((64 * i) as nat),
                pow2((64 * (i + 1)) as nat),
            );
        }
        out.push(limb);
        proof {
            assert(out@.drop_last() =~= prev);
        }
        carry = c2;
        i = i + 1;
    }
    proof {
        assert(a@.take(n as int) =~= a@);
        assert(b@.take(n as int) =~= b@);
    }
    (out, carry == 1)
}

/// One column of a subtraction: folding a limb difference with borrow in and
/// out into the running place-value equation.
proof fn lemma_borrow_step(
    vout: int,
    va: int,
    vb: int,
    x: int,
    y: int,
    bin: int,
    limb: int,
    bout: int,
    p: int,
    big: int,
)
    requires
        vout == va - vb + bin * p,
        limb == x - y - bin + bout * 0x10000000000000000,
        big == p * 0x10000000000000000,
    ensures
        vout + limb * p == (va + x * p) - (vb + y * p) + bout * big,
{
    assert(vout + limb * p == (va + x * p) - (vb + y * p) + bout * big) by (nonlinear_arith)
        requires
            vout == va - vb + bin * p,
            limb == x - y - bin + bout * 0x10000000000000000,
            big == p * 0x10000000000000000,
    ;
}

/// Schoolbook subtraction: the output limbs equal the difference of the
/// inputs, plus the full width's place value exactly when the difference
/// wrapped; the borrow-out flags `a < b`.
pub fn limbs_sub(a: &Vec<u64>, b: &Vec<u64>) -> (r: (Vec<u64>, bool))
    requires
        a@.len() == b@.len(),
    ensures
        r.0@.len() == a@.len(),
        limbs_value(r.0@) as int == limbs_value(a@) as int - limbs_value(b@) + (if r.1 {
            pow2((64 * a@.len()) as nat) as int
        } else {
            0
        }),
        r.1 == (limbs_value(a@) < limbs_value(b@)),
{
    let n: usize = a.len();
    let mut out: Vec<u64> = Vec::new();
    let mut borrow: u64 = 0;
    let mut i: usize = 0;
    while i < n
        invariant
            i <= n,
            n == a@.len(),
            b@.len() == n,
            out@.len() == i,
            borrow <= 1,
            limbs_value(out@) as int == limbs_value(a@.take(i as int)) as int - limbs_value(
                b@.take(i as int),
            ) + (borrow as int) * pow2((64 * i) as nat),
        decreases n - i,
    {
        let ai: u64 = a[i];
        let bi: u64 = b[i];
        let t: u128 = 0x10000000000000000u128 + ai as u128 - bi as u128 - borrow as u128;
        let limb: u64 = (t % 0x10000000000000000u128) as u64;
        let nb: u64 = if t < 0x10000000000000000u128 {
            1
        } else {
            0
        };
        let ghost prev = out@;
        proof {
            lemma_limbs_take_succ(a@, i as int);
            lemma_limbs_take_succ(b@, i as int);
            lemma2_to64();
            lemma_pow2_adds((64 * i) as nat, 64);
            lemma_fundamental_div_mod(t as int, 0x10000000000000000);
            lemma_borrow_step(
                limbs_value(prev) as int,
                limbs_value(a@.take(i as int)) as int,
                limbs_value(b@.take(i as int)) as int,
                ai as int,
                bi as int,
                borrow as int,
                limb as int,
                nb as int,
                pow2((64 * i) as nat) as int,
                pow2((64 * (i + 1)) as nat) as int,
            );
        }
        out.push(limb);
        proof {
            assert(out@.drop_last() =~= prev);
        }
        borrow = nb;
        i = i + 1;
    }
    proof {
        assert(a@.take(n as int) =~= a@);
        assert(b@.take(n as int) =~= b@);
        lemma_limbs_value_bound(out@);
        lemma_limbs_value_bound(a@);
        lemma_limbs_value_bound(b@);
    }
    (out, borrow == 1)
}

/// Branch-free selection: a bitmask multiplexer over the limbs, returning
/// `a`'s limbs when `choice` is false and `b`'s when it is true.
pub fn limbs_select(a: &Vec<u64>, b: &Vec<u64>, choice: bool) -> (r: Vec<u64>)
    requires
        a@.len() == b@.len(),
    ensures
        r@ == if choice {
            b@
        } else {
            a@
        },
{
    let n: usize = a.len();
    let mask: u64 = if choice {
        0xFFFFFFFFFFFFFFFFu64
    } else {
        0u64
    };
    let mut out: Vec<u64> = Vec::new();
    let mut i: usize = 0;
    while i < n
        invariant
            i <= n,
            n == a@.len(),
            b@.len() == n,
            out@.len() == i,
            mask == (if choice {
                0xFFFFFFFFFFFFFFFFu64
            } else {
                0u64
            }),
            forall|j: int|
                0 <= j < i ==> out@[j] == (if choice {
                    b@[j]
                } else {
                    a@[j]
                }),
        decreases n - i,
    {
        let ai: u64 = a[i];
        let bi: u64 = b[i];
        proof {
            if choice {
                assert((ai & !0xFFFFFFFFFFFFFFFFu64) | (bi & 0xFFFFFFFFFFFFFFFFu64) == bi)
                    by (bit_vector);
            } else {
                assert((ai & !0u64) | (bi & 0u64) == ai) by (bit_vector);
            }
        }
        out.push((ai & !mask) | (bi & mask));
        i = i + 1;
    }
    proof {
        if choice {
            assert(out@ =~= b@);
        } else {
            assert(out@ =~= a@);
        }
    }
    out
}

/// Whether two equal-width limb vectors are identical, by accumulating limb
/// differences with no early exit.
pub fn limbs_eq(a: &Vec<u64>, b: &Vec<u64>) -> (r: bool)
    requires
        a@.len() == b@.len(),
    ensures
        r == (a@ == b@),
        r == (limbs_value(a@) == limbs_value(b@)),
{
    let n: usize = a.len();
    let mut acc: u64 = 0;
    let mut i: usize = 0;
    while i < n
        invariant
            i <= n,
            n == a@.len(),
            b@.len() == n,
            (acc == 0) <==> (forall|j: int| 0 <= j < i ==> a@[j] == b@[j]),
        decreases n - i,
    {
        let ai: u64 = a[i];
        let bi: u64 = b[i];
        proof {
            assert(((acc | (ai ^ bi)) == 0) <==> (acc == 0 && ai == bi)) by (bit_vector);
        }
        acc = acc | (ai ^ bi);
        i = i + 1;
    }
    proof {
        if acc == 0 {
            assert(a@ =~= b@);
        }
        if limbs_value(a@) == limbs_value(b@) {
            lemma_limbs_value_injective(a@, b@);
        }
    }
    acc == 0
}

/// Whether a limb vector's value is zero, by accumulating all limbs with no
/// early exit.
pub fn limbs_is_zero(a: &Vec<u64>) -> (r: bool)
    ensures
        r == (limbs_value(a@) == 0),
{
    let n: usize = a.len();
    let mut acc: u64 = 0;
    let mut i: usize = 0;
    while i < n
        invariant
            i <= n,
            n == a@.len(),
            (acc == 0) <==> (forall|j: int| 0 <= j < i ==> a@[j] == 0),
        decreases n - i,
    {
        let ai: u64 = a[i];
        proof {
            assert(((acc | ai) == 0) <==> (acc == 0 && ai == 0)) by (bit_vector);
        }
        acc = acc | ai;
        i = i + 1;
    }
    proof {
        lemma_limbs_value_zero(a@);
    }
    acc == 0
}

/// Concatenating byte strings adds the tail's value at the head's width.
pub proof fn lemma_bytes_value_concat(s: Seq<u8>, t: Seq<u8>)
    ensures
        bytes_le_value(s + t) == bytes_le_value(s) + bytes_le_value(t) * pow2((8 * s.len()) as nat),
    decreases t.len(),
{
    if t.len() == 0 {
        assert(s + t =~= s);
    } else {
        lemma_bytes_value_concat(s, t.drop_last());
        assert((s + t).drop_last() =~= s + t.drop_last());
        let ps = pow2((8 * s.len()) as nat);
        let pt = pow2((8 * (t.len() - 1)) as nat);
        lemma_pow2_adds((8 * (t.len() - 1)) as nat, (8 * s.len()) as nat);
        assert(bytes_le_value(s) + bytes_le_value(t.drop_last()) * ps + t.last() * (pt * ps)
            == bytes_le_value(s) + (bytes_le_value(t.drop_last()) + t.last() * pt) * ps)
            by (nonlinear_arith);
    }
}

/// The eight little-endian bytes of one limb.
fn limb_to_le_bytes(l: u64) -> (r: Vec<u8>)
    ensures
        r@.len() == 8,
        bytes_le_value(r@) == l,
{
    let mut out: Vec<u8> = Vec::new();
    let mut j: usize = 0;
    proof {
        lemma2_to64();
    }
    while j < 8
        invariant
            j <= 8,
            out@.len() == j,
            bytes_le_value(out@) == (l as nat) % pow2((8 * j) as nat),
        decreases 8 - j,
    {
        let shift: u64 = (8 * j) as u64;
        let byte: u64 = (l >> shift) & 0xFFu64;
        let ghost prev = out@;
        proof {
            lemma2_to64();
            lemma_u64_shr_is_div(l, shift);
            assert((l >> shift) & 0xFFu64 == (l >> shift) % 256) by (bit_vector);
            lemma_pow2_pos((8 * j) as nat);
            lemma_pow2_adds((8 * j) as nat, 8);
            lemma_breakdown(l as int, pow2((8 * j) as nat) as int, 256);
        }
        out.push(byte as u8);
        proof {
            assert(out@.drop_last() =~= prev);
            assert(out@.last() == byte as u8);
        }
        j = j + 1;
    }
    proof {
        lemma2_to64();
        lemma2_to64_rest();
        lemma_small_mod(l as nat, pow2(64));
    }
    out
}

/// One limb read from eight little-endian bytes at `off`.
fn le8_to_limb(bytes: &Vec<u8>, off: usize) -> (r: u64)
    requires
        off + 8 <= bytes@.len(),
    ensures
        r == bytes_le_value(bytes@.subrange(off as int, off as int + 8)),
{
    let ghost sub = bytes@.subrange(off as int, off as int + 8);
    let blen: usize = bytes.len();
    let mut l: u64 = 0;
    let mut j: usize = 0;
    proof {
        lemma2_to64();
    }
    while j < 8
        invariant
            j <= 8,
            blen == bytes@.len(),
            off + 8 <= blen,
            sub == bytes@.subrange(off as int, off as int + 8),
            l == bytes_le_value(sub.take(j as int)),
            l < pow2((8 * j) as nat),
        decreases 8 - j,
    {
        let shift: u64 = (8 * j) as u64;
        let byte: u64 = bytes[off + j] as u64;
        proof {
            lemma2_to64();
            lemma2_to64_rest();
            lemma_pow2_pos((8 * j) as nat);
            lemma_pow2_adds((8 * j) as nat, 8);
            assert(byte * pow2((8 * j) as nat) < pow2(8) * pow2((8 * j) as nat))
                by (nonlinear_arith)
                requires
                    byte < pow2(8),
                    pow2((8 * j) as nat) > 0,
            ;
            if 8 * j + 8 < 64 {
                lemma_pow2_strictly_increases((8 * j + 8) as nat, 64);
            }
            lemma_u64_shl_is_mul(byte, shift);
            lemma_bytes_take_succ(sub, j as int);
            lemma_bytes_value_bound(sub.take(j as int + 1));
        }
        l = l + (byte << shift);
        j = j + 1;
    }
    proof {
        assert(sub.take(8) =~= sub);
    }
    l
}

/// The little-endian byte encoding of a limb vector.
pub fn limbs_to_le_bytes(limbs: &Vec<u64>) -> (r: Vec<u8>)
    ensures
        r@.len() == 8 * limbs@.len(),
        bytes_le_value(r@) == limbs_value(limbs@),
{
    let n: usize = limbs.len();
    let mut out: Vec<u8> = Vec::new();
    let mut i: usize = 0;
    while i < n
        invariant
            i <= n,
            n == limbs@.len(),
            out@.len() == 8 * i,
            bytes_le_value(out@) == limbs_value(limbs@.take(i as int)),
        decreases n - i,
    {
        let lb = limb_to_le_bytes(limbs[i]);
        let ghost prev = out@;
        let mut j: usize = 0;
        while j < 8
            invariant
                j <= 8,
                lb@.len() == 8,
                out@ == prev + lb@.take(j as int),
            decreases 8 - j,
        {
            out.push(lb[j]);
            proof {
                assert(out@ =~= prev + lb@.take(j as int + 1));
            }
            j = j + 1;
        }
        proof {
            assert(lb@.take(8) =~= lb@);
            lemma_bytes_value_concat(prev, lb@);
            lemma_limbs_take_succ(limbs@, i as int);
        }
        i = i + 1;
    }
    proof {
        assert(limbs@.take(n as int) =~= limbs@);
    }
    out
}

/// The limb vector read from a little-endian byte string of limb-aligned
/// length.
pub fn le_bytes_to_limbs(bytes: &Vec<u8>) -> (r: Vec<u64>)
    requires
        bytes@.len() % 8 == 0,
    ensures
        r@.len() == bytes@.len() / 8,
        limbs_value(r@) == bytes_le_value(bytes@),
{
    let blen: usize = bytes.len();
    let k: usize = blen / 8;
    let mut out: Vec<u64> = Vec::new();
    let mut i: usize = 0;
    while i < k
        invariant
            i <= k,
            blen == bytes@.len(),
            blen == 8 * k,
            out@.len() == i,
            limbs_value(out@) == bytes_le_value(bytes@.take(8 * i as int)),
        decreases k - i,
    {
        let limb: u64 = le8_to_limb(bytes, 8 * i);
        let ghost prev = out@;
        proof {
            assert(bytes@.take(8 * (i + 1) as int) =~= bytes@.take(8 * i as int) + bytes@.subrange(
                8 * i as int,
                8 * i as int + 8,
            ));
            lemma_bytes_value_concat(
                bytes@.take(8 * i as int),
                bytes@.subrange(8 * i as int, 8 * i as int + 8),
            );
        }
        out.push(limb);
        proof {
            assert(out@.drop_last() =~= prev);
        }
        i = i + 1;
    }
    proof {
        assert(bytes@.take(8 * k as int) =~= bytes@);
    }
    out
}

/// A byte string in the opposite order, turning a little-endian encoding
/// into a big-endian one and back.
pub fn bytes_reversed(b: &Vec<u8>) -> (r: Vec<u8>)
    ensures
        r@ == b@.reverse(),
{
    let n: usize = b.len();
    let mut out: Vec<u8> = Vec::new();
    let mut i: usize = 0;
    while i < n
        invariant
            i <= n,
            n == b@.len(),
            out@.len() == i,
            forall|j: int| 0 <= j < i ==> out@[j] == b@[n - 1 - j],
        decreases n - i,
    {
        out.push(b[n - 1 - i]);
        i = i + 1;
    }
    proof {
        assert(out@ =~= b@.reverse());
    }
    out
}

/// Modular addition of canonical values: full-width add, trial subtraction
/// of the modulus, then a branch-free select of the reduced result.
pub fn limbs_add_mod(a: &Vec<u64>, b: &Vec<u64>, n: &Vec<u64>) -> (r: Vec<u64>)
    requires
        a@.len() == n@.len(),
        b@.len() == n@.len(),
        limbs_value(a@) < limbs_value(n@),
        limbs_value(b@) < limbs_value(n@),
    ensures
        r@.len() == n@.len(),
        limbs_value(r@) == (limbs_value(a@) + limbs_value(b@)) % limbs_value(n@),
        limbs_value(r@) < limbs_value(n@),
{
    let (s, c) = limbs_add(a, b);
    let (d, bo) = limbs_sub(&s, n);
    let r = limbs_select(&s, &d, c || !bo);
    proof {
        let va = limbs_value(a@) as int;
        let vb = limbs_value(b@) as int;
        let vn = limbs_value(n@) as int;
        let vs = limbs_value(s@) as int;
        let vd = limbs_value(d@) as int;
        let p = pow2((64 * n@.len()) as nat) as int;
        lemma_limbs_value_bound(n@);
        lemma_limbs_value_bound(s@);
        if c {
            assert(vs == va + vb - p);
            assert(vs < vn);
            assert(vd == va + vb - vn);
            lemma_mod_multiples_vanish(-1, va + vb, vn);
            lemma_small_mod((va + vb - vn) as nat, vn as nat);
        } else if !bo {
            assert(vs == va + vb);
            assert(vd == va + vb - vn);
            lemma_mod_multiples_vanish(-1, va + vb, vn);
            lemma_small_mod((va + vb - vn) as nat, vn as nat);
        } else {
            assert(vs == va + vb);
            lemma_small_mod((va + vb) as nat, vn as nat);
        }
    }
    r
}

/// Modular subtraction of canonical values: full-width subtract, then a
/// branch-free add-back of the modulus when the difference wrapped.
pub fn limbs_sub_mod(a: &Vec<u64>, b: &Vec<u64>, n: &Vec<u64>) -> (r: Vec<u64>)
    requires
        a@.len() == n@.len(),
        b@.len() == n@.len(),
        limbs_value(a@) < limbs_value(n@),
        limbs_value(b@) < limbs_value(n@),
    ensures
        r@.len() == n@.len(),
        limbs_value(r@) as int == (limbs_value(a@) as int - limbs_value(b@)) % (limbs_value(
            n@,
        ) as int),
        limbs_value(r@) < limbs_value(n@),
{
    let (d, bo) = limbs_sub(a, b);
    let (t, c2) = limbs_add(&d, n);
    let r = limbs_select(&d, &t, bo);
    proof {
        let va = limbs_value(a@) as int;
        let vb = limbs_value(b@) as int;
        let vn = limbs_value(n@) as int;
        let vd = limbs_value(d@) as int;
        let vt = limbs_value(t@) as int;
        let p = pow2((64 * n@.len()) as nat) as int;
        lemma_limbs_value_bound(n@);
        lemma_limbs_value_bound(t@);
        if bo {
            assert(vd == va - vb + p);
            assert(vt + (if c2 {
                p
            } else {
                0
            }) == va - vb + vn + p);
            assert(vt == va - vb + vn);
            lemma_mod_multiples_vanish(1, va - vb, vn);
            lemma_small_mod((va - vb + vn) as nat, vn as nat);
        } else {
            assert(vd == va - vb);
            lemma_small_mod((va - vb) as nat, vn as nat);
        }
    }
    r
}

/// Modular negation of a canonical value: `(n - a) mod n`, with zero fixed.
pub fn limbs_neg_mod(a: &Vec<u64>, n: &Vec<u64>) -> (r: Vec<u64>)
    requires
        a@.len() == n@.len(),
        limbs_value(a@) < limbs_value(n@),
    ensures
        r@.len() == n@.len(),
        limbs_value(r@) as int == (limbs_value(n@) as int - limbs_value(a@)) % (limbs_value(
            n@,
        ) as int),
        limbs_value(r@) < limbs_value(n@),
{
    let z = limbs_zero(n.len());
    let r = limbs_sub_mod(&z, a, n);
    proof {
        let va = limbs_value(a@) as int;
        let vn = limbs_value(n@) as int;
        lemma_mod_multiples_vanish(1, 0 - va, vn);
    }
    r
}

/// The all-zero limb vector of a given width.
pub fn limbs_zero(k: usize) -> (r: Vec<u64>)
    ensures
        r@.len() == k,
        limbs_value(r@) == 0,
{
    let mut out: Vec<u64> = Vec::new();
    let mut i: usize = 0;
    while i < k
        invariant
            i <= k,
            out@.len() == i,
            forall|j: int| 0 <= j < i ==> out@[j] == 0,
        decreases k - i,
    {
        out.push(0u64);
        i = i + 1;
    }
    proof {
        lemma_limbs_value_zero(out@);
    }
    out
}

} // verus!
