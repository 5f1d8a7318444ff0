//! Just enough big integer arithmetic to prepare RSA witnesses.
//!
//! The circuits take a modulus as 120 bit limbs alongside a Barrett
//! reduction parameter, `floor(2^(2 * MOD_BITS + 6) / modulus)`. Computing
//! that needs a division, done here with schoolbook long division over 32
//! bit limbs.
//!
//! A number is a little endian sequence of 32 bit limbs. It is kept in its
//! shortest form: at least one limb, and no zero limb on top unless the
//! number is zero and has exactly one limb. That form is what makes two
//! equal numbers hold equal limbs.
use vstd::arithmetic::div_mod::*;
use vstd::arithmetic::mul::*;
use vstd::arithmetic::power2::*;
use vstd::bits::*;
use vstd::prelude::*;
use vstd::std_specs::bits::*;

verus! {

/// The value of little endian 32 bit limbs.
pub open spec fn limbs_value(s: Seq<u32>) -> nat
    decreases s.len(),
{
    if s.len() == 0 {
        0
    } else {
        limbs_value(s.drop_last()) + (s.last() as nat) * pow2((32 * (s.len() - 1)) as nat)
    }
}

/// `n` zero limbs.
pub open spec fn zeros(n: nat) -> Seq<u32> {
    Seq::new(n, |i: int| 0u32)
}

/// `s` extended with zero limbs to length `n`.
pub open spec fn padded(s: Seq<u32>, n: nat) -> Seq<u32> {
    s + zeros((n - s.len()) as nat)
}

/// The value of big endian bytes.
pub open spec fn be_value(s: Seq<u8>) -> nat
    decreases s.len(),
{
    if s.len() == 0 {
        0
    } else {
        be_value(s.drop_last()) * 256 + (s.last() as nat)
    }
}

/// The shortest form: at least one limb, and a nonzero top limb unless the
/// number is the single limb zero.
pub open spec fn canonical(s: Seq<u32>) -> bool {
    &&& s.len() >= 1
    &&& (s.len() == 1 || s.last() != 0)
}

/// Bit `index` of `value`.
pub open spec fn bit_of(value: nat, index: nat) -> bool {
    (value / pow2(index)) % 2 == 1
}

/// `bits` is the number of binary digits of `value`: zero for zero, and
/// otherwise the position of the highest set bit plus one.
pub open spec fn is_bit_length(value: nat, bits: nat) -> bool {
    &&& value < pow2(bits)
    &&& (bits == 0 ==> value == 0)
    &&& (bits > 0 ==> pow2((bits - 1) as nat) <= value)
}

/// The `i`th limb of 120 bits of `value`, least significant first.
pub open spec fn limb_120(value: nat, i: nat) -> nat {
    (value / pow2(120 * i)) % pow2(120)
}

/// The value limbs of 120 bits spell, least significant first.
pub open spec fn limbs_120_value(limbs: Seq<u128>) -> nat
    decreases limbs.len(),
{
    if limbs.len() == 0 {
        0
    } else {
        limbs_120_value(limbs.drop_last()) + (limbs.last() as nat) * pow2(
            (120 * (limbs.len() - 1)) as nat,
        )
    }
}

/// Below 2^(120 c), the lower limbs of a value are those of the value
/// itself.
proof fn lemma_low_limb(value: nat, c: nat, i: nat)
    requires
        i < c,
    ensures
        limb_120(value % pow2(120 * c), i) == limb_120(value, i),
{
    let y = pow2(120 * i);
    let z = pow2((120 * (c - i)) as nat);
    lemma_pow2_pos(120 * i);
    lemma_pow2_pos((120 * (c - i)) as nat);
    lemma_pow2_adds(120 * i, (120 * (c - i)) as nat);
    assert(120 * i + (120 * (c - i)) as nat == 120 * c);
    lemma_mod_breakdown(value as int, y as int, z as int);
    let q = (value / y) % z;
    let r = value % y;
    lemma_mod_pos_bound(value as int, y as int);
    lemma_mul_is_commutative(y as int, q as int);
    lemma_fundamental_div_mod_converse((value % (y * z)) as int, y as int, q as int, r as int);
    let w = pow2(120);
    let rest = pow2((120 * (c - i - 1)) as nat);
    lemma_pow2_pos(120);
    lemma_pow2_pos((120 * (c - i - 1)) as nat);
    lemma_pow2_adds(120, (120 * (c - i - 1)) as nat);
    assert(120 + (120 * (c - i - 1)) as nat == (120 * (c - i)) as nat);
    lemma_mod_mod((value / y) as int, w as int, rest as int);
}

/// Splitting into limbs of 120 bits loses nothing: below 2^(120 count), the
/// `count` limbs of a value spell the value.
pub proof fn lemma_limbs_120_recombine(value: nat, count: nat, limbs: Seq<u128>)
    requires
        value < pow2(120 * count),
        limbs.len() == count,
        forall|i: int| 0 <= i < count ==> limbs[i] as nat == limb_120(value, i as nat),
    ensures
        limbs_120_value(limbs) == value,
    decreases count,
{
    if count == 0 {
        lemma2_to64();
    } else {
        let c1 = (count - 1) as nat;
        let p = pow2(120 * c1);
        lemma_pow2_pos(120 * c1);
        let low = value % p;
        lemma_mod_pos_bound(value as int, p as int);
        assert forall|i: int| 0 <= i < c1 implies limbs.drop_last()[i] as nat == limb_120(
            low,
            i as nat,
        ) by {
            lemma_low_limb(value, c1, i as nat);
        }
        lemma_limbs_120_recombine(low, c1, limbs.drop_last());
        // The top limb is all that is left above 2^(120 (count - 1)).
        lemma_pow2_adds(120 * c1, 120);
        assert(120 * c1 + 120 == 120 * count);
        lemma_pow2_pos(120);
        lemma_mul_is_commutative(pow2(120) as int, p as int);
        lemma_fundamental_div_mod(value as int, p as int);
        let top = value / p;
        lemma_div_bound(value, p, pow2(120));
        lemma_small_mod(top, pow2(120));
        assert(limbs.last() as nat == top);
        lemma_mul_is_commutative(top as int, p as int);
    }
}

/// A value below `p * m` holds fewer than `m` multiples of `p`.
proof fn lemma_div_bound(value: nat, p: nat, m: nat)
    requires
        p > 0,
        value < m * p,
    ensures
        value / p < m,
{
    lemma_fundamental_div_mod(value as int, p as int);
    lemma_mod_pos_bound(value as int, p as int);
    if value / p >= m {
        lemma_mul_inequality(m as int, (value / p) as int, p as int);
        lemma_mul_is_commutative(p as int, (value / p) as int);
    }
}

/// The limb at `j`, or zero past the end.
pub open spec fn limb_at(s: Seq<u32>, j: int) -> u32 {
    if 0 <= j < s.len() {
        s[j]
    } else {
        0
    }
}

/// How many low bits of 120 bit limb `j` are filled once `index` bits are read.
pub open spec fn filled(index: int, j: int) -> nat {
    if index <= 120 * j {
        0
    } else if index >= 120 * (j + 1) {
        120
    } else {
        (index - 120 * j) as nat
    }
}

/// Little endian 32 bit limbs, in the shortest form.
#[derive(Clone, Debug, PartialEq, Eq)]
pub struct BigUint {
    limbs: Vec<u32>,
}

impl View for BigUint {
    type V = nat;

    closed spec fn view(&self) -> nat {
        limbs_value(self.limbs@)
    }
}

// ---------------------------------------------------------------------------
// Facts about limbs_value
// ---------------------------------------------------------------------------

proof fn lemma_pow2_32_mul(k: nat)
    ensures
        pow2(32) * pow2(32 * k) == pow2(32 * (k + 1)),
        pow2(32 * k) * pow2(32) == pow2(32 * (k + 1)),
        pow2(32) == 0x1_0000_0000,
{
    lemma_pow2_adds(32, 32 * k);
    assert(32 + 32 * k == 32 * (k + 1)) by (nonlinear_arith);
    lemma2_to64();
}

/// Adding a limb on top adds it at its weight.
proof fn lemma_value_push(s: Seq<u32>, x: u32)
    ensures
        limbs_value(s.push(x)) == limbs_value(s) + (x as nat) * pow2(32 * s.len()),
{
    assert(s.push(x).drop_last() =~= s);
}

/// A prefix one limb longer adds that limb at its weight.
proof fn lemma_value_take(s: Seq<u32>, i: int)
    requires
        0 <= i < s.len(),
    ensures
        limbs_value(s.take(i + 1)) == limbs_value(s.take(i)) + (s[i] as nat) * pow2(
            (32 * i) as nat,
        ),
{
    assert(s.take(i + 1).drop_last() =~= s.take(i));
}

/// The value fits the number of limbs.
proof fn lemma_value_bound(s: Seq<u32>)
    ensures
        limbs_value(s) < pow2(32 * s.len()),
    decreases s.len(),
{
    if s.len() == 0 {
        lemma2_to64();
    } else {
        let n = (s.len() - 1) as nat;
        lemma_value_bound(s.drop_last());
        let p = pow2(32 * n);
        lemma_pow2_32_mul(n);
        assert((s.last() as nat) * p <= 0xffff_ffff * p) by {
            lemma_mul_inequality(s.last() as int, 0xffff_ffff, p as int);
        }
        assert(0xffff_ffff * p + p == 0x1_0000_0000 * p) by (nonlinear_arith);
    }
}

/// A nonzero top limb makes the value at least the weight of that limb.
proof fn lemma_value_lower(s: Seq<u32>)
    requires
        s.len() >= 1,
        s.last() != 0,
    ensures
        limbs_value(s) >= pow2((32 * (s.len() - 1)) as nat),
{
    let p = pow2((32 * (s.len() - 1)) as nat);
    lemma_mul_inequality(1, s.last() as int, p as int);
}

/// Zero limbs on top add nothing.
proof fn lemma_value_zeros(s: Seq<u32>, n: nat)
    ensures
        limbs_value(s + zeros(n)) == limbs_value(s),
    decreases n,
{
    if n > 0 {
        let z = zeros(n);
        let z1 = zeros((n - 1) as nat);
        assert((s + z).drop_last() =~= s + z1);
        assert((s + z).last() == 0u32);
        lemma_value_zeros(s, (n - 1) as nat);
        assert(limbs_value(s + z) == limbs_value(s + z1) + 0 * pow2((32 * ((s + z).len() - 1)) as nat));
    }
}

/// The value of two runs of limbs laid end to end.
proof fn lemma_value_concat(a: Seq<u32>, b: Seq<u32>)
    ensures
        limbs_value(a + b) == limbs_value(a) + pow2(32 * a.len()) * limbs_value(b),
    decreases b.len(),
{
    if b.len() == 0 {
        assert(a + b =~= a);
        assert(limbs_value(b) == 0);
        assert(pow2(32 * a.len()) * 0 == 0) by (nonlinear_arith);
    } else {
        let b1 = b.drop_last();
        assert((a + b).drop_last() =~= a + b1);
        lemma_value_concat(a, b1);
        let pa = pow2(32 * a.len());
        let pb = pow2((32 * (b.len() - 1)) as nat);
        lemma_pow2_adds(32 * a.len(), (32 * (b.len() - 1)) as nat);
        assert(32 * a.len() + 32 * (b.len() - 1) == 32 * ((a + b).len() - 1));
        let l = b.last() as nat;
        let vb1 = limbs_value(b1);
        assert((a + b).last() == b.last());
        assert(limbs_value(b) == vb1 + l * pb);
        assert(limbs_value(a + b) == limbs_value(a + b1) + l * pow2((32 * ((a + b).len() - 1)) as nat));
        assert(pa * pb == pow2((32 * ((a + b).len() - 1)) as nat));
        assert(pa * (vb1 + l * pb) == pa * vb1 + l * (pa * pb)) by (nonlinear_arith);
    }
}

proof fn lemma_value_single(x: u32)
    ensures
        limbs_value(seq![x]) == x as nat,
{
    let m = seq![x];
    assert(m.drop_last() =~= Seq::<u32>::empty());
    assert(limbs_value(Seq::<u32>::empty()) == 0);
    lemma2_to64();
    assert(m.last() == x);
    assert(limbs_value(m) == limbs_value(m.drop_last()) + (m.last() as nat) * pow2(
        (32 * (m.len() - 1)) as nat,
    ));
    assert((32 * (m.len() - 1)) as nat == 0);
    assert(pow2((32 * (m.len() - 1)) as nat) == 1);
    lemma_mul_basics(x as int);
    assert((m.last() as nat) * pow2((32 * (m.len() - 1)) as nat) == x as nat);
    assert(limbs_value(m) == x as nat);
}

/// Splits a number around limb `k`.
proof fn lemma_value_split(s: Seq<u32>, k: int)
    requires
        0 <= k < s.len(),
    ensures
        limbs_value(s) == limbs_value(s.take(k)) + pow2((32 * k) as nat) * ((s[k] as nat)
            + pow2(32) * limbs_value(s.skip(k + 1))),
{
    let a = s.take(k);
    let m = seq![s[k]];
    let c = s.skip(k + 1);
    assert(s =~= a + (m + c));
    lemma_value_concat(a, m + c);
    lemma_value_concat(m, c);
    assert(m.drop_last() =~= Seq::<u32>::empty());
    lemma_value_single(s[k]);
    assert(a.len() == k);
    assert(m.len() == 1);
    let pa = pow2((32 * k) as nat);
    assert(pow2(32 * m.len()) == pow2(32));
    assert(limbs_value(m + c) == (s[k] as nat) + pow2(32) * limbs_value(c));
    assert(limbs_value(s) == limbs_value(a) + pa * limbs_value(m + c));
}

/// The limb at `k` is read back from the value.
proof fn lemma_value_limb(s: Seq<u32>, k: int)
    requires
        0 <= k < s.len(),
    ensures
        (limbs_value(s) / pow2((32 * k) as nat)) % pow2(32) == s[k],
        limbs_value(s) / pow2((32 * k) as nat) == (s[k] as nat) + pow2(32) * limbs_value(
            s.skip(k + 1),
        ),
{
    lemma_value_split(s, k);
    let p = pow2((32 * k) as nat);
    lemma_pow2_pos((32 * k) as nat);
    lemma2_to64();
    lemma_value_bound(s.take(k));
    let q = (s[k] as nat) + pow2(32) * limbs_value(s.skip(k + 1));
    assert(limbs_value(s) == q * p + limbs_value(s.take(k))) by {
        lemma_mul_is_commutative(p as int, q as int);
    }
    lemma_fundamental_div_mod_converse(
        limbs_value(s) as int,
        p as int,
        q as int,
        limbs_value(s.take(k)) as int,
    );
    lemma_fundamental_div_mod_converse(
        q as int,
        pow2(32) as int,
        limbs_value(s.skip(k + 1)) as int,
        s[k] as int,
    );
}

/// Replacing one limb changes the value by the difference at its weight.
proof fn lemma_value_update(s: Seq<u32>, k: int, x: u32)
    requires
        0 <= k < s.len(),
    ensures
        limbs_value(s.update(k, x)) + (s[k] as nat) * pow2((32 * k) as nat) == limbs_value(s) + (
        x as nat) * pow2((32 * k) as nat),
{
    let t = s.update(k, x);
    lemma_value_split(s, k);
    lemma_value_split(t, k);
    assert(t.take(k) =~= s.take(k));
    assert(t.skip(k + 1) =~= s.skip(k + 1));
    let p = pow2((32 * k) as nat);
    let h = pow2(32) * limbs_value(s.skip(k + 1));
    assert(p * ((x as nat) + h) == (x as nat) * p + p * h) by (nonlinear_arith);
    assert(p * ((s[k] as nat) + h) == (s[k] as nat) * p + p * h) by (nonlinear_arith);
}

/// A canonical number below `2^(32 k)` needs at most `k` limbs.
proof fn lemma_canonical_len(s: Seq<u32>, k: nat)
    requires
        canonical(s),
        limbs_value(s) < pow2(32 * k),
        k >= 1,
    ensures
        s.len() <= k,
{
    if s.len() > k {
        lemma_value_lower(s);
        if 32 * k < 32 * (s.len() - 1) {
            lemma_pow2_strictly_increases(32 * k, (32 * (s.len() - 1)) as nat);
        }
    }
}

/// Padding with zero limbs leaves limb_at unchanged.
proof fn lemma_pad(s: Seq<u32>, n: nat)
    requires
        n >= s.len(),
    ensures
        limbs_value(padded(s, n)) == limbs_value(s),
        padded(s, n).len() == n,
        forall|j: int| 0 <= j < n ==> #[trigger] padded(s, n)[j] == limb_at(s, j),
{
    lemma_value_zeros(s, (n - s.len()) as nat);
}

/// Two canonical numbers with the same value hold the same limbs.
proof fn lemma_canonical_unique(a: Seq<u32>, b: Seq<u32>)
    requires
        canonical(a),
        canonical(b),
        limbs_value(a) == limbs_value(b),
    ensures
        a == b,
{
    lemma_value_bound(a);
    lemma_value_bound(b);
    lemma_canonical_len(a, b.len());
    lemma_canonical_len(b, a.len());
    assert forall|k: int| 0 <= k < a.len() implies a[k] == b[k] by {
        lemma_value_limb(a, k);
        lemma_value_limb(b, k);
    }
    assert(a =~= b);
}

/// Bit `index` of a number is the matching bit of the limb that holds it.
proof fn lemma_bit_in_limb(s: Seq<u32>, index: nat)
    requires
        index / 32 < s.len(),
    ensures
        bit_of(limbs_value(s), index) == ((s[(index / 32) as int] as nat / pow2(index % 32)) % 2
            == 1),
{
    let k = index / 32;
    let j = index % 32;
    let v = limbs_value(s);
    lemma_value_limb(s, k as int);
    let x = v / pow2(32 * k);
    lemma_pow2_pos(32 * k);
    lemma_pow2_pos(j);
    lemma_pow2_pos((32 - j) as nat);
    lemma_pow2_adds(32 * k, j);
    assert(32 * k + j == index);
    lemma_div_denominator(v as int, pow2(32 * k) as int, pow2(j) as int);
    // v / 2^index == x / 2^j
    lemma_pow2_adds(j, (32 - j) as nat);
    let y = pow2(j);
    let z = pow2((32 - j) as nat);
    assert(y * z == pow2(32));
    lemma_breakdown(x as int, y as int, z as int);
    // x % 2^32 == y * ((x / y) % z) + x % y, so (x % 2^32) / y == (x / y) % z
    lemma_mod_pos_bound(x as int, y as int);
    lemma_mod_pos_bound((x / y) as int, z as int);
    lemma_fundamental_div_mod_converse(
        (x % (y * z)) as int,
        y as int,
        ((x / y) % z) as int,
        (x % y) as int,
    );
    // ((x / y) % z) % 2 == (x / y) % 2
    lemma_pow2_adds(1, (31 - j) as nat);
    lemma_pow2_pos((31 - j) as nat);
    assert(pow2(1) == 2) by {
        lemma2_to64();
    }
    lemma_mod_mod((x / y) as int, 2, pow2((31 - j) as nat) as int);
}

/// A number below `2^index` has bit `index` and every higher bit clear.
proof fn lemma_bit_beyond(v: nat, index: nat)
    requires
        v < pow2(index),
    ensures
        !bit_of(v, index),
{
    lemma_pow2_pos(index);
    lemma_small_div_converse_nat(v, pow2(index));
}

proof fn lemma_small_div_converse_nat(v: nat, d: nat)
    requires
        v < d,
        d > 0,
    ensures
        v / d == 0,
{
    lemma_basic_div(v as int, d as int);
}

/// Dropping the low bit: `x / 2^i == 2 * (x / 2^(i+1)) + bit i`.
proof fn lemma_div_pow2_step(x: nat, i: nat)
    ensures
        x / pow2(i) == 2 * (x / pow2(i + 1)) + (x / pow2(i)) % 2,
        (x / pow2(i)) % 2 < 2,
{
    lemma_pow2_pos(i);
    lemma_pow2_adds(i, 1);
    assert(pow2(1) == 2) by {
        lemma2_to64();
    }
    lemma_div_denominator(x as int, pow2(i) as int, 2);
    lemma_fundamental_div_mod((x / pow2(i)) as int, 2);
    lemma_mod_pos_bound((x / pow2(i)) as int, 2);
}

/// `2^e` as a `u32` shift.
proof fn lemma_u32_one_shl(e: u32)
    requires
        e < 32,
    ensures
        (1u32 << e) as nat == pow2(e as nat),
{
    lemma_u32_pow2_no_overflow(e as nat);
    lemma_u32_shl_is_mul(1, e);
}

/// `2^e` as a `u128` shift.
proof fn lemma_u128_one_shl(e: u128)
    requires
        e < 128,
    ensures
        (1u128 << e) as nat == pow2(e as nat),
    decreases e,
{
    if e == 0 {
        assert(1u128 << 0u128 == 1u128) by (bit_vector);
        lemma2_to64();
    } else {
        lemma_u128_one_shl((e - 1) as u128);
        assert(1u128 << e == 2 * (1u128 << (e - 1) as u128)) by (bit_vector)
            requires
                0 < e < 128,
        ;
        lemma_pow2_unfold(e as nat);
    }
}

/// Setting a clear bit of a `u32` adds its weight; setting a set one changes nothing.
proof fn lemma_u32_or_bit(x: u32, e: u32)
    requires
        e < 32,
    ensures
        (x | (1u32 << e)) as nat == if (x as nat / pow2(e as nat)) % 2 == 1 {
            x as nat
        } else {
            x as nat + pow2(e as nat)
        },
{
    lemma_u32_shr_is_div(x, e);
    lemma_u32_one_shl(e);
    assert(((x >> e) & 1u32) == (x >> e) % 2) by (bit_vector);
    assert((x >> e) & 1u32 == 1u32 ==> x | (1u32 << e) == x) by (bit_vector)
        requires
            e < 32,
    ;
    assert((x >> e) & 1u32 == 0u32 ==> (x | (1u32 << e)) == x + (1u32 << e)) by (bit_vector)
        requires
            e < 32,
    ;
}


/// Big endian bytes laid end to end.
pub proof fn lemma_be_concat(a: Seq<u8>, b: Seq<u8>)
    ensures
        be_value(a + b) == be_value(a) * pow2(8 * b.len()) + be_value(b),
    decreases b.len(),
{
    if b.len() == 0 {
        assert(a + b =~= a);
        lemma2_to64();
        assert(be_value(b) == 0);
        lemma_mul_basics(be_value(a) as int);
    } else {
        let b1 = b.drop_last();
        assert((a + b).drop_last() =~= a + b1);
        assert((a + b).last() == b.last());
        lemma_be_concat(a, b1);
        lemma_pow2_adds(8 * b1.len(), 8);
        lemma2_to64();
        assert(8 * b1.len() + 8 == 8 * b.len());
        let p = pow2(8 * b1.len());
        let x = be_value(a);
        let y = be_value(b1);
        assert((x * p + y) * 256 == x * (p * 256) + y * 256) by (nonlinear_arith);
    }
}

/// Big endian bytes fit their width.
pub proof fn lemma_be_bound(s: Seq<u8>)
    ensures
        be_value(s) < pow2(8 * s.len()),
    decreases s.len(),
{
    lemma2_to64();
    if s.len() > 0 {
        let d = s.drop_last();
        lemma_be_bound(d);
        lemma_pow2_adds(8 * d.len(), 8);
        assert(8 * d.len() + 8 == 8 * s.len());
        let p = pow2(8 * d.len());
        assert(be_value(d) * 256 + 255 < p * 256) by (nonlinear_arith)
            requires
                be_value(d) < p,
        ;
    }
}

/// `n` written big endian in `width` bytes, dropping what does not fit.
pub open spec fn be_bytes(n: nat, width: nat) -> Seq<u8>
    decreases width,
{
    if width == 0 {
        Seq::empty()
    } else {
        be_bytes(n / 256, (width - 1) as nat).push((n % 256) as u8)
    }
}

/// Bytes are the big endian writing of their own value.
pub proof fn lemma_be_bytes_of_value(s: Seq<u8>)
    ensures
        be_bytes(be_value(s), s.len()) == s,
    decreases s.len(),
{
    if s.len() > 0 {
        let d = s.drop_last();
        lemma_be_bytes_of_value(d);
        lemma_fundamental_div_mod_converse(
            be_value(s) as int,
            256,
            be_value(d) as int,
            s.last() as int,
        );
        assert(be_bytes(be_value(s), s.len()) =~= s);
    }
}

/// `k` zero bytes.
pub open spec fn zero_bytes(k: nat) -> Seq<u8> {
    Seq::new(k, |i: int| 0u8)
}

/// Zero bytes spell zero.
proof fn lemma_be_zero_bytes(k: nat)
    ensures
        be_value(zero_bytes(k)) == 0,
    decreases k,
{
    if k > 0 {
        lemma_be_zero_bytes((k - 1) as nat);
        assert(zero_bytes(k).drop_last() =~= zero_bytes((k - 1) as nat));
    }
}

/// No bytes spell zero, and zero bytes in front of a number do not change it.
pub proof fn lemma_be_leading_zeros(k: nat, bytes: Seq<u8>)
    ensures
        be_value(Seq::<u8>::empty()) == 0,
        be_value(zero_bytes(k) + bytes) == be_value(bytes),
{
    lemma_be_zero_bytes(k);
    lemma_be_concat(zero_bytes(k), bytes);
    lemma_mul_basics(pow2(8 * bytes.len()) as int);
}

/// A one followed by `k` zero bytes spells `2^(8 k)`, a number of `8 k + 1` bits.
pub proof fn lemma_be_one_then_zeros(k: nat)
    ensures
        be_value(seq![1u8] + zero_bytes(k)) == pow2(8 * k),
        is_bit_length(pow2(8 * k), 8 * k + 1),
{
    lemma_be_zero_bytes(k);
    lemma_be_concat(seq![1u8], zero_bytes(k));
    assert(seq![1u8].drop_last() =~= Seq::<u8>::empty());
    assert(be_value(seq![1u8]) == be_value(Seq::<u8>::empty()) * 256 + 1);
    lemma_mul_basics(pow2(8 * k) as int);
    lemma_pow2_strictly_increases(8 * k, 8 * k + 1);
}

/// Two canonical numbers that agree above limb `k` and differ there compare as that limb does.
proof fn lemma_value_compare(a: Seq<u32>, b: Seq<u32>, k: int)
    requires
        a.len() == b.len(),
        0 <= k < a.len(),
        a[k] > b[k],
        forall|j: int| k < j < a.len() ==> a[j] == b[j],
    ensures
        limbs_value(a) > limbs_value(b),
{
    lemma_value_split(a, k);
    lemma_value_split(b, k);
    assert(a.skip(k + 1) =~= b.skip(k + 1));
    lemma_value_bound(b.take(k));
    assert(b.take(k).len() == k);
    let p = pow2((32 * k) as nat);
    let h = pow2(32) * limbs_value(a.skip(k + 1));
    let x = a[k] as nat;
    let y = b[k] as nat;
    assert(p * (x + h) >= p * (y + 1 + h)) by (nonlinear_arith)
        requires
            x >= y + 1,
    ;
    assert(p * (y + 1 + h) == p * (y + h) + p) by (nonlinear_arith);
}


/// Numbers that agree on every limb up to `n` are equal.
proof fn lemma_limbs_agree(a: Seq<u32>, b: Seq<u32>, n: usize)
    requires
        n >= a.len(),
        n >= b.len(),
        forall|j: int| 0 <= j < n ==> limb_at(a, j) == limb_at(b, j),
    ensures
        limbs_value(a) == limbs_value(b),
{
    lemma_pad(a, n as nat);
    lemma_pad(b, n as nat);
    assert(padded(a, n as nat) =~= padded(b, n as nat));
}

/// Numbers that agree above `index` and differ there compare as that limb does.
proof fn lemma_limbs_differ(a: Seq<u32>, b: Seq<u32>, n: usize, index: usize)
    requires
        n >= a.len(),
        n >= b.len(),
        index < n,
        forall|j: int| index < j < n ==> limb_at(a, j) == limb_at(b, j),
        limb_at(a, index as int) != limb_at(b, index as int),
    ensures
        limb_at(a, index as int) > limb_at(b, index as int) ==> limbs_value(a) > limbs_value(b),
        limb_at(a, index as int) < limb_at(b, index as int) ==> limbs_value(a) < limbs_value(b),
{
    let pa = padded(a, n as nat);
    let pb = padded(b, n as nat);
    lemma_pad(a, n as nat);
    lemma_pad(b, n as nat);
    if limb_at(a, index as int) > limb_at(b, index as int) {
        lemma_value_compare(pa, pb, index as int);
    } else {
        lemma_value_compare(pb, pa, index as int);
    }
}

// ---------------------------------------------------------------------------
// The number itself
// ---------------------------------------------------------------------------

impl BigUint {
    /// A number in its shortest form, with room for its bit count in a `usize`.
    pub closed spec fn wf(&self) -> bool {
        &&& canonical(self.limbs@)
        &&& self.limbs.len() <= usize::MAX / 32
    }

    /// The limbs, least significant first.
    pub closed spec fn digits(&self) -> Seq<u32> {
        self.limbs@
    }

    /// Two well formed numbers with the same value hold the same limbs, so
    /// comparing the limbs compares the numbers.
    pub proof fn lemma_equal_values_equal_digits(a: &BigUint, b: &BigUint)
        requires
            a.wf(),
            b.wf(),
            a@ == b@,
        ensures
            a.digits() == b.digits(),
    {
        lemma_canonical_unique(a.limbs@, b.limbs@);
    }

    /// A number read from bytes with zero bytes in front holds the same limbs
    /// as one read from the bytes alone.
    pub proof fn lemma_leading_zero_bytes(
        k: nat,
        bytes: Seq<u8>,
        with_zeros: &BigUint,
        without: &BigUint,
    )
        requires
            with_zeros.wf(),
            without.wf(),
            with_zeros@ == be_value(zero_bytes(k) + bytes),
            without@ == be_value(bytes),
        ensures
            with_zeros.digits() == without.digits(),
    {
        lemma_be_leading_zeros(k, bytes);
        lemma_canonical_unique(with_zeros.limbs@, without.limbs@);
    }

    /// A number read from no bytes at all is zero, in the single limb that
    /// `zero` gives.
    pub proof fn lemma_no_bytes(r: &BigUint)
        requires
            r.wf(),
            r@ == be_value(Seq::<u8>::empty()),
        ensures
            r.digits() == seq![0u32],
    {
        let z = seq![0u32];
        assert(z.drop_last() =~= Seq::<u32>::empty());
        assert(limbs_value(z) == limbs_value(Seq::<u32>::empty()) + 0 * pow2(0));
        lemma_canonical_unique(r.limbs@, z);
    }

    /// `2^(8 k)` and the number read from a one followed by `k` zero bytes
    /// hold the same limbs, and the power has `8 k + 1` bits.
    pub proof fn lemma_power_of_two_bytes(k: nat, power: &BigUint, read: &BigUint)
        requires
            power.wf(),
            read.wf(),
            power@ == pow2(8 * k),
            read@ == be_value(seq![1u8] + zero_bytes(k)),
        ensures
            power.digits() == read.digits(),
            is_bit_length(power@, 8 * k + 1),
    {
        lemma_be_one_then_zeros(k);
        lemma_canonical_unique(power.limbs@, read.limbs@);
    }

    pub fn zero() -> (r: Self)
        ensures
            r.wf(),
            r@ == 0,
            r.digits() == seq![0u32],
    {
        let r = Self { limbs: vec![0] };
        proof {
            assert(r.limbs@.drop_last() =~= Seq::<u32>::empty());
            assert(limbs_value(Seq::<u32>::empty()) == 0);
            assert(limbs_value(r.limbs@) == limbs_value(r.limbs@.drop_last()) + 0 * pow2(0));
        }
        r
    }

    /// The number that big endian `bytes` spell.
    pub fn from_be_bytes(bytes: &[u8]) -> (r: Self)
        requires
            bytes.len() <= 4 * (usize::MAX / 32),
        ensures
            r.wf(),
            r@ == be_value(bytes@),
    {
        let mut limbs: Vec<u32> = Vec::new();
        let mut position = bytes.len();
        while position > 0
            invariant
                position <= bytes.len() <= 4 * (usize::MAX / 32),
                position == 0 || bytes.len() - position == 4 * limbs.len(),
                4 * limbs.len() <= bytes.len() - position + 3,
                limbs_value(limbs@) == be_value(bytes@.subrange(position as int, bytes.len() as int)),
            decreases position,
        {
            let start = position.saturating_sub(4);
            let mut chunk: u32 = 0;
            let mut i = start;
            proof {
                lemma2_to64();
                assert(bytes@.subrange(start as int, start as int) =~= Seq::<u8>::empty());
            }
            while i < position
                invariant
                    start <= i <= position <= bytes.len(),
                    position - start <= 4,
                    chunk as nat == be_value(bytes@.subrange(start as int, i as int)),
                    (chunk as nat) < pow2((8 * (i - start)) as nat),
                decreases position - i,
            {
                proof {
                    lemma2_to64();
                    if i - start < 3 {
                        lemma_pow2_strictly_increases((8 * (i - start)) as nat, 24);
                    }
                    assert(bytes@.subrange(start as int, i + 1).drop_last() =~= bytes@.subrange(
                        start as int,
                        i as int,
                    ));
                    lemma_pow2_adds((8 * (i - start)) as nat, 8);
                    assert((8 * (i - start)) as nat + 8 == (8 * (i + 1 - start)) as nat);
                    assert(chunk * 256 + 256 <= pow2((8 * (i - start)) as nat) * 256) by (
                    nonlinear_arith)
                        requires
                            (chunk as nat) < pow2((8 * (i - start)) as nat),
                    ;
                }
                chunk = chunk * 256 + bytes[i] as u32;
                i += 1;
            }
            proof {
                let pos = position as int;
                let len = bytes.len() as int;
                assert(bytes@.subrange(start as int, len) =~= bytes@.subrange(start as int, pos)
                    + bytes@.subrange(pos, len));
                lemma_be_concat(bytes@.subrange(start as int, pos), bytes@.subrange(pos, len));
                lemma_value_push(limbs@, chunk);
                assert(8 * (len - pos) == 32 * limbs.len());
            }
            limbs.push(chunk);
            position = start;
        }
        proof {
            assert(bytes@.subrange(0, bytes.len() as int) =~= bytes@);
        }
        if limbs.len() == 0 {
            proof {
                lemma_value_push(limbs@, 0);
                assert(be_value(bytes@) == 0);
            }
            limbs.push(0);
        }
        let mut value = Self { limbs };
        value.trim();
        value
    }

    /// The value 2 raised to `exponent`.
    pub fn power_of_two(exponent: usize) -> (r: Self)
        requires
            exponent <= usize::MAX - 32,
        ensures
            r.wf(),
            r@ == pow2(exponent as nat),
    {
        let limb_count = exponent / 32 + 1;
        let mut limbs = vec![0u32; limb_count];
        let shift = (exponent % 32) as u32;
        let top = 1u32 << shift;
        proof {
            assert(limbs@ =~= Seq::<u32>::empty() + zeros(limb_count as nat));
            lemma_value_zeros(Seq::<u32>::empty(), limb_count as nat);
            assert(limbs_value(Seq::<u32>::empty()) == 0);
            lemma_value_update(limbs@, (exponent / 32) as int, top);
            lemma_u32_one_shl(shift);
            lemma_pow2_adds(shift as nat, (32 * (exponent / 32)) as nat);
            assert(shift + 32 * (exponent / 32) == exponent);
            lemma_pow2_pos(shift as nat);
        }
        limbs.set(exponent / 32, top);
        Self { limbs }
    }

    /// The number of binary digits, zero for zero.
    pub fn bit_length(&self) -> (r: usize)
        requires
            self.wf(),
        ensures
            is_bit_length(self@, r as nat),
    {
        let top = self.limbs.len() - 1;
        if self.limbs[top] == 0 && self.limbs.len() == 1 {
            proof {
                assert(self.limbs@.drop_last() =~= Seq::<u32>::empty());
                assert(limbs_value(Seq::<u32>::empty()) == 0);
                lemma_mul_basics(pow2(0) as int);
                lemma2_to64();
            }
            return 0;
        }
        let l = self.limbs[top];
        let zeros = l.leading_zeros();
        proof {
            axiom_u32_leading_zeros(l);
            let b = (32 - zeros) as nat;
            // l < 2^b
            if zeros > 0 {
                lemma_u32_shr_is_div(l, (32 - zeros) as u32);
                lemma_pow2_pos(b);
                if l as nat >= pow2(b) {
                    lemma_div_is_ordered(pow2(b) as int, l as int, pow2(b) as int);
                    lemma_div_by_self(pow2(b) as int);
                }
            } else {
                lemma2_to64();
            }
            // 2^(b-1) <= l
            lemma_u32_shr_is_div(l, (31 - zeros) as u32);
            assert(((l >> ((31 - zeros) as u32)) & 1u32) != 0u32 ==> (l >> ((31 - zeros) as u32))
                >= 1u32) by (bit_vector);
            lemma_pow2_pos((b - 1) as nat);
            if (l as nat) < pow2((b - 1) as nat) {
                lemma_small_div_converse_nat(l as nat, pow2((b - 1) as nat));
            }
            let p = pow2((32 * top) as nat);
            lemma_value_bound(self.limbs@.drop_last());
            lemma_pow2_adds((32 * top) as nat, b);
            lemma_pow2_adds((32 * top) as nat, (b - 1) as nat);
            assert(pow2((b - 1) as nat) * p <= (l as nat) * p) by {
                lemma_mul_inequality(pow2((b - 1) as nat) as int, l as int, p as int);
            }
            assert(((l as nat) + 1) * p <= pow2(b) * p) by {
                lemma_mul_inequality((l + 1) as int, pow2(b) as int, p as int);
            }
            assert(((l as nat) + 1) * p == (l as nat) * p + p) by (nonlinear_arith);
            lemma_mul_is_commutative(p as int, pow2(b) as int);
            lemma_mul_is_commutative(p as int, pow2((b - 1) as nat) as int);
            assert((32 * top) as nat + b == (top * 32 + (32 - zeros)) as nat);
        }
        top * 32 + (32 - zeros as usize)
    }

    /// Whether bit `index` is set.
    fn bit(&self, index: usize) -> (b: bool)
        ensures
            b == bit_of(self@, index as nat),
    {
        let limb = index / 32;
        if limb < self.limbs.len() {
            let shift = (index % 32) as u32;
            let word = self.limbs[limb];
            proof {
                lemma_bit_in_limb(self.limbs@, index as nat);
                lemma_u32_shr_is_div(word, shift);
                assert(((word >> shift) & 1u32) == (word >> shift) % 2) by (bit_vector);
            }
            (word >> shift) & 1 == 1
        } else {
            proof {
                lemma_value_bound(self.limbs@);
                if 32 * self.limbs.len() < index {
                    lemma_pow2_strictly_increases((32 * self.limbs.len()) as nat, index as nat);
                }
                lemma_bit_beyond(self@, index as nat);
            }
            false
        }
    }

    /// Sets bit `index`, growing the number if it is beyond the top limb.
    fn set_bit(&mut self, index: usize)
        requires
            canonical(old(self).limbs@),
        ensures
            canonical(final(self).limbs@),
            final(self)@ == if bit_of(old(self)@, index as nat) {
                old(self)@
            } else {
                old(self)@ + pow2(index as nat)
            },
            final(self).limbs.len() == if index / 32 < old(self).limbs.len() {
                old(self).limbs.len() as int
            } else {
                index / 32 + 1
            },
    {
        let limb = index / 32;
        if limb >= self.limbs.len() {
            let ghost before = self.limbs@;
            self.limbs.resize(limb + 1, 0);
            proof {
                let n = (limb + 1 - before.len()) as nat;
                assert(self.limbs@ =~= before + zeros(n)) by {
                    assert forall|i: int| before.len() <= i < limb + 1 implies self.limbs@[i]
                        == 0u32 by {
                        assert(cloned::<u32>(0u32, self.limbs@[i]));
                    }
                    assert(self.limbs@.subrange(0, before.len() as int) == before);
                }
                lemma_value_zeros(before, n);
                lemma_value_bound(before);
                if 32 * before.len() < index {
                    lemma_pow2_strictly_increases((32 * before.len()) as nat, index as nat);
                }
                lemma_bit_beyond(limbs_value(before), index as nat);
            }
        }
        let shift = (index % 32) as u32;
        let word = self.limbs[limb];
        let updated = word | (1u32 << shift);
        proof {
            lemma_bit_in_limb(self.limbs@, index as nat);
            lemma_u32_or_bit(word, shift);
            lemma_value_update(self.limbs@, limb as int, updated);
            lemma_pow2_adds((32 * limb) as nat, shift as nat);
            assert(32 * limb + shift == index);
            assert(updated != 0u32) by (bit_vector)
                requires
                    updated == word | (1u32 << shift),
                    shift < 32,
            ;
            let p = pow2((32 * limb) as nat);
            assert(((word as nat) + pow2(shift as nat)) * p == (word as nat) * p + pow2(
                shift as nat,
            ) * p) by (nonlinear_arith);
            lemma_mul_is_commutative(p as int, pow2(shift as nat) as int);
        }
        self.limbs.set(limb, updated);
    }

    /// Doubles the number.
    fn shift_left_one(&mut self)
        requires
            canonical(old(self).limbs@),
            old(self).limbs.len() < usize::MAX,
        ensures
            canonical(final(self).limbs@),
            final(self)@ == 2 * old(self)@,
            final(self).limbs.len() <= old(self).limbs.len() + 1,
    {
        let n = self.limbs.len();
        let mut carry: u32 = 0;
        let mut i: usize = 0;
        proof {
            assert(self.limbs@.take(0) =~= Seq::<u32>::empty());
            assert(old(self).limbs@.take(0) =~= Seq::<u32>::empty());
            assert(limbs_value(Seq::<u32>::empty()) == 0);
        }
        while i < n
            invariant
                n == self.limbs.len() == old(self).limbs.len(),
                i <= n,
                carry <= 1,
                forall|j: int| i <= j < n ==> self.limbs@[j] == old(self).limbs@[j],
                limbs_value(self.limbs@.take(i as int)) + (carry as nat) * pow2((32 * i) as nat)
                    == 2 * limbs_value(old(self).limbs@.take(i as int)),
                i > 0 ==> (old(self).limbs@[i - 1] != 0 && carry == 0 ==> self.limbs@[i - 1]
                    != 0),
            decreases n - i,
        {
            let word = self.limbs[i];
            let next = word >> 31;
            let shifted = (word << 1) | carry;
            proof {
                assert(shifted as int + (next as int) * 0x1_0000_0000 == 2 * (word as int)
                    + carry as int) by (bit_vector)
                    requires
                        next == word >> 31,
                        shifted == (word << 1) | carry,
                        carry <= 1,
                ;
                assert(word != 0 && next == 0 ==> shifted != 0) by (bit_vector)
                    requires
                        next == word >> 31,
                        shifted == (word << 1) | carry,
                ;
                assert(next <= 1) by (bit_vector)
                    requires
                        next == word >> 31,
                ;
                let ghost before = self.limbs@;
                lemma_value_take(before.update(i as int, shifted), i as int);
                lemma_value_take(old(self).limbs@, i as int);
                assert(before.update(i as int, shifted).take(i as int) =~= before.take(i as int));
                let p = pow2((32 * i) as nat);
                lemma_pow2_32_mul(i as nat);
                assert((32 * (i + 1)) as nat == 32 * ((i as nat) + 1));
                assert((shifted as nat) * p + (next as nat) * (0x1_0000_0000 * p) == (2 * (
                word as nat) + carry as nat) * p) by (nonlinear_arith)
                    requires
                        shifted as int + (next as int) * 0x1_0000_0000 == 2 * (word as int)
                            + carry as int,
                ;
                assert((2 * (word as nat) + carry as nat) * p == 2 * ((word as nat) * p) + (
                carry as nat) * p) by (nonlinear_arith);
                lemma_mul_is_commutative(0x1_0000_0000, p as int);
            }
            self.limbs.set(i, shifted);
            carry = next;
            i += 1;
        }
        proof {
            assert(self.limbs@.take(n as int) =~= self.limbs@);
            assert(old(self).limbs@.take(n as int) =~= old(self).limbs@);
        }
        if carry != 0 {
            proof {
                lemma_value_push(self.limbs@, carry);
            }
            self.limbs.push(carry);
        }
    }

    /// Compares two numbers.
    fn cmp(&self, other: &Self) -> (o: std::cmp::Ordering)
        ensures
            (o == std::cmp::Ordering::Less) == (self@ < other@),
            (o == std::cmp::Ordering::Equal) == (self@ == other@),
            (o == std::cmp::Ordering::Greater) == (self@ > other@),
    {
        let n = if self.limbs.len() > other.limbs.len() {
            self.limbs.len()
        } else {
            other.limbs.len()
        };
        let mut index = n;
        while index > 0
            invariant
                index <= n,
                n >= self.limbs.len(),
                n >= other.limbs.len(),
                forall|j: int|
                    index <= j < n ==> limb_at(self.limbs@, j) == limb_at(other.limbs@, j),
            decreases index,
        {
            index -= 1;
            let left = if index < self.limbs.len() {
                self.limbs[index]
            } else {
                0
            };
            let right = if index < other.limbs.len() {
                other.limbs[index]
            } else {
                0
            };
            if left != right {
                proof {
                    lemma_limbs_differ(self.limbs@, other.limbs@, n, index);
                }
                if left > right {
                    return std::cmp::Ordering::Greater;
                } else {
                    return std::cmp::Ordering::Less;
                }
            }
        }
        proof {
            lemma_limbs_agree(self.limbs@, other.limbs@, n);
        }
        std::cmp::Ordering::Equal
    }

    /// Whether this number is at least `other`.
    fn at_least(&self, other: &Self) -> (b: bool)
        ensures
            b == (self@ >= other@),
    {
        match self.cmp(other) {
            std::cmp::Ordering::Less => false,
            _ => true,
        }
    }

    /// Subtracts a number no larger than this one.
    fn subtract_assign(&mut self, other: &Self)
        requires
            canonical(old(self).limbs@),
            canonical(other.limbs@),
            old(self)@ >= other@,
        ensures
            canonical(final(self).limbs@),
            final(self)@ == old(self)@ - other@,
            final(self).limbs.len() <= old(self).limbs.len(),
    {
        let n = self.limbs.len();
        proof {
            lemma_value_bound(old(self).limbs@);
            lemma_canonical_len(other.limbs@, n as nat);
            lemma_pad(other.limbs@, n as nat);
            assert(self.limbs@.take(0) =~= Seq::<u32>::empty());
            assert(padded(other.limbs@, n as nat).take(0) =~= Seq::<u32>::empty());
            assert(old(self).limbs@.take(0) =~= Seq::<u32>::empty());
            assert(limbs_value(Seq::<u32>::empty()) == 0);
        }
        let ghost po = padded(other.limbs@, n as nat);
        let mut borrow: i64 = 0;
        let mut index: usize = 0;
        while index < n
            invariant
                n == self.limbs.len() == old(self).limbs.len(),
                other.limbs.len() <= n,
                po == padded(other.limbs@, n as nat),
                po.len() == n,
                forall|j: int| 0 <= j < n ==> #[trigger] po[j] == limb_at(other.limbs@, j),
                index <= n,
                0 <= borrow <= 1,
                forall|j: int| index <= j < n ==> self.limbs@[j] == old(self).limbs@[j],
                limbs_value(self.limbs@.take(index as int)) as int == limbs_value(
                    old(self).limbs@.take(index as int),
                ) as int - limbs_value(po.take(index as int)) as int + (borrow as int) * pow2(
                    (32 * index) as nat,
                ) as int,
            decreases n - index,
        {
            let right: i64 = if index < other.limbs.len() {
                other.limbs[index] as i64
            } else {
                0
            };
            let left = self.limbs[index] as i64;
            let ghost old_borrow = borrow;
            let mut difference = left - right - borrow;
            if difference < 0 {
                difference = difference + 0x1_0000_0000i64;
                borrow = 1;
            } else {
                borrow = 0;
            }
            let word = difference as u32;
            proof {
                let ghost before = self.limbs@;
                let i = index as int;
                assert(po[i] as int == right);
                lemma_value_take(before.update(i, word), i);
                lemma_value_take(old(self).limbs@, i);
                lemma_value_take(po, i);
                assert(before.update(i, word).take(i) =~= before.take(i));
                let p = pow2((32 * index) as nat);
                lemma_pow2_32_mul(index as nat);
                assert((32 * (index + 1)) as nat == 32 * ((index as nat) + 1));
                assert(word as int == left - right - old_borrow + 0x1_0000_0000 * borrow);
                assert((word as int) * p == (left - right - old_borrow) * p + (borrow as int) * (
                0x1_0000_0000 * p)) by (nonlinear_arith)
                    requires
                        word as int == left - right - old_borrow + 0x1_0000_0000 * borrow,
                ;
                assert((left - right - old_borrow) * p == left * p - right * p - old_borrow * p)
                    by (nonlinear_arith);
                lemma_mul_is_commutative(0x1_0000_0000, p as int);
            }
            self.limbs.set(index, word);
            index += 1;
        }
        proof {
            assert(self.limbs@.take(n as int) =~= self.limbs@);
            assert(old(self).limbs@.take(n as int) =~= old(self).limbs@);
            assert(po.take(n as int) =~= po);
            lemma_value_bound(self.limbs@);
            lemma_pow2_pos((32 * n) as nat);
            lemma_pad(other.limbs@, n as nat);
            assert(borrow == 0) by {
                if borrow == 1 {
                    assert((borrow as int) * pow2((32 * n) as nat) as int == pow2(
                        (32 * n) as nat,
                    ) as int);
                }
            }
        }
        self.trim();
    }

    /// Long division, one bit of the quotient at a time.
    pub fn divide(&self, divisor: &Self) -> (q: Self)
        requires
            self.wf(),
            divisor.wf(),
            divisor@ > 0,
        ensures
            q.wf(),
            q@ == self@ / divisor@,
    {
        let mut quotient = Self::zero();
        let mut remainder = Self::zero();
        let mut index = self.bit_length();
        let ghost mut big_q: nat = 0;
        proof {
            assert(quotient.limbs@.len() == 1);
            assert(remainder.limbs@.len() == 1);
            lemma_value_bound(self.limbs@);
            if index > 0 && (index - 1) as nat >= 32 * self.limbs.len() {
                if (index - 1) as nat > 32 * self.limbs.len() {
                    lemma_pow2_strictly_increases(
                        (32 * self.limbs.len()) as nat,
                        (index - 1) as nat,
                    );
                }
            }
            lemma_small_div_converse_nat(self@, pow2(index as nat));
            lemma_pow2_pos(index as nat);
            lemma_mul_basics(pow2(index as nat) as int);
            lemma_mul_basics(divisor@ as int);
        }
        while index > 0
            invariant
                self.wf(),
                divisor.wf(),
                divisor@ > 0,
                canonical(quotient.limbs@),
                quotient.limbs.len() <= self.limbs.len(),
                canonical(remainder.limbs@),
                remainder.limbs.len() <= divisor.limbs.len(),
                remainder@ < divisor@,
                index <= 32 * self.limbs.len(),
                quotient@ == big_q * pow2(index as nat),
                self@ / pow2(index as nat) == big_q * divisor@ + remainder@,
            decreases index,
        {
            index -= 1;
            let ghost r0 = remainder@;
            let ghost q0 = quotient@;
            remainder.shift_left_one();
            let set = self.bit(index);
            if set {
                proof {
                    lemma_pow2_pos(0);
                    lemma2_to64();
                    assert((2 * r0) % 2 == 0) by (nonlinear_arith);
                }
                remainder.set_bit(0);
            }
            let ghost r2 = remainder@;
            proof {
                lemma2_to64();
                lemma_div_pow2_step(self@, index as nat);
                assert(r2 == 2 * r0 + if set { 1nat } else { 0nat });
                let p = pow2(index as nat);
                lemma_pow2_adds(index as nat, 1);
                assert(q0 == big_q * (p * 2));
                assert(big_q * (p * 2) == (2 * big_q) * p) by (nonlinear_arith);
                assert(self@ / p == 2 * (big_q * divisor@ + r0) + if set { 1nat } else { 0nat });
                assert(2 * (big_q * divisor@) == (2 * big_q) * divisor@) by (nonlinear_arith);
                lemma_pow2_pos(index as nat);
                lemma_div_multiples_vanish((2 * big_q) as int, p as int);
                lemma_mul_is_commutative(p as int, (2 * big_q) as int);
                assert((2 * big_q) % 2 == 0) by (nonlinear_arith);
                lemma_value_bound(divisor.limbs@);
                lemma_value_bound(self.limbs@);
            }
            if remainder.at_least(divisor) {
                remainder.subtract_assign(divisor);
                quotient.set_bit(index);
                proof {
                    big_q = 2 * big_q + 1;
                    let p = pow2(index as nat);
                    assert((2 * (big_q - 1) / 2 + 1) == big_q);
                    assert(((2 * ((big_q - 1) / 2)) * p + p) == big_q * p) by (nonlinear_arith)
                        requires
                            big_q == 2 * ((big_q - 1) / 2) + 1,
                    ;
                    assert(big_q * divisor@ == 2 * ((big_q - 1) / 2) * divisor@ + divisor@) by (
                    nonlinear_arith)
                        requires
                            big_q == 2 * ((big_q - 1) / 2) + 1,
                    ;
                }
            } else {
                proof {
                    big_q = 2 * big_q;
                }
            }
            proof {
                lemma_canonical_len(remainder.limbs@, divisor.limbs.len() as nat);
            }
        }
        proof {
            lemma2_to64();
            lemma_mul_basics(big_q as int);
            lemma_div_basics(self@ as int);
            assert(index == 0);
            assert(self@ == big_q * divisor@ + remainder@);
            lemma_fundamental_div_mod_converse(
                self@ as int,
                divisor@ as int,
                big_q as int,
                remainder@ as int,
            );
            lemma_mul_is_commutative(divisor@ as int, big_q as int);
        }
        quotient.trim();
        quotient
    }

    /// Splits into `count` limbs of 120 bits, least significant first, which
    /// is how the circuits take a big number.
    pub fn to_limbs_120(&self, count: usize) -> (out: Vec<u128>)
        requires
            self.wf(),
            count <= usize::MAX / 120,
            self@ < pow2(120 * count as nat),
        ensures
            out.len() == count,
            forall|i: int| 0 <= i < count ==> out@[i] as nat == limb_120(self@, i as nat),
            limbs_120_value(out@) == self@,
    {
        let mut out = vec![0u128; count];
        let total = count * 120;
        let mut index: usize = 0;
        proof {
            assert forall|j: int| 0 <= j < count implies out@[j] as nat == (self@ / pow2(
                120 * j as nat,
            )) % pow2(filled(0, j)) by {
                assert(cloned::<u128>(0u128, out@[j]));
                lemma2_to64();
                assert((self@ / pow2(120 * j as nat)) % 1 == 0);
            }
        }
        while index < total
            invariant
                total == count * 120,
                index <= total,
                out.len() == count,
                forall|j: int|
                    0 <= j < count ==> out@[j] as nat == (self@ / pow2(120 * j as nat)) % pow2(
                        filled(index as int, j),
                    ),
            decreases total - index,
        {
            let k = index / 120;
            let shift = (index % 120) as u128;
            let ghost old_out = out@;
            let set = self.bit(index);
            if set {
                let word = out[k];
                let updated = word | (1u128 << shift);
                proof {
                    lemma_u128_one_shl(shift);
                    lemma_pow2_pos(shift as nat);
                    let x = self@ / pow2(120 * k as nat);
                    lemma_pow2_pos(120 * k as nat);
                    lemma_mod_pos_bound(x as int, pow2(shift as nat) as int);
                    assert(filled(index as int, k as int) == shift);
                    assert(word < (1u128 << shift));
                    assert(word | (1u128 << shift) == word + (1u128 << shift)) by (bit_vector)
                        requires
                            shift < 120,
                            word < (1u128 << shift),
                    ;
                }
                out.set(k, updated);
            }
            proof {
                let x = self@ / pow2(120 * k as nat);
                let r = shift as nat;
                lemma_pow2_pos(120 * k as nat);
                lemma_pow2_pos(r);
                lemma_pow2_adds(r, 1);
                lemma_pow2_adds(120 * k as nat, r);
                lemma2_to64();
                assert(120 * (k as nat) + r == index);
                lemma_breakdown(x as int, pow2(r) as int, 2);
                lemma_div_denominator(self@ as int, pow2(120 * k as nat) as int, pow2(r) as int);
                lemma_mod_pos_bound((x / pow2(r)) as int, 2);
                assert(filled(index + 1, k as int) == r + 1);
                assert(filled(index as int, k as int) == r);
                assert(x / pow2(r) == self@ / pow2(index as nat));
                assert(old_out[k as int] as nat == x % pow2(r));
                assert(pow2(r + 1) == pow2(r) * 2);
                assert(x % pow2(r + 1) == pow2(r) * ((x / pow2(r)) % 2) + x % pow2(r));
                assert(out@[k as int] as nat == x % pow2(r + 1)) by {
                    if set {
                        assert((x / pow2(r)) % 2 == 1);
                        lemma_mul_basics(pow2(r) as int);
                        assert(out@[k as int] as nat == old_out[k as int] as nat + pow2(r));
                    } else {
                        assert((x / pow2(r)) % 2 == 0);
                        lemma_mul_basics(pow2(r) as int);
                        assert(out@ == old_out);
                    }
                }
                assert forall|j: int|
                    0 <= j < count implies out@[j] as nat == (self@ / pow2(120 * j as nat)) % pow2(
                    filled(index + 1, j),
                ) by {
                    if j != k {
                        assert(filled(index + 1, j) == filled(index as int, j));
                        assert(out@[j] == old_out[j]);
                    }
                }
            }
            index += 1;
        }
        proof {
            assert forall|j: int| 0 <= j < count implies filled(total as int, j) == 120 by {
                assert(j + 1 <= count);
                assert(120 * (j + 1) <= 120 * count) by (nonlinear_arith)
                    requires
                        j + 1 <= count,
                ;
            }
            lemma_limbs_120_recombine(self@, count as nat, out@);
        }
        out
    }

    /// Drops zero limbs from the top, keeping at least one.
    fn trim(&mut self)
        requires
            old(self).limbs.len() >= 1,
        ensures
            canonical(final(self).limbs@),
            final(self)@ == old(self)@,
            final(self).limbs.len() <= old(self).limbs.len(),
    {
        while self.limbs.len() > 1 && self.limbs[self.limbs.len() - 1] == 0
            invariant
                self.limbs.len() >= 1,
                self@ == old(self)@,
                self.limbs.len() <= old(self).limbs.len(),
            decreases self.limbs.len(),
        {
            let ghost before = self.limbs@;
            self.limbs.pop();
            proof {
                assert(self.limbs@ =~= before.drop_last());
                assert(before.last() == 0u32);
                assert(limbs_value(before) == limbs_value(before.drop_last()) + 0 * pow2(
                    (32 * (before.len() - 1)) as nat,
                ));
            }
        }
    }
}

} // verus!
