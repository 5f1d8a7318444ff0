//! Elliptic curve signatures as the circuits take them.
//!
//! Signatures come as DER `SEQUENCE { INTEGER r, INTEGER s }`. The circuits
//! require s at or below n/2, which certificate signatures do not
//! guarantee, so s is replaced by n - s when it is larger. Verification
//! accepts (r, s) exactly when it accepts (r, n - s), so this preserves what
//! the signature attests.
//!
//! Scalars are big endian byte strings of the curve's width.
use crate::bigint::{be_bytes, be_value, lemma_be_concat};
use crate::der;
use crate::der::{content_len_at, header_len_at, readable, unsigned_digits};
use sha2::Digest;
use vstd::arithmetic::power2::*;
use vstd::arithmetic::div_mod::*;
use vstd::arithmetic::mul::*;
use vstd::prelude::*;

verus! {

/// A curve as the fixtures use it: the name openssl knows it by, the width
/// of a scalar, and the group order, big endian.
#[derive(Clone, Copy)]
pub struct Curve {
    pub openssl_name: &'static str,
    pub scalar_bytes: usize,
    pub order: &'static [u8],
}

/// The order of the P-256 group.
pub const P256_ORDER: [u8; 32] = [
    0xff, 0xff, 0xff, 0xff, 0x00, 0x00, 0x00, 0x00, 0xff, 0xff, 0xff, 0xff, 0xff, 0xff, 0xff, 0xff,
    0xbc, 0xe6, 0xfa, 0xad, 0xa7, 0x17, 0x9e, 0x84, 0xf3, 0xb9, 0xca, 0xc2, 0xfc, 0x63, 0x25, 0x51,
];

/// P-256, which openssl calls prime256v1.
pub fn p256() -> (curve: Curve)
    ensures
        curve.scalar_bytes == 32,
        curve.order@ == P256_ORDER@,
        curve.order@.len() == 32,
{
    Curve { openssl_name: "prime256v1", scalar_bytes: 32, order: &P256_ORDER }
}

/// The order of the P-384 group.
pub const P384_ORDER: [u8; 48] = [
    0xff, 0xff, 0xff, 0xff, 0xff, 0xff, 0xff, 0xff, 0xff, 0xff, 0xff, 0xff, 0xff, 0xff, 0xff, 0xff,
    0xff, 0xff, 0xff, 0xff, 0xff, 0xff, 0xff, 0xff, 0xc7, 0x63, 0x4d, 0x81, 0xf4, 0x37, 0x2d, 0xdf,
    0x58, 0x1a, 0x0d, 0xb2, 0x48, 0xb0, 0xa7, 0x7a, 0xec, 0xec, 0x19, 0x6a, 0xcc, 0xc5, 0x29, 0x73,
];

/// The order of the brainpoolP384r1 group.
pub const BRAINPOOL_P384R1_ORDER: [u8; 48] = [
    0x8c, 0xb9, 0x1e, 0x82, 0xa3, 0x38, 0x6d, 0x28, 0x0f, 0x5d, 0x6f, 0x7e, 0x50, 0xe6, 0x41, 0xdf,
    0x15, 0x2f, 0x71, 0x09, 0xed, 0x54, 0x56, 0xb3, 0x1f, 0x16, 0x6e, 0x6c, 0xac, 0x04, 0x25, 0xa7,
    0xcf, 0x3a, 0xb6, 0xaf, 0x6b, 0x7f, 0xc3, 0x10, 0x3b, 0x88, 0x32, 0x02, 0xe9, 0x04, 0x65, 0x65,
];

/// P-384, the wider curve Doc 9303 permits, which openssl calls secp384r1.
pub fn p384() -> (curve: Curve)
    ensures
        curve.scalar_bytes == 48,
        curve.order@ == P384_ORDER@,
        curve.order@.len() == 48,
{
    Curve { openssl_name: "secp384r1", scalar_bytes: 48, order: &P384_ORDER }
}

/// brainpoolP384r1, the Brainpool curve of the same width.
pub fn brainpool_p384r1() -> (curve: Curve)
    ensures
        curve.scalar_bytes == 48,
        curve.order@ == BRAINPOOL_P384R1_ORDER@,
        curve.order@.len() == 48,
{
    Curve { openssl_name: "brainpoolP384r1", scalar_bytes: 48, order: &BRAINPOOL_P384R1_ORDER }
}

/// A generated key: where its private half is kept and its public point.
pub struct KeyPair {
    pub pem_path: std::path::PathBuf,
    pub public_x: Vec<u8>,
    pub public_y: Vec<u8>,
    pub curve: Curve,
}

/// A signature with both components at the curve's width.
pub struct Signature {
    pub r: Vec<u8>,
    pub s: Vec<u8>,
}

/// A path is carried through the library, never inspected.
#[verifier::external_type_specification]
#[verifier::external_body]
pub struct ExPathBuf(std::path::PathBuf);

/// The SHA-256 digest of `message`.
pub uninterp spec fn sha256_digest(message: Seq<u8>) -> Seq<u8>;

/// SHA-256 of `message`, through `sha2::Sha256::digest`. The digest is a
/// function of the message alone, and is 32 bytes long.
#[verifier::external_body]
pub fn sha256(message: &[u8]) -> (digest: Vec<u8>)
    ensures
        digest@ == sha256_digest(message@),
        digest@.len() == 32,
{
    sha2::Sha256::digest(message).to_vec()
}

// ---------------------------------------------------------------------------
// Scalars
// ---------------------------------------------------------------------------

/// `value` halved, byte by byte, the low bit of each byte carried into the
/// top of the next.
pub open spec fn halved(value: Seq<u8>) -> Seq<u8> {
    Seq::new(
        value.len(),
        |i: int|
            (value[i] / 2 + if i > 0 {
                (value[i - 1] % 2) * 128
            } else {
                0
            }) as u8,
    )
}

/// Compares `value` with the first bytes of `half`, most significant first:
/// true when the first byte that differs is larger in `value`.
pub open spec fn greater_prefix(value: Seq<u8>, half: Seq<u8>) -> bool
    decreases value.len(),
{
    if value.len() == 0 {
        false
    } else if value[0] != half[0] {
        value[0] > half[0]
    } else {
        greater_prefix(value.skip(1), half.skip(1))
    }
}

/// `s` brought to at most half the group order: `n - s` when `s` is above
/// `n / 2`, `s` otherwise.
pub open spec fn normalized(s: Seq<u8>, order: Seq<u8>) -> Seq<u8> {
    if greater_prefix(s, halved(order)) {
        be_bytes((be_value(order) - be_value(s)) as nat, order.len())
    } else {
        s
    }
}

/// `normalize_s` returns normally: the comparison with `n / 2` reads no
/// byte past the order, and a subtraction it makes does not go below zero.
pub open spec fn normalizable(s: Seq<u8>, order: Seq<u8>) -> bool {
    &&& s.len() <= order.len()
    &&& greater_prefix(s, halved(order)) ==> s.len() == order.len() && be_value(s) <= be_value(
        order,
    )
}

/// Halves a big endian number.
pub fn shift_right_one(value: &[u8]) -> (out: Vec<u8>)
    ensures
        out@ == halved(value@),
{
    let mut out = vec![0u8; value.len()];
    let mut carry: u8 = 0;
    let mut i: usize = 0;
    while i < value.len()
        invariant
            i <= value.len(),
            out@.len() == value.len(),
            carry <= 1,
            carry == if i > 0 {
                value@[i - 1] % 2
            } else {
                0
            },
            forall|j: int| 0 <= j < i ==> out@[j] == halved(value@)[j],
        decreases value.len() - i,
    {
        let byte = value[i];
        let next = (byte >> 1) | (carry << 7);
        proof {
            assert(next == byte / 2 + carry * 128) by (bit_vector)
                requires
                    next == (byte >> 1) | (carry << 7),
                    carry <= 1,
            ;
            assert(byte & 1 == byte % 2) by (bit_vector);
        }
        out.set(i, next);
        carry = byte & 1;
        i += 1;
    }
    proof {
        assert(out@ =~= halved(value@));
    }
    out
}

/// One step of the comparison: equal leading bytes defer to the rest.
proof fn lemma_greater_prefix_step(value: Seq<u8>, half: Seq<u8>, i: int)
    requires
        0 <= i < value.len(),
        value.len() <= half.len(),
    ensures
        greater_prefix(value.skip(i), half.skip(i)) == if value[i] != half[i] {
            value[i] > half[i]
        } else {
            greater_prefix(value.skip(i + 1), half.skip(i + 1))
        },
{
    assert(value.skip(i).skip(1) =~= value.skip(i + 1));
    assert(half.skip(i).skip(1) =~= half.skip(i + 1));
}

/// Whether `value` is above half the group `order`.
pub fn is_greater_than_half(value: &[u8], order: &[u8]) -> (greater: bool)
    requires
        value.len() <= order.len(),
    ensures
        greater == greater_prefix(value@, halved(order@)),
{
    let half = shift_right_one(order);
    let mut i: usize = 0;
    proof {
        assert(value@.skip(0) =~= value@);
        assert(half@.skip(0) =~= half@);
    }
    while i < value.len()
        invariant
            i <= value.len() <= half@.len(),
            half@ == halved(order@),
            greater_prefix(value@, half@) == greater_prefix(value@.skip(i as int), half@.skip(
                i as int,
            )),
        decreases value.len() - i,
    {
        proof {
            lemma_greater_prefix_step(value@, half@, i as int);
        }
        if value[i] != half[i] {
            return value[i] > half[i];
        }
        i += 1;
    }
    false
}

/// One more byte in front of big endian bytes.
proof fn lemma_be_prepend(s: Seq<u8>, i: int)
    requires
        0 <= i < s.len(),
    ensures
        be_value(s.subrange(i, s.len() as int)) == (s[i] as nat) * pow2(
            (8 * (s.len() - i - 1)) as nat,
        ) + be_value(s.subrange(i + 1, s.len() as int)),
{
    let one = seq![s[i]];
    let rest = s.subrange(i + 1, s.len() as int);
    assert(s.subrange(i, s.len() as int) =~= one + rest);
    lemma_be_concat(one, rest);
    assert(one.drop_last() =~= Seq::<u8>::empty());
    assert(be_value(Seq::<u8>::empty()) == 0);
    assert(be_value(one) == be_value(one.drop_last()) * 256 + (one.last() as nat));
    assert(be_value(one) == s[i] as nat);
}

/// `a - b` over the width of `a`, big endian.
pub fn subtract(a: &[u8], b: &[u8]) -> (out: Vec<u8>)
    requires
        b.len() >= a.len(),
        be_value(a@) >= be_value(b@.take(a.len() as int)),
    ensures
        out@.len() == a.len(),
        be_value(out@) == be_value(a@) - be_value(b@.take(a.len() as int)),
        out@ == be_bytes((be_value(a@) - be_value(b@.take(a.len() as int))) as nat, a.len() as nat),
{
    let n = a.len();
    let ghost bt = b@.take(n as int);
    let mut out = vec![0u8; n];
    let mut borrow: i16 = 0;
    let mut i = n;
    proof {
        lemma2_to64();
        assert(out@.subrange(n as int, n as int) =~= Seq::<u8>::empty());
        assert(a@.subrange(n as int, n as int) =~= Seq::<u8>::empty());
        assert(bt.subrange(n as int, n as int) =~= Seq::<u8>::empty());
    }
    while i > 0
        invariant
            n == a.len(),
            n <= b.len(),
            bt == b@.take(n as int),
            out@.len() == n,
            i <= n,
            0 <= borrow <= 1,
            be_value(out@.subrange(i as int, n as int)) as int == be_value(
                a@.subrange(i as int, n as int),
            ) as int - be_value(bt.subrange(i as int, n as int)) as int + (borrow as int) * pow2(
                (8 * (n - i)) as nat,
            ) as int,
        decreases i,
    {
        i -= 1;
        let ghost old_borrow = borrow;
        let ghost old_out = out@;
        let diff = a[i] as i16 - b[i] as i16 - borrow;
        let byte: u8;
        if diff < 0 {
            byte = (diff + 256) as u8;
            borrow = 1;
        } else {
            byte = diff as u8;
            borrow = 0;
        }
        out.set(i, byte);
        proof {
            let ii = i as int;
            lemma_be_prepend(out@, ii);
            lemma_be_prepend(a@, ii);
            lemma_be_prepend(bt, ii);
            assert(out@.subrange(ii + 1, n as int) =~= old_out.subrange(ii + 1, n as int));
            let p = pow2((8 * (n - i - 1)) as nat);
            lemma_pow2_adds((8 * (n - i - 1)) as nat, 8);
            assert((8 * (n - i - 1)) as nat + 8 == (8 * (n - i)) as nat);
            assert(byte as int == a[ii] as int - b[ii] as int - old_borrow + 256 * borrow);
            assert(bt[ii] == b[ii]);
            assert((byte as int) * p == (a[ii] as int) * p - (b[ii] as int) * p - old_borrow * p
                + borrow * (256 * p)) by (nonlinear_arith)
                requires
                    byte as int == a[ii] as int - b[ii] as int - old_borrow + 256 * borrow,
            ;
            lemma_mul_is_commutative(p as int, 256);
            let q = pow2((8 * (n - i)) as nat);
            lemma2_to64();
            assert(q == 256 * p);
            assert(be_value(out@.subrange(ii, n as int)) == (byte as nat) * p + be_value(
                old_out.subrange(ii + 1, n as int),
            ));
            assert(be_value(old_out.subrange(ii + 1, n as int)) as int == be_value(
                a@.subrange(ii + 1, n as int),
            ) as int - be_value(bt.subrange(ii + 1, n as int)) as int + (old_borrow as int) * p);
            assert(be_value(out@.subrange(ii, n as int)) as int == be_value(a@.subrange(ii, n as int))
                as int - be_value(bt.subrange(ii, n as int)) as int + (borrow as int) * q);
        }
    }
    proof {
        assert(out@.subrange(0, n as int) =~= out@);
        assert(a@.subrange(0, n as int) =~= a@);
        assert(bt.subrange(0, n as int) =~= bt);
        crate::bigint::lemma_be_bound(out@);
        crate::bigint::lemma_be_bytes_of_value(out@);
        assert(borrow == 0) by {
            if borrow == 1 {
                assert((borrow as int) * pow2((8 * n) as nat) as int == pow2((8 * n) as nat) as int);
            }
        }
    }
    out
}

/// Brings `s` to at most half the group order, which is what the circuits
/// accept: `n - s` when `s` is larger than `n / 2`.
pub fn normalize_s(s: &[u8], order: &[u8]) -> (out: Vec<u8>)
    requires
        normalizable(s@, order@),
    ensures
        out@ == normalized(s@, order@),
{
    if is_greater_than_half(s, order) {
        proof {
            assert(s@.take(order.len() as int) =~= s@);
        }
        subtract(order, s)
    } else {
        slice_to_vec(s)
    }
}

/// A copy of `bytes`.
fn slice_to_vec(bytes: &[u8]) -> (out: Vec<u8>)
    ensures
        out@ == bytes@,
{
    let mut out = Vec::new();
    der::append(&mut out, bytes);
    proof {
        assert(Seq::<u8>::empty() + bytes@ =~= bytes@);
    }
    out
}

// ---------------------------------------------------------------------------
// Laws of the scalar arithmetic
// ---------------------------------------------------------------------------

/// Halving byte by byte halves the number: `be(halved(v)) == be(v) / 2`.
pub proof fn lemma_halved_value(value: Seq<u8>)
    ensures
        be_value(value) == 2 * be_value(halved(value)) + if value.len() > 0 {
            (value.last() % 2) as nat
        } else {
            0
        },
        be_value(halved(value)) == be_value(value) / 2,
    decreases value.len(),
{
    if value.len() == 0 {
        assert(halved(value) =~= Seq::<u8>::empty());
    } else {
        let d = value.drop_last();
        let h = halved(value);
        lemma_halved_value(d);
        assert(h.drop_last() =~= halved(d));
        let l = value.last();
        if value.len() == 1 {
            assert(d =~= Seq::<u8>::empty());
            assert(halved(d) =~= Seq::<u8>::empty());
            assert(h.last() == l / 2);
        } else {
            assert(h.last() == l / 2 + (d.last() % 2) * 128);
        }
    }
    lemma_fundamental_div_mod_converse(
        be_value(value) as int,
        2,
        be_value(halved(value)) as int,
        if value.len() > 0 {
            (value.last() % 2) as int
        } else {
            0
        },
    );
}

/// On numbers of one width, the byte by byte comparison is the numeric one.
pub proof fn lemma_greater_prefix_numeric(a: Seq<u8>, b: Seq<u8>)
    requires
        a.len() == b.len(),
    ensures
        greater_prefix(a, b) == (be_value(a) > be_value(b)),
    decreases a.len(),
{
    if a.len() > 0 {
        let n = a.len() as int;
        lemma_be_prepend(a, 0);
        lemma_be_prepend(b, 0);
        assert(a.subrange(0, n) =~= a);
        assert(b.subrange(0, n) =~= b);
        assert(a.subrange(1, n) =~= a.skip(1));
        assert(b.subrange(1, n) =~= b.skip(1));
        crate::bigint::lemma_be_bound(a.skip(1));
        crate::bigint::lemma_be_bound(b.skip(1));
        let p = pow2((8 * (n - 1)) as nat);
        assert(8 * a.skip(1).len() == (8 * (n - 1)) as nat);
        if a[0] == b[0] {
            lemma_greater_prefix_numeric(a.skip(1), b.skip(1));
        } else if a[0] > b[0] {
            assert((a[0] as nat) * p >= (b[0] as nat + 1) * p) by (nonlinear_arith)
                requires
                    a[0] as nat >= b[0] as nat + 1,
            ;
            assert((b[0] as nat + 1) * p == (b[0] as nat) * p + p) by (nonlinear_arith);
        } else {
            assert((b[0] as nat) * p >= (a[0] as nat + 1) * p) by (nonlinear_arith)
                requires
                    b[0] as nat >= a[0] as nat + 1,
            ;
            assert((a[0] as nat + 1) * p == (a[0] as nat) * p + p) by (nonlinear_arith);
        }
    }
}

/// A signature component at most the group order is normalizable, and
/// normalizing it leaves a value at most half the order that is either the
/// component or the order minus it, so the signature still verifies.
pub proof fn lemma_normalize_low(s: Seq<u8>, order: Seq<u8>)
    requires
        s.len() == order.len(),
        be_value(s) <= be_value(order),
    ensures
        normalizable(s, order),
        !greater_prefix(normalized(s, order), halved(order)),
        be_value(normalized(s, order)) == be_value(s) || be_value(normalized(s, order))
            + be_value(s) == be_value(order),
        normalized(s, order).len() == order.len(),
{
    let half = halved(order);
    lemma_halved_value(order);
    lemma_greater_prefix_numeric(s, half);
    if greater_prefix(s, half) {
        let d = (be_value(order) - be_value(s)) as nat;
        let o = be_bytes(d, order.len());
        // o has the order's width and holds d, which is at most half.
        crate::bigint::lemma_be_bound(order);
        assert(d < pow2(8 * order.len()));
        lemma_be_bytes_len(d, order.len());
        lemma_be_bytes_value(d, order.len());
        lemma_fundamental_div_mod(be_value(order) as int, 2);
        assert(d <= be_value(half));
        lemma_greater_prefix_numeric(o, half);
    }
}

/// Normalizing twice is normalizing once.
pub proof fn lemma_normalize_idempotent(s: Seq<u8>, order: Seq<u8>)
    requires
        s.len() == order.len(),
        be_value(s) <= be_value(order),
    ensures
        normalized(normalized(s, order), order) == normalized(s, order),
{
    lemma_normalize_low(s, order);
}

/// `be_bytes` writes exactly the width asked for.
proof fn lemma_be_bytes_len(n: nat, width: nat)
    ensures
        be_bytes(n, width).len() == width,
    decreases width,
{
    if width > 0 {
        lemma_be_bytes_len(n / 256, (width - 1) as nat);
    }
}

/// `be_bytes` keeps a number that fits its width.
proof fn lemma_be_bytes_value(n: nat, width: nat)
    requires
        n < pow2(8 * width),
    ensures
        be_value(be_bytes(n, width)) == n,
    decreases width,
{
    lemma2_to64();
    if width == 0 {
    } else {
        let w1 = (width - 1) as nat;
        lemma_pow2_adds(8 * w1, 8);
        assert(8 * w1 + 8 == 8 * width);
        lemma_fundamental_div_mod(n as int, 256);
        assert(n / 256 < pow2(8 * w1)) by {
            lemma_div_is_ordered(n as int, (pow2(8 * width) - 1) as int, 256);
            lemma_div_by_multiple(pow2(8 * w1) as int, 256);
            lemma_mul_is_commutative(pow2(8 * w1) as int, 256);
            assert((pow2(8 * width) - 1) / 256 < pow2(8 * w1)) by {
                lemma_fundamental_div_mod((pow2(8 * width) - 1) as int, 256);
            }
        }
        lemma_be_bytes_value(n / 256, w1);
        let b = be_bytes(n, width);
        assert(b.drop_last() =~= be_bytes(n / 256, w1));
    }
}

// ---------------------------------------------------------------------------
// Reading what openssl prints
// ---------------------------------------------------------------------------

/// A DER INTEGER's content as a scalar of `width` bytes: the sign byte
/// dropped, zeros in front.
pub open spec fn fixed_width(content: Seq<u8>, width: nat) -> Seq<u8> {
    Seq::new((width - unsigned_digits(content).len()) as nat, |i: int| 0u8) + unsigned_digits(
        content,
    )
}

/// The contents of the two INTEGERs of a DER `SEQUENCE { INTEGER r, INTEGER s }`,
/// when the encoding is one the reader understands.
pub open spec fn signature_fields(sig: Seq<u8>) -> Option<(Seq<u8>, Seq<u8>)> {
    if readable(sig, 0) && sig[0] == der::TAG_SEQUENCE {
        let h = header_len_at(sig, 0) as int;
        let c = sig.subrange(h, h + content_len_at(sig, 0));
        if readable(c, 0) && c[0] == der::TAG_INTEGER {
            let rh = header_len_at(c, 0) as int;
            let rt = rh + content_len_at(c, 0);
            if readable(c, rt) && c[rt] == der::TAG_INTEGER {
                let sh = header_len_at(c, rt) as int;
                Some(
                    (
                        c.subrange(rh, rt),
                        c.subrange(rt + sh, rt + sh + content_len_at(c, rt)),
                    ),
                )
            } else {
                None
            }
        } else {
            None
        }
    } else {
        None
    }
}

/// The signature a DER encoding holds, at the curve's width with a low s,
/// or nothing where the encoding is malformed, a component does not fit the
/// width, or s cannot be brought below half the order.
pub open spec fn parsed_signature(sig: Seq<u8>, width: nat, order: Seq<u8>) -> Option<
    (Seq<u8>, Seq<u8>),
> {
    match signature_fields(sig) {
        Some((r, s)) => if unsigned_digits(r).len() <= width && unsigned_digits(s).len() <= width
            && normalizable(fixed_width(s, width), order) {
            Some((fixed_width(r, width), normalized(fixed_width(s, width), order)))
        } else {
            None
        },
        None => None,
    }
}

/// Reads a DER signature into fixed width components with s at most half
/// the group order. Nothing comes back for what cannot be a signature of
/// the curve: an encoding the reader cannot walk, a component wider than the
/// curve, or an s above the order.
pub fn parse_signature(der_sig: &[u8], curve: &Curve) -> (signature: Option<Signature>)
    ensures
        match parsed_signature(der_sig@, curve.scalar_bytes as nat, curve.order@) {
            Some((r, s)) => signature matches Some(sig) && sig.r@ == r && sig.s@ == s,
            None => signature is None,
        },
{
    if !readable_at(der_sig, 0) {
        return None;
    }
    let outer = der::read(der_sig, 0);
    if outer.tag != der::TAG_SEQUENCE {
        return None;
    }
    if !readable_at(outer.content, 0) {
        return None;
    }
    let r_tlv = der::read(outer.content, 0);
    if !readable_at(outer.content, r_tlv.total_len) {
        return None;
    }
    let s_tlv = der::read(outer.content, r_tlv.total_len);
    if r_tlv.tag != der::TAG_INTEGER || s_tlv.tag != der::TAG_INTEGER {
        return None;
    }
    let width = curve.scalar_bytes;
    if digits_len(r_tlv.content) > width || digits_len(s_tlv.content) > width {
        return None;
    }
    let r = der::integer_to_fixed(r_tlv.content, width);
    let s = der::integer_to_fixed(s_tlv.content, width);
    proof {
        assert(s@ =~= fixed_width(s_tlv.content@, width as nat));
        assert(r@ =~= fixed_width(r_tlv.content@, width as nat));
    }
    if s.len() > curve.order.len() {
        return None;
    }
    let greater = is_greater_than_half(s.as_slice(), curve.order);
    if greater {
        if s.len() != curve.order.len() || !at_most(s.as_slice(), curve.order) {
            return None;
        }
    }
    let normalized_s = normalize_s(s.as_slice(), curve.order);
    Some(Signature { r, s: normalized_s })
}

/// The length `unsigned_digits` keeps.
fn digits_len(content: &[u8]) -> (len: usize)
    ensures
        len == unsigned_digits(content@).len(),
{
    if content.len() > 1 && content[0] == 0 {
        content.len() - 1
    } else {
        content.len()
    }
}

/// Whether a TLV the reader understands starts at `offset`.
pub fn readable_at(buf: &[u8], offset: usize) -> (ok: bool)
    ensures
        ok == readable(buf@, offset as int),
{
    if offset >= buf.len() || buf.len() - offset < 2 {
        return false;
    }
    let first = buf[offset + 1];
    let rest = buf.len() - offset;
    if first < 0x80 {
        2 + (first as usize) <= rest
    } else if first == 0x81 {
        rest >= 3 && 3 + (buf[offset + 2] as usize) <= rest
    } else if first == 0x82 {
        rest >= 4 && 4 + (buf[offset + 2] as usize) * 256 + (buf[offset + 3] as usize) <= rest
    } else {
        false
    }
}

/// Whether big endian `a` is at most `b`, for one width.
fn at_most(a: &[u8], b: &[u8]) -> (ok: bool)
    requires
        a.len() == b.len(),
    ensures
        ok == (be_value(a@) <= be_value(b@)),
{
    let mut i: usize = 0;
    proof {
        assert(a@.skip(0) =~= a@);
        assert(b@.skip(0) =~= b@);
    }
    while i < a.len()
        invariant
            i <= a.len() == b.len(),
            greater_prefix(a@, b@) == greater_prefix(a@.skip(i as int), b@.skip(i as int)),
        decreases a.len() - i,
    {
        proof {
            lemma_greater_prefix_step(a@, b@, i as int);
        }
        if a[i] != b[i] {
            proof {
                lemma_greater_prefix_numeric(a@, b@);
            }
            return a[i] < b[i];
        }
        i += 1;
    }
    proof {
        lemma_greater_prefix_numeric(a@, b@);
        assert(a@.skip(a.len() as int) =~= Seq::<u8>::empty());
    }
    true
}

/// SubjectPublicKeyInfo ends with a BIT STRING holding `04 || X || Y`:
/// the two coordinates, or nothing when the key is not an uncompressed point
/// of that width.
pub fn uncompressed_point(spki: &[u8], scalar_bytes: usize) -> (point: Option<(Vec<u8>, Vec<u8>)>)
    requires
        1 + 2 * scalar_bytes <= usize::MAX,
    ensures
        point is Some <==> (1 + 2 * scalar_bytes <= spki.len() && spki@[spki.len() - (1 + 2
            * scalar_bytes)] == 0x04),
        point matches Some((x, y)) ==> {
            let start = spki.len() - (1 + 2 * scalar_bytes);
            &&& x@ == spki@.subrange(start + 1, start + 1 + scalar_bytes)
            &&& y@ == spki@.subrange(start + 1 + scalar_bytes, spki.len() as int)
        },
{
    let point_len = 1 + 2 * scalar_bytes;
    if point_len > spki.len() {
        return None;
    }
    let start = spki.len() - point_len;
    if spki[start] != 0x04 {
        return None;
    }
    let x = slice_to_vec(&spki[start + 1..start + 1 + scalar_bytes]);
    let y = slice_to_vec(&spki[start + 1 + scalar_bytes..start + point_len]);
    Some((x, y))
}

} // verus!
