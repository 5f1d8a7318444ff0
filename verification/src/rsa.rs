//! RSA key material prepared the way the circuits take it: 120 bit limbs
//! plus the Barrett reduction parameter.
use crate::bigint::{be_value, is_bit_length, limb_120, limbs_120_value, BigUint};
use crate::text::{
    chars_of, digit_value, find, find_chars, sub_chars, trim, trimmed,
};
use vstd::arithmetic::div_mod::*;
use vstd::arithmetic::power2::*;
use vstd::prelude::*;
use vstd::string::*;

verus! {

/// A modulus size the circuits are built for, and the number of 120 bit
/// limbs they take it in.
#[derive(Clone, Copy)]
pub struct Size {
    pub bits: usize,
    pub limbs: usize,
}

impl Size {
    /// Within what the arithmetic here can hold: the limbs' bit count and
    /// the reduction parameter's exponent fit a `usize`.
    pub open spec fn valid(&self) -> bool {
        &&& self.limbs <= usize::MAX / 120
        &&& self.bits <= usize::MAX / 32
    }

    /// The limbs leave room for any modulus of this size and for the
    /// reduction parameter of one of full width.
    pub open spec fn roomy(&self) -> bool {
        self.bits + BARRETT_OVERFLOW_BITS + 2 <= 120 * self.limbs
    }
}

/// 2048 bits in 120 bit limbs: 18 of them, with the top one partly used.
pub fn rsa2048() -> (size: Size)
    ensures
        size.bits == 2048,
        size.limbs == 18,
        size.valid(),
        size.roomy(),
{
    Size { bits: 2048, limbs: 18 }
}

/// 3072 bits needs 26 limbs.
pub fn rsa3072() -> (size: Size)
    ensures
        size.bits == 3072,
        size.limbs == 26,
        size.valid(),
        size.roomy(),
{
    Size { bits: 3072, limbs: 26 }
}

/// 4096 bits needs 35 limbs by the same arithmetic.
pub fn rsa4096() -> (size: Size)
    ensures
        size.bits == 4096,
        size.limbs == 35,
        size.valid(),
        size.roomy(),
{
    Size { bits: 4096, limbs: 35 }
}

/// The backend divides by the modulus using floor(2^(2 * MOD_BITS + 6) / n).
pub const BARRETT_OVERFLOW_BITS: usize = 6;

/// The Barrett reduction parameter of a modulus of `bits` bits.
pub open spec fn barrett(bits: nat, modulus: nat) -> nat {
    pow2(2 * bits + BARRETT_OVERFLOW_BITS as nat) / modulus
}

/// An RSA public key, with the private key file it belongs to.
pub struct RsaKey {
    pub pem_path: std::path::PathBuf,
    pub modulus: BigUint,
    pub size: Size,
}

impl RsaKey {
    /// The modulus is well formed and of at most its size's bits.
    pub open spec fn wf(&self) -> bool {
        &&& self.modulus.wf()
        &&& self.modulus@ < pow2(self.size.bits as nat)
        &&& self.size.valid()
    }

    /// The modulus in the limbs its size gives it.
    pub fn modulus_limbs(&self) -> (limbs: Vec<u128>)
        requires
            self.wf(),
            self.modulus@ < pow2(120 * self.size.limbs as nat),
        ensures
            limbs.len() == self.size.limbs,
            forall|i: int|
                0 <= i < self.size.limbs ==> limbs@[i] as nat == limb_120(
                    self.modulus@,
                    i as nat,
                ),
            limbs_120_value(limbs@) == self.modulus@,
    {
        self.modulus.to_limbs_120(self.size.limbs)
    }

    /// The reduction hint. A wrong value cannot make a bad signature verify,
    /// since the backend constrains multiplications against it, but a wrong
    /// value does make a good signature fail.
    pub fn redc_limbs(&self) -> (limbs: Vec<u128>)
        requires
            self.wf(),
            self.modulus@ > 0,
            barrett(self.size.bits as nat, self.modulus@) < pow2(120 * self.size.limbs as nat),
        ensures
            limbs.len() == self.size.limbs,
            forall|i: int|
                0 <= i < self.size.limbs ==> limbs@[i] as nat == limb_120(
                    barrett(self.size.bits as nat, self.modulus@),
                    i as nat,
                ),
            limbs_120_value(limbs@) == barrett(self.size.bits as nat, self.modulus@),
    {
        let numerator = BigUint::power_of_two(2 * self.size.bits + BARRETT_OVERFLOW_BITS);
        numerator.divide(&self.modulus).to_limbs_120(self.size.limbs)
    }

    /// Whether the modulus and its reduction parameter fit the limbs of the
    /// key's size, which is what `modulus_limbs` and `redc_limbs` ask.
    pub fn limbs_fit(&self) -> (fit: bool)
        requires
            self.wf(),
        ensures
            fit == (self.modulus@ > 0 && self.modulus@ < pow2(120 * self.size.limbs as nat)
                && barrett(self.size.bits as nat, self.modulus@) < pow2(
                120 * self.size.limbs as nat,
            )),
    {
        let capacity = 120 * self.size.limbs;
        let length = self.modulus.bit_length();
        if length == 0 {
            return false;
        }
        proof {
            lemma_pow2_pos((length - 1) as nat);
        }
        let numerator = BigUint::power_of_two(2 * self.size.bits + BARRETT_OVERFLOW_BITS);
        let quotient = numerator.divide(&self.modulus);
        let quotient_length = quotient.bit_length();
        proof {
            lemma_bit_length_bound(self.modulus@, length as nat, capacity as nat);
            lemma_bit_length_bound(quotient@, quotient_length as nat, capacity as nat);
        }
        length <= capacity && quotient_length <= capacity
    }
}

/// A value of bit length `length` is below 2^capacity exactly when its
/// length is at most the capacity.
proof fn lemma_bit_length_bound(value: nat, length: nat, capacity: nat)
    requires
        is_bit_length(value, length),
    ensures
        (value < pow2(capacity)) == (length <= capacity),
{
    if length <= capacity {
        if length < capacity {
            lemma_pow2_strictly_increases(length, capacity);
        }
    } else {
        if (length - 1) as nat > capacity {
            lemma_pow2_strictly_increases(capacity, (length - 1) as nat);
        }
    }
}

/// A key whose modulus has the full width of its size fits its limbs when
/// the size leaves room: the modulus below 2^bits, and the reduction
/// parameter at most 2^(bits + 7).
pub proof fn lemma_full_width_fits(key: &RsaKey)
    requires
        key.wf(),
        key.size.roomy(),
        key.size.bits > 0,
        pow2((key.size.bits - 1) as nat) <= key.modulus@,
    ensures
        key.modulus@ > 0,
        key.modulus@ < pow2(120 * key.size.limbs as nat),
        barrett(key.size.bits as nat, key.modulus@) < pow2(120 * key.size.limbs as nat),
{
    let b = key.size.bits as nat;
    let n = key.modulus@;
    let cap = 120 * key.size.limbs as nat;
    lemma_pow2_pos((b - 1) as nat);
    lemma_pow2_strictly_increases(b, cap);
    // 2^(2b+6) / n <= 2^(2b+6) / 2^(b-1) = 2^(b+7) < 2^cap
    let top = pow2(2 * b + 6);
    lemma_pow2_adds((b + 7) as nat, (b - 1) as nat);
    assert(((b + 7) as nat + (b - 1) as nat) == 2 * b + 6);
    lemma_div_is_ordered_by_denominator(top as int, pow2((b - 1) as nat) as int, n as int);
    lemma_div_multiples_vanish(pow2((b + 7) as nat) as int, pow2((b - 1) as nat) as int);
    assert(pow2((b - 1) as nat) * pow2((b + 7) as nat) == pow2((b + 7) as nat) * pow2(
        (b - 1) as nat,
    )) by (nonlinear_arith);
    lemma_pow2_strictly_increases((b + 7) as nat, cap);
}

/// Every size the circuits are built for leaves room for a full width key.
pub proof fn lemma_standard_sizes_are_roomy()
    ensures
        (Size { bits: 2048, limbs: 18 }).roomy(),
        (Size { bits: 3072, limbs: 26 }).roomy(),
        (Size { bits: 4096, limbs: 35 }).roomy(),
{
}

// ---------------------------------------------------------------------------
// Reading a key from what openssl prints.
/// A hexadecimal digit, as `char::is_ascii_hexdigit` has it.
pub open spec fn is_hex_digit(c: char) -> bool {
    digit_value(c, 16) is Some
}

/// The values of the hexadecimal digits in `s`, everything else skipped.
pub open spec fn hex_digit_values(s: Seq<char>) -> Seq<nat>
    decreases s.len(),
{
    if s.len() == 0 {
        seq![]
    } else if is_hex_digit(s.last()) {
        hex_digit_values(s.drop_last()).push(digit_value(s.last(), 16).unwrap())
    } else {
        hex_digit_values(s.drop_last())
    }
}

/// Digit values taken two at a time, high digit first.
pub open spec fn hex_pairs(digits: Seq<nat>) -> Seq<u8> {
    Seq::new(digits.len() / 2, |k: int| (digits[2 * k] * 16 + digits[2 * k + 1]) as u8)
}

/// The bytes the hexadecimal digits of `text` spell, other characters
/// skipped.
pub open spec fn hex_bytes(text: Seq<char>) -> Seq<u8> {
    hex_pairs(hex_digit_values(text))
}

proof fn lemma_hex_digit_bound(s: Seq<char>)
    ensures
        forall|k: int| 0 <= k < hex_digit_values(s).len() ==> hex_digit_values(s)[k] < 16,
        hex_digit_values(s).len() <= s.len(),
    decreases s.len(),
{
    if s.len() > 0 {
        lemma_hex_digit_bound(s.drop_last());
    }
}

/// Decodes hexadecimal text, skipping what is not a digit.
pub fn decode_hex(text: &str) -> (bytes: Vec<u8>)
    requires
        hex_digit_values(text@).len() % 2 == 0,
    ensures
        bytes@ == hex_bytes(text@),
{
    let chars = chars_of(text);
    let mut digits: Vec<u8> = Vec::new();
    let mut i: usize = 0;
    while i < chars.len()
        invariant
            i <= chars.len(),
            chars@ == text@,
            digits@.len() == hex_digit_values(chars@.take(i as int)).len(),
            forall|k: int|
                0 <= k < digits@.len() ==> digits@[k] as nat == hex_digit_values(
                    chars@.take(i as int),
                )[k],
        decreases chars.len() - i,
    {
        let ghost before = chars@.take(i as int);
        proof {
            assert(chars@.take(i + 1).drop_last() =~= before);
            assert(chars@.take(i + 1).last() == chars@[i as int]);
        }
        let c = chars[i] as u32;
        let d: u32 = if 0x30 <= c && c <= 0x39 {
            c - 0x30
        } else if 0x61 <= c && c <= 0x66 {
            c - 0x61 + 10
        } else if 0x41 <= c && c <= 0x46 {
            c - 0x41 + 10
        } else {
            16
        };
        if d < 16 {
            digits.push(d as u8);
        }
        i += 1;
    }
    proof {
        assert(chars@.take(i as int) =~= chars@);
        lemma_hex_digit_bound(text@);
    }
    let mut bytes: Vec<u8> = Vec::new();
    let mut k: usize = 0;
    while k < digits.len() / 2
        invariant
            digits@.len() == hex_digit_values(text@).len(),
            digits@.len() % 2 == 0,
            forall|m: int| 0 <= m < digits@.len() ==> digits@[m] as nat == hex_digit_values(text@)[m],
            forall|m: int| 0 <= m < digits@.len() ==> digits@[m] < 16,
            k <= digits.len() / 2,
            bytes@ =~= hex_bytes(text@).take(k as int),
        decreases digits.len() / 2 - k,
    {
        let high = digits[2 * k];
        let low = digits[2 * k + 1];
        bytes.push(high * 16 + low);
        k += 1;
    }
    proof {
        assert(hex_bytes(text@).take(k as int) =~= hex_bytes(text@));
    }
    bytes
}

/// Why what openssl printed does not make a key.
pub enum ListingError {
    /// The key's public exponent is not 65537, the only one supported.
    UnsupportedExponent,
    /// No `Modulus=` line.
    NoModulus,
    /// The modulus has an odd number of hexadecimal digits.
    OddHexLength,
    /// The modulus is not as wide as the size asked for.
    UnexpectedModulusSize,
}

/// What a key listing and a modulus line say, in the order they are
/// checked: the exponent, the modulus line, its digits, its width.
pub open spec fn listed_modulus(listing: Seq<char>, modulus_line: Seq<char>, bits: nat) -> Result<
    Seq<u8>,
    ListingError,
> {
    let line = trim(modulus_line);
    let hex = line.skip(8);
    if find(listing, "publicExponent: 65537"@) is None {
        Err(ListingError::UnsupportedExponent)
    } else if !(line.len() >= 8 && line.take(8) == "Modulus="@) {
        Err(ListingError::NoModulus)
    } else if hex_digit_values(hex).len() % 2 != 0 {
        Err(ListingError::OddHexLength)
    } else if hex_bytes(hex).len() * 8 != bits {
        Err(ListingError::UnexpectedModulusSize)
    } else {
        Ok(hex_bytes(hex))
    }
}

/// A key read from a listing holds the modulus the listing gives, or fails
/// as the listing does.
pub open spec fn read_as(
    key: Result<RsaKey, ListingError>,
    listed: Result<Seq<u8>, ListingError>,
    size: Size,
) -> bool {
    match (key, listed) {
        (Ok(k), Ok(bytes)) => k.wf() && k.modulus@ == be_value(bytes) && k.size == size,
        (Err(e), Err(f)) => e == f,
        _ => false,
    }
}

/// The key openssl generated at `pem_path`, read from its `-text` listing
/// and its `-modulus` line.
pub fn key_from_listing(
    pem_path: std::path::PathBuf,
    listing: &str,
    modulus_line: &str,
    size: Size,
) -> (key: Result<RsaKey, ListingError>)
    requires
        size.valid(),
    ensures
        read_as(key, listed_modulus(listing@, modulus_line@, size.bits as nat), size),
{
    let listing_chars = chars_of(listing);
    let exponent = chars_of("publicExponent: 65537");
    if find_chars(&listing_chars, &exponent, 0).is_none() {
        return Err(ListingError::UnsupportedExponent);
    }
    let line = trimmed(&chars_of(modulus_line));
    let prefix = chars_of("Modulus=");
    proof {
        reveal_strlit("Modulus=");
    }
    if line.len() < 8 || !crate::text::starts_with(&line, &prefix) {
        return Err(ListingError::NoModulus);
    }
    let hex = sub_chars(&line, 8, line.len());
    proof {
        assert(hex@ =~= line@.skip(8));
    }
    let text = crate::text::string_of(&hex);
    if !hex_digits_even(&hex) {
        return Err(ListingError::OddHexLength);
    }
    let bytes = decode_hex(text.as_str());
    if bytes.len() > usize::MAX / 256 || bytes.len() * 8 != size.bits {
        proof {
            lemma_hex_digit_bound(hex@);
        }
        return Err(ListingError::UnexpectedModulusSize);
    }
    let modulus = BigUint::from_be_bytes(&bytes);
    proof {
        crate::bigint::lemma_be_bound(bytes@);
    }
    Ok(RsaKey { pem_path, modulus, size })
}

/// Whether `s` holds an even number of hexadecimal digits.
fn hex_digits_even(s: &[char]) -> (even: bool)
    ensures
        even == (hex_digit_values(s@).len() % 2 == 0),
{
    let mut count: usize = 0;
    let mut i: usize = 0;
    while i < s.len()
        invariant
            i <= s.len(),
            count == hex_digit_values(s@.take(i as int)).len(),
            count <= i,
        decreases s.len() - i,
    {
        proof {
            assert(s@.take(i + 1).drop_last() =~= s@.take(i as int));
            assert(s@.take(i + 1).last() == s@[i as int]);
            lemma_hex_digit_bound(s@.take(i as int));
        }
        let c = s[i] as u32;
        if (0x30 <= c && c <= 0x39) || (0x61 <= c && c <= 0x66) || (0x41 <= c && c <= 0x46) {
            count += 1;
        }
        i += 1;
    }
    proof {
        assert(s@.take(i as int) =~= s@);
    }
    count % 2 == 0
}

/// An RSA signature as the limbs of the key's size. A signature is exactly
/// as wide as the modulus.
pub fn signature_limbs(key: &RsaKey, signature: &[u8]) -> (limbs: Vec<u128>)
    requires
        key.wf(),
        signature.len() * 8 == key.size.bits,
        be_value(signature@) < pow2(120 * key.size.limbs as nat),
    ensures
        limbs.len() == key.size.limbs,
        forall|i: int|
            0 <= i < key.size.limbs ==> limbs@[i] as nat == limb_120(
                be_value(signature@),
                i as nat,
            ),
        limbs_120_value(limbs@) == be_value(signature@),
{
    BigUint::from_be_bytes(signature).to_limbs_120(key.size.limbs)
}

} // verus!
