//! Builds a Document Signer certificate so the trust chain can be exercised.
//!
//! Only the fields a verifier reads are filled in with care: the validity
//! period and the subject public key. The rest is present because a
//! certificate is not a certificate without it, and because the issuer
//! signature covers the whole encoding, so a fixture that skipped parts
//! would not exercise the same bytes a real one does.
use crate::der;
use crate::der::{concat, header_len_at, tlv_bytes, views, MAX_LENGTH};
use vstd::prelude::*;
use vstd::string::*;

verus! {

pub const OID_SHA256_WITH_RSA: [u8; 9] = [0x2a, 0x86, 0x48, 0x86, 0xf7, 0x0d, 0x01, 0x01, 0x0b];

pub const OID_EC_PUBLIC_KEY: [u8; 7] = [0x2a, 0x86, 0x48, 0xce, 0x3d, 0x02, 0x01];

pub const OID_PRIME256V1: [u8; 8] = [0x2a, 0x86, 0x48, 0xce, 0x3d, 0x03, 0x01, 0x07];

pub const OID_COMMON_NAME: [u8; 3] = [0x55, 0x04, 0x03];

pub const TAG_BIT_STRING: u8 = 0x03;

pub const TAG_UTC_TIME: u8 = 0x17;

pub const TAG_PRINTABLE_STRING: u8 = 0x13;

/// The issuer's common name.
pub const ISSUER_NAME: &'static str = "Test Country Signing CA";

/// The subject's common name.
pub const SUBJECT_NAME: &'static str = "Test Document Signer";

/// A to-be-signed certificate and where the fields a verifier reads sit in it.
pub struct Certificate {
    pub tbs: Vec<u8>,
    pub public_key_offset: usize,
    pub not_before_offset: usize,
    pub not_after_offset: usize,
}

/// The AlgorithmIdentifier of a P-256 key: id-ecPublicKey with the curve.
pub open spec fn ec_algorithm() -> Seq<u8> {
    tlv_bytes(
        der::TAG_SEQUENCE,
        tlv_bytes(der::TAG_OID, OID_EC_PUBLIC_KEY@) + tlv_bytes(der::TAG_OID, OID_PRIME256V1@),
    )
}

/// The AlgorithmIdentifier is 21 bytes.
pub proof fn lemma_ec_algorithm_len()
    ensures
        ec_algorithm().len() == 21,
{
    der::lemma_short_tlv(der::TAG_OID, OID_EC_PUBLIC_KEY@);
    der::lemma_short_tlv(der::TAG_OID, OID_PRIME256V1@);
    der::lemma_short_tlv(
        der::TAG_SEQUENCE,
        tlv_bytes(der::TAG_OID, OID_EC_PUBLIC_KEY@) + tlv_bytes(der::TAG_OID, OID_PRIME256V1@),
    );
}

/// The BIT STRING content of an uncompressed point: no unused bits, `04`, X, Y.
pub open spec fn point_bits(x: Seq<u8>, y: Seq<u8>) -> Seq<u8> {
    seq![0x00u8, 0x04u8] + x + y
}

/// SubjectPublicKeyInfo over a P-256 point.
pub open spec fn spki_bytes(x: Seq<u8>, y: Seq<u8>) -> Seq<u8> {
    tlv_bytes(der::TAG_SEQUENCE, ec_algorithm() + tlv_bytes(TAG_BIT_STRING, point_bits(x, y)))
}

/// A Name holding one common name.
pub open spec fn name_bytes(common_name: Seq<u8>) -> Seq<u8> {
    tlv_bytes(
        der::TAG_SEQUENCE,
        tlv_bytes(
            der::TAG_SET,
            tlv_bytes(
                der::TAG_SEQUENCE,
                tlv_bytes(der::TAG_OID, OID_COMMON_NAME@) + tlv_bytes(
                    TAG_PRINTABLE_STRING,
                    common_name,
                ),
            ),
        ),
    )
}

/// A UTCTime.
pub open spec fn utc_bytes(value: Seq<u8>) -> Seq<u8> {
    tlv_bytes(TAG_UTC_TIME, value)
}

/// The version, `[0] EXPLICIT INTEGER 2`.
pub open spec fn version_bytes() -> Seq<u8> {
    tlv_bytes(0xa0, tlv_bytes(der::TAG_INTEGER, seq![2u8]))
}

/// sha256WithRSAEncryption with NULL parameters.
pub open spec fn signature_algorithm() -> Seq<u8> {
    tlv_bytes(
        der::TAG_SEQUENCE,
        tlv_bytes(der::TAG_OID, OID_SHA256_WITH_RSA@) + seq![der::TAG_NULL, 0x00u8],
    )
}

/// The seven fields of the TBSCertificate, in order.
pub open spec fn tbs_parts(x: Seq<u8>, y: Seq<u8>, not_before: Seq<u8>, not_after: Seq<u8>) -> Seq<
    Seq<u8>,
> {
    seq![
        version_bytes(),
        tlv_bytes(der::TAG_INTEGER, seq![3u8]),
        signature_algorithm(),
        name_bytes(ISSUER_NAME.spec_bytes()),
        tlv_bytes(der::TAG_SEQUENCE, utc_bytes(not_before) + utc_bytes(not_after)),
        name_bytes(SUBJECT_NAME.spec_bytes()),
        spki_bytes(x, y),
    ]
}

/// The TBSCertificate.
pub open spec fn tbs_bytes(x: Seq<u8>, y: Seq<u8>, not_before: Seq<u8>, not_after: Seq<u8>) -> Seq<
    u8,
> {
    tlv_bytes(der::TAG_SEQUENCE, concat(tbs_parts(x, y, not_before, not_after)))
}

/// The offsets land on the fields a verifier reads: the BIT STRING holding
/// the uncompressed point, and the two UTCTimes.
pub open spec fn offsets_hold(
    tbs: Seq<u8>,
    public_key_offset: int,
    not_before_offset: int,
    not_after_offset: int,
    x: Seq<u8>,
    y: Seq<u8>,
    not_before: Seq<u8>,
    not_after: Seq<u8>,
) -> bool {
    &&& 2 + x.len() + y.len() < 0x80
    &&& 0 <= public_key_offset
    &&& public_key_offset + 4 + x.len() + y.len() <= tbs.len()
    &&& tbs.subrange(public_key_offset, public_key_offset + 4 + x.len() + y.len()) == seq![
        TAG_BIT_STRING,
        (2 + x.len() + y.len()) as u8,
    ] + point_bits(x, y)
    &&& not_before.len() == 13
    &&& 0 <= not_before_offset
    &&& not_before_offset + 15 <= tbs.len()
    &&& tbs.subrange(not_before_offset, not_before_offset + 15) == seq![TAG_UTC_TIME, 13u8]
        + not_before
    &&& not_after.len() == 13
    &&& 0 <= not_after_offset
    &&& not_after_offset + 15 <= tbs.len()
    &&& tbs.subrange(not_after_offset, not_after_offset + 15) == seq![TAG_UTC_TIME, 13u8]
        + not_after
}

/// Where the validity SEQUENCE begins in the TBSCertificate.
pub open spec fn validity_offset(
    x: Seq<u8>,
    y: Seq<u8>,
    not_before: Seq<u8>,
    not_after: Seq<u8>,
) -> int {
    (header_len_at(tbs_bytes(x, y, not_before, not_after), 0) + der::part_start(
        tbs_parts(x, y, not_before, not_after),
        4,
    )) as int
}

/// Where the SubjectPublicKeyInfo begins in the TBSCertificate.
pub open spec fn spki_offset(
    x: Seq<u8>,
    y: Seq<u8>,
    not_before: Seq<u8>,
    not_after: Seq<u8>,
) -> int {
    (header_len_at(tbs_bytes(x, y, not_before, not_after), 0) + der::part_start(
        tbs_parts(x, y, not_before, not_after),
        6,
    )) as int
}

/// Where the BIT STRING holding the point begins in a SubjectPublicKeyInfo:
/// after its header and the 21 byte AlgorithmIdentifier, so at byte 23 while
/// the content is short enough for a one byte length, and at 24 otherwise.
pub open spec fn key_offset_in_spki(x: Seq<u8>, y: Seq<u8>) -> int {
    if 25 + x.len() + y.len() < 0x80 {
        23
    } else {
        24
    }
}

/// The offset `public_key_offset_in_spki` gives for a SubjectPublicKeyInfo
/// that `subject_public_key_info` wrote lands on the BIT STRING holding the
/// point: its tag, its length, no unused bits, the uncompressed marker, then
/// X and Y, which run to the end.
pub proof fn lemma_public_key_in_spki(x: Seq<u8>, y: Seq<u8>)
    requires
        2 + x.len() + y.len() < 0x80,
    ensures
        ({
            let s = spki_bytes(x, y);
            let k = header_len_at(s, 0) + 21int;
            &&& der::readable(s, 0)
            &&& k == key_offset_in_spki(x, y)
            &&& s.len() == k + 4 + x.len() + y.len()
            &&& s.subrange(k, k + 4) == seq![
                TAG_BIT_STRING,
                (2 + x.len() + y.len()) as u8,
                0x00u8,
                0x04u8,
            ]
            &&& s.subrange(k + 4, s.len() as int) == x + y
        }),
{
    let bits = tlv_bytes(TAG_BIT_STRING, point_bits(x, y));
    der::lemma_short_tlv(TAG_BIT_STRING, point_bits(x, y));
    lemma_ec_algorithm_len();
    let body = ec_algorithm() + bits;
    der::lemma_tlv_header(der::TAG_SEQUENCE, body);
    let s = spki_bytes(x, y);
    let h = header_len_at(s, 0) as int;
    assert(body.len() == 25 + x.len() + y.len());
    let n = (4 + x.len() + y.len()) as int;
    der::lemma_nested(s, h, s.len() as int, 21, 21 + n);
    assert(body.subrange(21, 21 + n) =~= bits);
    assert(bits.subrange(0, 4) =~= seq![
        TAG_BIT_STRING,
        (2 + x.len() + y.len()) as u8,
        0x00u8,
        0x04u8,
    ]);
    assert(bits.subrange(4, n) =~= x + y);
    der::lemma_nested(s, h + 21, h + 21 + n, 0, 4);
    der::lemma_nested(s, h + 21, h + 21 + n, 4, n);
}

fn name(common_name: &str) -> (out: Vec<u8>)
    requires
        common_name.spec_bytes().len() < 0x40,
    ensures
        out@ == name_bytes(common_name.spec_bytes()),
{
    let oid = der::oid(&OID_COMMON_NAME);
    let value = der::tlv(TAG_PRINTABLE_STRING, common_name.as_bytes());
    let parts = [oid, value];
    proof {
        der::lemma_views_pair(parts@);
    }
    let attribute = der::sequence(&parts);
    let inner = [attribute];
    proof {
        der::lemma_views_one(inner@);
    }
    let set = der::set(&inner);
    let outer = [set];
    proof {
        der::lemma_views_one(outer@);
    }
    der::sequence(&outer)
}

fn utc_time(value: &str) -> (out: Vec<u8>)
    requires
        value.spec_bytes().len() == 13,
    ensures
        out@ == utc_bytes(value.spec_bytes()),
{
    der::tlv(TAG_UTC_TIME, value.as_bytes())
}

/// `[0] EXPLICIT` wrapping of the version, which is how X.509 carries it.
fn version_v3() -> (out: Vec<u8>)
    ensures
        out@ == version_bytes(),
{
    let integer = der::integer_u8(2);
    der::tlv(0xa0, integer.as_slice())
}

/// The AlgorithmIdentifier of a P-256 key.
fn ec_algorithm_identifier() -> (out: Vec<u8>)
    ensures
        out@ == ec_algorithm(),
        out@.len() == 21,
{
    let parts = [der::oid(&OID_EC_PUBLIC_KEY), der::oid(&OID_PRIME256V1)];
    proof {
        der::lemma_views_pair(parts@);
    }
    der::sequence(&parts)
}

/// A SubjectPublicKeyInfo over a P-256 point, the encoding both a
/// certificate and DG15 carry.
pub fn subject_public_key_info(public_key_x: &[u8], public_key_y: &[u8]) -> (out: Vec<u8>)
    requires
        public_key_x.len() + public_key_y.len() <= 0xffe4,
    ensures
        out@ == spki_bytes(public_key_x@, public_key_y@),
{
    let mut point = vec![0x00, 0x04];
    der::append(&mut point, public_key_x);
    der::append(&mut point, public_key_y);
    proof {
        assert(point@ =~= point_bits(public_key_x@, public_key_y@));
    }
    let algorithm = ec_algorithm_identifier();
    let bits = der::tlv(TAG_BIT_STRING, point.as_slice());
    let parts = [algorithm, bits];
    proof {
        der::lemma_views_pair(parts@);
    }
    der::sequence(&parts)
}

/// Where the bit string holding the point begins, measured from the start of
/// the SubjectPublicKeyInfo.
pub fn public_key_offset_in_spki(spki: &[u8]) -> (offset: usize)
    requires
        der::readable(spki@, 0),
    ensures
        offset == header_len_at(spki@, 0) + 21,
{
    let algorithm_len = ec_algorithm_identifier().len();
    der::read(spki, 0).header_len + algorithm_len
}

/// Whether `buf` holds `expected` at `offset`.
fn bytes_at(buf: &[u8], offset: usize, expected: &[u8]) -> (ok: bool)
    ensures
        ok == (offset + expected.len() <= buf.len() && buf@.subrange(
            offset as int,
            offset + expected.len(),
        ) == expected@),
{
    if offset > buf.len() || expected.len() > buf.len() - offset {
        return false;
    }
    let mut i: usize = 0;
    while i < expected.len()
        invariant
            offset + expected.len() <= buf.len(),
            i <= expected.len(),
            forall|j: int| 0 <= j < i ==> buf@[offset + j] == expected@[j],
        decreases expected.len() - i,
    {
        if buf[offset + i] != expected[i] {
            proof {
                assert(buf@.subrange(offset as int, offset + expected.len())[i as int]
                    != expected@[i as int]);
            }
            return false;
        }
        i += 1;
    }
    proof {
        assert(buf@.subrange(offset as int, offset + expected.len()) =~= expected@);
    }
    true
}

/// Offsets are what the circuit trusts, so they are checked against the
/// bytes rather than left to a downstream failure that would be harder to
/// read.
fn check(
    certificate: &Certificate,
    public_key_x: &[u8],
    public_key_y: &[u8],
    not_before: &str,
    not_after: &str,
) -> (ok: bool)
    ensures
        ok == offsets_hold(
            certificate.tbs@,
            certificate.public_key_offset as int,
            certificate.not_before_offset as int,
            certificate.not_after_offset as int,
            public_key_x@,
            public_key_y@,
            not_before.spec_bytes(),
            not_after.spec_bytes(),
        ),
{
    let tbs = certificate.tbs.as_slice();
    if public_key_x.len() >= 0x80 || public_key_y.len() >= 0x80 || 2 + public_key_x.len()
        + public_key_y.len() >= 0x80 {
        return false;
    }
    let mut key = vec![TAG_BIT_STRING, (2 + public_key_x.len() + public_key_y.len()) as u8, 0x00, 0x04];
    der::append(&mut key, public_key_x);
    der::append(&mut key, public_key_y);
    proof {
        assert(key@ =~= seq![
            TAG_BIT_STRING,
            (2 + public_key_x.len() + public_key_y.len()) as u8,
        ] + point_bits(public_key_x@, public_key_y@));
    }
    if !bytes_at(tbs, certificate.public_key_offset, key.as_slice()) {
        return false;
    }
    let before = not_before.as_bytes();
    let after = not_after.as_bytes();
    if before.len() != 13 || after.len() != 13 {
        return false;
    }
    let mut first = vec![TAG_UTC_TIME, 13];
    der::append(&mut first, before);
    let mut second = vec![TAG_UTC_TIME, 13];
    der::append(&mut second, after);
    proof {
        assert(first@ =~= seq![TAG_UTC_TIME, 13u8] + not_before.spec_bytes());
        assert(second@ =~= seq![TAG_UTC_TIME, 13u8] + not_after.spec_bytes());
    }
    bytes_at(tbs, certificate.not_before_offset, first.as_slice()) && bytes_at(
        tbs,
        certificate.not_after_offset,
        second.as_slice(),
    )
}

/// The fields of the certificate, where a verifier finds them.
proof fn lemma_tbs_offsets(
    x: Seq<u8>,
    y: Seq<u8>,
    not_before: Seq<u8>,
    not_after: Seq<u8>,
    body_start: int,
    validity_start: int,
    spki_start: int,
)
    requires
        2 + x.len() + y.len() < 0x80,
        not_before.len() == 13,
        not_after.len() == 13,
        concat(tbs_parts(x, y, not_before, not_after)).len() <= MAX_LENGTH,
        body_start == header_len_at(tbs_bytes(x, y, not_before, not_after), 0),
        validity_start == body_start + der::part_start(tbs_parts(x, y, not_before, not_after), 4),
        spki_start == body_start + der::part_start(tbs_parts(x, y, not_before, not_after), 6),
    ensures
        offsets_hold(
            tbs_bytes(x, y, not_before, not_after),
            spki_start + header_len_at(spki_bytes(x, y), 0) + 21,
            validity_start + 2,
            validity_start + 2 + 15,
            x,
            y,
            not_before,
            not_after,
        ),
        der::readable(spki_bytes(x, y), 0),
{
    let parts = tbs_parts(x, y, not_before, not_after);
    let c = concat(parts);
    let tbs = tbs_bytes(x, y, not_before, not_after);
    der::lemma_tlv_header(der::TAG_SEQUENCE, c);
    let h = header_len_at(tbs, 0) as int;
    // The validity SEQUENCE.
    der::lemma_concat_part(parts, 4);
    let v = parts[4];
    let ps4 = der::part_start(parts, 4) as int;
    der::lemma_short_tlv(TAG_UTC_TIME, not_before);
    der::lemma_short_tlv(TAG_UTC_TIME, not_after);
    let times = utc_bytes(not_before) + utc_bytes(not_after);
    assert(times.len() == 30);
    der::lemma_short_tlv(der::TAG_SEQUENCE, times);
    der::lemma_nested(tbs, h, tbs.len() as int, ps4, ps4 + v.len());
    der::lemma_nested(tbs, h + ps4, h + ps4 + v.len(), 2, 17);
    der::lemma_nested(tbs, h + ps4, h + ps4 + v.len(), 17, 32);
    assert(v.subrange(2, 17) =~= seq![TAG_UTC_TIME, 13u8] + not_before);
    assert(v.subrange(17, 32) =~= seq![TAG_UTC_TIME, 13u8] + not_after);
    // The SubjectPublicKeyInfo.
    der::lemma_concat_part(parts, 6);
    let k = parts[6];
    let ps6 = der::part_start(parts, 6) as int;
    let bits = tlv_bytes(TAG_BIT_STRING, point_bits(x, y));
    der::lemma_short_tlv(TAG_BIT_STRING, point_bits(x, y));
    let body = ec_algorithm() + bits;
    assert(ec_algorithm().len() == 21);
    der::lemma_tlv_header(der::TAG_SEQUENCE, body);
    let hs = header_len_at(k, 0) as int;
    let n = (4 + x.len() + y.len()) as int;
    der::lemma_nested(tbs, h, tbs.len() as int, ps6, ps6 + k.len());
    der::lemma_nested(tbs, h + ps6, h + ps6 + k.len(), hs, k.len() as int);
    der::lemma_nested(tbs, h + ps6 + hs, h + ps6 + k.len(), 21, 21 + n);
    assert(body.subrange(21, 21 + n) =~= bits);
    der::lemma_nested(tbs, h + ps6, h + ps6 + k.len(), hs + 21, hs + 21 + n);
}

/// Where each field of the certificate starts, and that the whole fits.
proof fn lemma_tbs_layout(x: Seq<u8>, y: Seq<u8>, not_before: Seq<u8>, not_after: Seq<u8>)
    requires
        2 + x.len() + y.len() < 0x80,
        not_before.len() == 13,
        not_after.len() == 13,
        ISSUER_NAME.spec_bytes().len() == 23,
        SUBJECT_NAME.spec_bytes().len() == 20,
    ensures
        ({
            let v = tbs_parts(x, y, not_before, not_after);
            &&& v.len() == 7
            &&& concat(v).len() < 400
            &&& der::part_start(v, 0) == 0
            &&& forall|k: int|
                0 <= k < 7 ==> der::part_start(v, k) + v[k].len() <= concat(v).len()
            &&& forall|k: int|
                0 <= k < 7 ==> der::part_start(v, k + 1) == der::part_start(v, k) + v[k].len()
        }),
{
    let v = tbs_parts(x, y, not_before, not_after);
    assert(v.take(0) =~= Seq::<Seq<u8>>::empty());
    der::lemma_concat_part(v, 0);
    der::lemma_concat_part(v, 1);
    der::lemma_concat_part(v, 2);
    der::lemma_concat_part(v, 3);
    der::lemma_concat_part(v, 4);
    der::lemma_concat_part(v, 5);
    der::lemma_concat_part(v, 6);
    assert(v.take(7) =~= v);
    der::lemma_short_tlv(TAG_BIT_STRING, point_bits(x, y));
    assert(ec_algorithm().len() == 21);
    assert(v[6].len() <= 4 + 21 + 4 + x.len() + y.len());
    assert(v[3].len() < 60);
    assert(v[5].len() < 60);
}

#[verifier::rlimit(40)]
pub fn build_dsc_tbs(
    public_key_x: &[u8],
    public_key_y: &[u8],
    not_before: &str,
    not_after: &str,
) -> (certificate: Certificate)
    requires
        2 + public_key_x.len() + public_key_y.len() < 0x80,
        not_before.spec_bytes().len() == 13,
        not_after.spec_bytes().len() == 13,
    ensures
        certificate.tbs@ == tbs_bytes(
            public_key_x@,
            public_key_y@,
            not_before.spec_bytes(),
            not_after.spec_bytes(),
        ),
        offsets_hold(
            certificate.tbs@,
            certificate.public_key_offset as int,
            certificate.not_before_offset as int,
            certificate.not_after_offset as int,
            public_key_x@,
            public_key_y@,
            not_before.spec_bytes(),
            not_after.spec_bytes(),
        ),
        certificate.not_before_offset == validity_offset(
            public_key_x@,
            public_key_y@,
            not_before.spec_bytes(),
            not_after.spec_bytes(),
        ) + 2,
        certificate.not_after_offset == certificate.not_before_offset + 15,
        certificate.public_key_offset == spki_offset(
            public_key_x@,
            public_key_y@,
            not_before.spec_bytes(),
            not_after.spec_bytes(),
        ) + key_offset_in_spki(public_key_x@, public_key_y@),
        certificate.not_before_offset < certificate.not_after_offset
            < certificate.public_key_offset,
{
    let ghost x = public_key_x@;
    let ghost y = public_key_y@;
    let ghost nb = not_before.spec_bytes();
    let ghost na = not_after.spec_bytes();
    proof {
        reveal_strlit("Test Country Signing CA");
        reveal_strlit("Test Document Signer");
        assert(ISSUER_NAME@.len() == 23);
        assert(is_ascii(ISSUER_NAME));
        assert(ISSUER_NAME.spec_bytes().len() == 23);
        assert(SUBJECT_NAME@.len() == 20);
        assert(is_ascii(SUBJECT_NAME));
        assert(SUBJECT_NAME.spec_bytes().len() == 20);
    }
    let spki = subject_public_key_info(public_key_x, public_key_y);
    let times = [utc_time(not_before), utc_time(not_after)];
    proof {
        der::lemma_views_pair(times@);
    }
    let validity = der::sequence(&times);
    let algorithm_parts = [der::oid(&OID_SHA256_WITH_RSA), der::null()];
    proof {
        der::lemma_views_pair(algorithm_parts@);
    }
    let algorithm = der::sequence(&algorithm_parts);
    let parts = vec![
        version_v3(),
        der::integer_u8(3),
        algorithm,
        name(ISSUER_NAME),
        validity,
        name(SUBJECT_NAME),
        spki,
    ];
    let ghost v = views(parts@);
    proof {
        assert(v =~= tbs_parts(x, y, nb, na));
        lemma_tbs_layout(x, y, nb, na);
    }
    let tbs = der::sequence(parts.as_slice());
    let mut total: usize = 0;
    let mut i: usize = 0;
    while i < parts.len()
        invariant
            parts@.len() == 7,
            v == views(parts@),
            i <= 7,
            total == der::part_start(v, i as int),
            concat(v).len() < 400,
            forall|k: int| 0 <= k < 7 ==> der::part_start(v, k) + v[k].len() <= concat(v).len(),
            forall|k: int|
                0 <= k < 7 ==> der::part_start(v, k + 1) == der::part_start(v, k) + v[k].len(),
        decreases 7 - i,
    {
        total = total + parts[i].len();
        i += 1;
    }
    let body_start = tbs.len() - total;
    let mut cursor = body_start;
    let mut validity_start: usize = 0;
    let mut spki_start: usize = 0;
    let mut index: usize = 0;
    while index < parts.len()
        invariant
            parts@.len() == 7,
            v == views(parts@),
            index <= 7,
            cursor == body_start + der::part_start(v, index as int),
            body_start < 8,
            concat(v).len() < 400,
            index > 4 ==> validity_start == body_start + der::part_start(v, 4),
            index > 6 ==> spki_start == body_start + der::part_start(v, 6),
            forall|k: int| 0 <= k < 7 ==> der::part_start(v, k) + v[k].len() <= concat(v).len(),
            forall|k: int|
                0 <= k < 7 ==> der::part_start(v, k + 1) == der::part_start(v, k) + v[k].len(),
        decreases 7 - index,
    {
        if index == 4 {
            validity_start = cursor;
        }
        if index == 6 {
            spki_start = cursor;
        }
        cursor = cursor + parts[index].len();
        index += 1;
    }
    proof {
        der::lemma_tlv_header(der::TAG_SEQUENCE, v[4]);
        der::lemma_tlv_header(der::TAG_SEQUENCE, concat(v));
        lemma_tbs_offsets(
            x,
            y,
            nb,
            na,
            body_start as int,
            validity_start as int,
            spki_start as int,
        );
    }
    let not_before_offset = validity_start + der::read(parts[4].as_slice(), 0).header_len;
    let not_after_offset = not_before_offset + utc_time(not_before).len();
    let public_key_offset = spki_start + public_key_offset_in_spki(parts[6].as_slice());
    proof {
        lemma_public_key_in_spki(x, y);
        assert(v[4].len() == 32);
    }
    let certificate = Certificate { tbs, public_key_offset, not_before_offset, not_after_offset };
    let ok = check(&certificate, public_key_x, public_key_y, not_before, not_after);
    proof {
        assert(ok);
    }
    certificate
}

/// The TBSCertificate opens with version v3 (`[0] INTEGER 2`), serial
/// number 3, and the signature algorithm sha256WithRSAEncryption
/// (1.2.840.113549.1.1.11) with NULL parameters, which is what the country
/// key signs it with; the validity starts right after the issuer.
pub proof fn lemma_tbs_opening(x: Seq<u8>, y: Seq<u8>, not_before: Seq<u8>, not_after: Seq<u8>)
    requires
        2 + x.len() + y.len() < 0x80,
        not_before.len() == 13,
        not_after.len() == 13,
    ensures
        ({
            let tbs = tbs_bytes(x, y, not_before, not_after);
            let h = header_len_at(tbs, 0) as int;
            &&& tbs[0] == 0x30
            &&& h + 23 <= tbs.len()
            &&& tbs.subrange(h, h + 23) == seq![
                0xa0u8, 0x03, 0x02, 0x01, 0x02,
                0x02, 0x01, 0x03,
                0x30, 0x0d, 0x06, 0x09,
                0x2a, 0x86, 0x48, 0x86, 0xf7, 0x0d, 0x01, 0x01, 0x0b,
                0x05, 0x00,
            ]
        }),
{
    reveal_strlit("Test Country Signing CA");
    reveal_strlit("Test Document Signer");
    assert(ISSUER_NAME@.len() == 23);
    assert(is_ascii(ISSUER_NAME));
    assert(SUBJECT_NAME@.len() == 20);
    assert(is_ascii(SUBJECT_NAME));
    lemma_tbs_layout(x, y, not_before, not_after);
    let v = tbs_parts(x, y, not_before, not_after);
    let c = concat(v);
    der::lemma_tlv_header(der::TAG_SEQUENCE, c);
    let tbs = tbs_bytes(x, y, not_before, not_after);
    let h = header_len_at(tbs, 0) as int;
    der::lemma_short_tlv(der::TAG_INTEGER, seq![2u8]);
    der::lemma_short_tlv(0xa0, tlv_bytes(der::TAG_INTEGER, seq![2u8]));
    der::lemma_short_tlv(der::TAG_INTEGER, seq![3u8]);
    der::lemma_short_tlv(der::TAG_OID, OID_SHA256_WITH_RSA@);
    der::lemma_short_tlv(
        der::TAG_SEQUENCE,
        tlv_bytes(der::TAG_OID, OID_SHA256_WITH_RSA@) + seq![der::TAG_NULL, 0x00u8],
    );
    der::lemma_concat_part(v, 0);
    der::lemma_concat_part(v, 1);
    der::lemma_concat_part(v, 2);
    assert(c.subrange(0, 23) =~= v[0] + v[1] + v[2]) by {
        assert(c.subrange(0, 5) == v[0]);
        assert(c.subrange(5, 8) == v[1]);
        assert(c.subrange(8, 23) == v[2]);
        assert(c.subrange(0, 23) =~= c.subrange(0, 5) + c.subrange(5, 8) + c.subrange(8, 23));
    }
    der::lemma_nested(tbs, h, tbs.len() as int, 0, 23);
    assert(tbs.subrange(h, h + 23) =~= seq![
        0xa0u8, 0x03, 0x02, 0x01, 0x02,
        0x02, 0x01, 0x03,
        0x30, 0x0d, 0x06, 0x09,
        0x2a, 0x86, 0x48, 0x86, 0xf7, 0x0d, 0x01, 0x01, 0x0b,
        0x05, 0x00,
    ]);
}

/// A Name of one common name, byte for byte: SEQUENCE, SET, SEQUENCE, the
/// commonName OID (2.5.4.3), then the name as a PrintableString.
pub proof fn lemma_name_layout(common_name: Seq<u8>)
    requires
        common_name.len() < 0x60,
    ensures
        name_bytes(common_name) == seq![
            0x30u8, (common_name.len() + 11) as u8,
            0x31, (common_name.len() + 9) as u8,
            0x30, (common_name.len() + 7) as u8,
            0x06, 0x03, 0x55, 0x04, 0x03,
            0x13, common_name.len() as u8,
        ] + common_name,
{
    der::lemma_short_tlv(der::TAG_OID, OID_COMMON_NAME@);
    der::lemma_short_tlv(TAG_PRINTABLE_STRING, common_name);
    let attribute = tlv_bytes(der::TAG_OID, OID_COMMON_NAME@) + tlv_bytes(
        TAG_PRINTABLE_STRING,
        common_name,
    );
    der::lemma_short_tlv(der::TAG_SEQUENCE, attribute);
    der::lemma_short_tlv(der::TAG_SET, tlv_bytes(der::TAG_SEQUENCE, attribute));
    der::lemma_short_tlv(
        der::TAG_SEQUENCE,
        tlv_bytes(der::TAG_SET, tlv_bytes(der::TAG_SEQUENCE, attribute)),
    );
    assert(name_bytes(common_name) =~= seq![
        0x30u8, (common_name.len() + 11) as u8,
        0x31, (common_name.len() + 9) as u8,
        0x30, (common_name.len() + 7) as u8,
        0x06, 0x03, 0x55, 0x04, 0x03,
        0x13, common_name.len() as u8,
    ] + common_name);
}

/// After its opening, the TBSCertificate holds, in order, the issuer named
/// "Test Country Signing CA", the validity from `not_before` to `not_after`
/// as two UTCTimes, the subject named "Test Document Signer", and the
/// SubjectPublicKeyInfo over the point, which ends it; the validity and the
/// key info start where `validity_offset` and `spki_offset` say.
pub proof fn lemma_tbs_fields(x: Seq<u8>, y: Seq<u8>, not_before: Seq<u8>, not_after: Seq<u8>)
    requires
        2 + x.len() + y.len() < 0x80,
        not_before.len() == 13,
        not_after.len() == 13,
    ensures
        ({
            let tbs = tbs_bytes(x, y, not_before, not_after);
            let h = header_len_at(tbs, 0) as int;
            &&& tbs.len() == h + 124 + spki_bytes(x, y).len()
            &&& tbs.subrange(h + 23, h + 59) == seq![
                0x30u8, 0x22, 0x31, 0x20, 0x30, 0x1e, 0x06, 0x03, 0x55, 0x04, 0x03, 0x13, 0x17,
            ] + "Test Country Signing CA"@.map_values(|c: char| c as u8)
            &&& tbs.subrange(h + 59, h + 91) == seq![0x30u8, 0x1e, 0x17, 0x0d] + not_before
                + seq![0x17u8, 0x0d] + not_after
            &&& tbs.subrange(h + 91, h + 124) == seq![
                0x30u8, 0x1f, 0x31, 0x1d, 0x30, 0x1b, 0x06, 0x03, 0x55, 0x04, 0x03, 0x13, 0x14,
            ] + "Test Document Signer"@.map_values(|c: char| c as u8)
            &&& tbs.subrange(h + 124, tbs.len() as int) == spki_bytes(x, y)
            &&& validity_offset(x, y, not_before, not_after) == h + 59
            &&& spki_offset(x, y, not_before, not_after) == h + 124
        }),
{
    reveal_strlit("Test Country Signing CA");
    reveal_strlit("Test Document Signer");
    assert(ISSUER_NAME@.len() == 23);
    assert(is_ascii(ISSUER_NAME));
    assert(SUBJECT_NAME@.len() == 20);
    assert(is_ascii(SUBJECT_NAME));
    let issuer = ISSUER_NAME.spec_bytes();
    let subject = SUBJECT_NAME.spec_bytes();
    assert(issuer =~= "Test Country Signing CA"@.map_values(|c: char| c as u8));
    assert(subject =~= "Test Document Signer"@.map_values(|c: char| c as u8));
    lemma_tbs_layout(x, y, not_before, not_after);
    lemma_name_layout(issuer);
    lemma_name_layout(subject);
    let v = tbs_parts(x, y, not_before, not_after);
    let c = concat(v);
    der::lemma_tlv_header(der::TAG_SEQUENCE, c);
    let tbs = tbs_bytes(x, y, not_before, not_after);
    let h = header_len_at(tbs, 0) as int;
    der::lemma_short_tlv(der::TAG_INTEGER, seq![2u8]);
    der::lemma_short_tlv(0xa0, tlv_bytes(der::TAG_INTEGER, seq![2u8]));
    der::lemma_short_tlv(der::TAG_INTEGER, seq![3u8]);
    der::lemma_short_tlv(der::TAG_OID, OID_SHA256_WITH_RSA@);
    der::lemma_short_tlv(
        der::TAG_SEQUENCE,
        tlv_bytes(der::TAG_OID, OID_SHA256_WITH_RSA@) + seq![der::TAG_NULL, 0x00u8],
    );
    der::lemma_short_tlv(TAG_UTC_TIME, not_before);
    der::lemma_short_tlv(TAG_UTC_TIME, not_after);
    der::lemma_short_tlv(der::TAG_SEQUENCE, utc_bytes(not_before) + utc_bytes(not_after));
    der::lemma_concat_part(v, 0);
    der::lemma_concat_part(v, 1);
    der::lemma_concat_part(v, 2);
    der::lemma_concat_part(v, 3);
    der::lemma_concat_part(v, 4);
    der::lemma_concat_part(v, 5);
    der::lemma_concat_part(v, 6);
    assert(v.take(7) =~= v);
    assert(v[3].len() == 36);
    assert(v[4].len() == 32);
    assert(v[5].len() == 33);
    der::lemma_nested(tbs, h, tbs.len() as int, 23, 59);
    der::lemma_nested(tbs, h, tbs.len() as int, 59, 91);
    der::lemma_nested(tbs, h, tbs.len() as int, 91, 124);
    der::lemma_nested(tbs, h, tbs.len() as int, 124, c.len() as int);
    assert(v[4] =~= seq![0x30u8, 0x1e, 0x17, 0x0d] + not_before + seq![0x17u8, 0x0d] + not_after);
}

/// A SubjectPublicKeyInfo over a point of at most 102 bytes of coordinates,
/// byte for byte: its SEQUENCE, the AlgorithmIdentifier naming
/// id-ecPublicKey (1.2.840.10045.2.1) on prime256v1 (1.2.840.10045.3.1.7),
/// then the BIT STRING with no unused bits, the uncompressed marker 04, X
/// and Y.
pub proof fn lemma_spki_layout(x: Seq<u8>, y: Seq<u8>)
    requires
        x.len() + y.len() <= 102,
    ensures
        spki_bytes(x, y) == seq![
            0x30u8, (25 + x.len() + y.len()) as u8,
            0x30, 0x13,
            0x06, 0x07, 0x2a, 0x86, 0x48, 0xce, 0x3d, 0x02, 0x01,
            0x06, 0x08, 0x2a, 0x86, 0x48, 0xce, 0x3d, 0x03, 0x01, 0x07,
            0x03, (2 + x.len() + y.len()) as u8, 0x00, 0x04,
        ] + x + y,
{
    der::lemma_short_tlv(der::TAG_OID, OID_EC_PUBLIC_KEY@);
    der::lemma_short_tlv(der::TAG_OID, OID_PRIME256V1@);
    der::lemma_short_tlv(
        der::TAG_SEQUENCE,
        tlv_bytes(der::TAG_OID, OID_EC_PUBLIC_KEY@) + tlv_bytes(der::TAG_OID, OID_PRIME256V1@),
    );
    der::lemma_short_tlv(TAG_BIT_STRING, point_bits(x, y));
    lemma_ec_algorithm_len();
    der::lemma_short_tlv(
        der::TAG_SEQUENCE,
        ec_algorithm() + tlv_bytes(TAG_BIT_STRING, point_bits(x, y)),
    );
    assert(spki_bytes(x, y) =~= seq![
        0x30u8, (25 + x.len() + y.len()) as u8,
        0x30, 0x13,
        0x06, 0x07, 0x2a, 0x86, 0x48, 0xce, 0x3d, 0x02, 0x01,
        0x06, 0x08, 0x2a, 0x86, 0x48, 0xce, 0x3d, 0x03, 0x01, 0x07,
        0x03, (2 + x.len() + y.len()) as u8, 0x00, 0x04,
    ] + x + y);
}

} // verus!
