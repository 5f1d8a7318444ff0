//! Builds the Doc 9303 structures the circuits read: DG1, the Security
//! Object content, and the signed attributes a Document Signer signs.
//!
//! Offsets are returned alongside the bytes because a circuit is given the
//! position of each structure it inspects and constrains what it finds
//! there, rather than searching the buffer.
use crate::der;
use crate::der::{concat, header_len_at, length_bytes, tlv_bytes, views, MAX_LENGTH};
use crate::ec;
use crate::ec::sha256_digest;
use vstd::prelude::*;
use vstd::string::*;

verus! {

pub const OID_SHA256: [u8; 9] = [0x60, 0x86, 0x48, 0x01, 0x65, 0x03, 0x04, 0x02, 0x01];

pub const OID_CONTENT_TYPE: [u8; 9] = [0x2a, 0x86, 0x48, 0x86, 0xf7, 0x0d, 0x01, 0x09, 0x03];

pub const OID_MESSAGE_DIGEST: [u8; 9] = [0x2a, 0x86, 0x48, 0x86, 0xf7, 0x0d, 0x01, 0x09, 0x04];

pub const OID_LDS_SECURITY_OBJECT: [u8; 6] = [0x67, 0x81, 0x08, 0x01, 0x01, 0x01];

pub const TAG_DG1: u8 = 0x61;

pub const TAG_MRZ_DATA: [u8; 2] = [0x5f, 0x1f];

pub const MRZ_TD3: &'static str =
    "P<UTOERIKSSON<<ANNA<MARIA<<<<<<<<<<<<<<<<<<<L898902C36UTO7408122F1204159ZE184226B<<<<<10";

/// The card sized travel document layout, two lines of thirty six, built
/// from the same specimen holder as the other two with check digits computed
/// under the 7-3-1 weighting.
pub const MRZ_TD2: &'static str =
    "I<UTOERIKSSON<<ANNA<MARIA<<<<<<<<<<<D231458907UTO7408122F1204159<<<<<<<6";

pub const MRZ_TD1: &'static str =
    "I<UTOD231458907<<<<<<<<<<<<<<<7408122F1204159UTO<<<<<<<<<<<6ERIKSSON<<ANNA<MARIA<<<<<<<<<<";

/// The tag of EF.DG15, the chip's Active Authentication public key.
pub const TAG_DG15: u8 = 0x6f;

/// EF.DG15: the chip's SubjectPublicKeyInfo in its template,
/// `6F len spki`.
pub open spec fn dg15_bytes(spki: Seq<u8>) -> Seq<u8> {
    tlv_bytes(TAG_DG15, spki)
}

/// EF.DG15 wraps the chip's SubjectPublicKeyInfo in its own template.
pub fn build_dg15(spki: &[u8]) -> (out: Vec<u8>)
    requires
        spki.len() <= MAX_LENGTH,
    ensures
        out@ == dg15_bytes(spki@),
{
    der::tlv(TAG_DG15, spki)
}

/// EF.DG1: the machine readable zone in its template, `61 len 5F1F len mrz`.
pub open spec fn dg1_bytes(mrz: Seq<u8>) -> Seq<u8> {
    tlv_bytes(TAG_DG1, TAG_MRZ_DATA@ + length_bytes(mrz.len()) + mrz)
}

/// EF.DG1 is the MRZ wrapped in its own template: `61 len 5F1F len mrz`.
pub fn build_dg1(mrz: &str) -> (out: Vec<u8>)
    requires
        mrz.spec_bytes().len() <= 0xfffa,
    ensures
        out@ == dg1_bytes(mrz.spec_bytes()),
{
    let bytes = mrz.as_bytes();
    let mut inner: Vec<u8> = Vec::new();
    der::append(&mut inner, &TAG_MRZ_DATA);
    let length = der::encode_length(bytes.len());
    der::append(&mut inner, length.as_slice());
    der::append(&mut inner, bytes);
    proof {
        assert(inner@ =~= TAG_MRZ_DATA@ + length_bytes(bytes@.len()) + bytes@);
    }
    der::tlv(TAG_DG1, inner.as_slice())
}

/// A data group: its number and its content.
pub struct DataGroup {
    pub number: u8,
    pub content: Vec<u8>,
}

/// The Security Object content and where the circuits look in it.
pub struct SecurityObject {
    pub econtent: Vec<u8>,
    pub oid_offset: usize,
    pub dg_offsets: Vec<(u8, usize)>,
}

/// One DataGroupHash: the group number and the SHA-256 of its content.
pub open spec fn entry_bytes(number: u8, digest: Seq<u8>) -> Seq<u8> {
    tlv_bytes(
        der::TAG_SEQUENCE,
        tlv_bytes(der::TAG_INTEGER, seq![number]) + tlv_bytes(der::TAG_OCTET_STRING, digest),
    )
}

/// The DataGroupHash of a group.
pub open spec fn group_entry(group: DataGroup) -> Seq<u8> {
    entry_bytes(group.number, sha256_digest(group.content@))
}

/// The DataGroupHashes of the groups, in order.
pub open spec fn group_entries(groups: Seq<DataGroup>) -> Seq<Seq<u8>> {
    groups.map_values(|g: DataGroup| group_entry(g))
}

/// The version, 0.
pub open spec fn so_version() -> Seq<u8> {
    tlv_bytes(der::TAG_INTEGER, seq![0u8])
}

/// The digest algorithm: SHA-256 with NULL parameters.
pub open spec fn so_algorithm() -> Seq<u8> {
    tlv_bytes(der::TAG_SEQUENCE, tlv_bytes(der::TAG_OID, OID_SHA256@) + seq![der::TAG_NULL, 0x00u8])
}

/// LDSSecurityObject: version, the digest algorithm, then one entry per
/// data group holding its hash.
pub open spec fn econtent_bytes(groups: Seq<DataGroup>) -> Seq<u8> {
    tlv_bytes(
        der::TAG_SEQUENCE,
        so_version() + so_algorithm() + tlv_bytes(der::TAG_SEQUENCE, concat(group_entries(groups))),
    )
}

/// What a Security Object can cover: group numbers a one byte INTEGER
/// holds, and few enough groups that the content takes two length bytes.
pub open spec fn coverable(groups: Seq<DataGroup>) -> bool {
    &&& groups.len() <= 1679
    &&& forall|i: int| 0 <= i < groups.len() ==> #[trigger] groups[i].number < 0x80
}

/// A DataGroupHash over a SHA-256 digest is 39 bytes: its header, the group
/// number, the OCTET STRING header, then the digest.
proof fn lemma_entry_shape(number: u8, digest: Seq<u8>)
    requires
        digest.len() == 32,
    ensures
        entry_bytes(number, digest) == seq![
            der::TAG_SEQUENCE,
            0x25u8,
            der::TAG_INTEGER,
            0x01u8,
            number,
            der::TAG_OCTET_STRING,
            0x20u8,
        ] + digest,
        entry_bytes(number, digest).len() == 39,
{
    der::lemma_short_tlv(der::TAG_INTEGER, seq![number]);
    der::lemma_short_tlv(der::TAG_OCTET_STRING, digest);
    let body = tlv_bytes(der::TAG_INTEGER, seq![number]) + tlv_bytes(der::TAG_OCTET_STRING, digest);
    der::lemma_short_tlv(der::TAG_SEQUENCE, body);
    assert(entry_bytes(number, digest) =~= seq![
        der::TAG_SEQUENCE,
        0x25u8,
        der::TAG_INTEGER,
        0x01u8,
        number,
        der::TAG_OCTET_STRING,
        0x20u8,
    ] + digest);
}

/// The digests of the groups' contents are SHA-256 wide.
pub open spec fn digests_sized(groups: Seq<DataGroup>) -> bool {
    forall|i: int| 0 <= i < groups.len() ==> #[trigger] sha256_digest(groups[i].content@).len() == 32
}

/// Every DataGroupHash is 39 bytes.
proof fn lemma_entries_uniform(groups: Seq<DataGroup>)
    requires
        digests_sized(groups),
    ensures
        forall|i: int|
            0 <= i < groups.len() ==> #[trigger] group_entries(groups)[i].len() == 39,
        group_entries(groups).len() == groups.len(),
{
    assert forall|i: int| 0 <= i < groups.len() implies #[trigger] group_entries(groups)[i].len()
        == 39 by {
        let g = groups[i];
        lemma_entry_shape(g.number, sha256_digest(g.content@));
    }
}

/// Where the digest algorithm and each DataGroupHash sit in the content.
proof fn lemma_econtent_layout(groups: Seq<DataGroup>, body_start: int, k: int)
    requires
        coverable(groups),
        digests_sized(groups),
        body_start == header_len_at(econtent_bytes(groups), 0),
        0 <= k < groups.len(),
    ensures
        ({
            let e = econtent_bytes(groups);
            let hv = tlv_bytes(der::TAG_SEQUENCE, concat(group_entries(groups)));
            let start = body_start + 18 + header_len_at(hv, 0) + 39 * k;
            &&& start + 39 <= e.len()
            &&& e.subrange(start, start + 39) == group_entry(groups[k])
        }),
{
    let entries = group_entries(groups);
    lemma_entries_uniform(groups);
    der::lemma_uniform_parts(entries, 39);
    let ce = concat(entries);
    let hv = tlv_bytes(der::TAG_SEQUENCE, ce);
    assert(ce.len() <= 65481);
    der::lemma_tlv_header(der::TAG_SEQUENCE, ce);
    let h2 = header_len_at(hv, 0) as int;
    let c = so_version() + so_algorithm() + hv;
    der::lemma_tlv_header(der::TAG_SEQUENCE, c);
    let e = econtent_bytes(groups);
    der::lemma_concat_part(entries, k);
    let h = body_start;
    der::lemma_nested(e, h, e.len() as int, 18, 18 + hv.len() as int);
    assert(c.subrange(18, 18 + hv.len() as int) =~= hv);
    der::lemma_nested(e, h + 18, h + 18 + hv.len(), h2, hv.len() as int);
    der::lemma_nested(e, h + 18 + h2, h + 18 + hv.len(), 39 * k, 39 * k + 39);
}

/// The digest algorithm OID sits right after the version and the
/// algorithm's own header.
proof fn lemma_econtent_oid(groups: Seq<DataGroup>, body_start: int)
    requires
        coverable(groups),
        digests_sized(groups),
        body_start == header_len_at(econtent_bytes(groups), 0),
    ensures
        ({
            let e = econtent_bytes(groups);
            &&& body_start + 16 <= e.len()
            &&& e.subrange(body_start + 5, body_start + 16) == tlv_bytes(der::TAG_OID, OID_SHA256@)
        }),
{
    let entries = group_entries(groups);
    lemma_entries_uniform(groups);
    der::lemma_uniform_parts(entries, 39);
    let hv = tlv_bytes(der::TAG_SEQUENCE, concat(entries));
    der::lemma_tlv_header(der::TAG_SEQUENCE, concat(entries));
    let c = so_version() + so_algorithm() + hv;
    der::lemma_tlv_header(der::TAG_SEQUENCE, c);
    let e = econtent_bytes(groups);
    der::lemma_short_tlv(der::TAG_OID, OID_SHA256@);
    der::lemma_short_tlv(
        der::TAG_SEQUENCE,
        tlv_bytes(der::TAG_OID, OID_SHA256@) + seq![der::TAG_NULL, 0x00u8],
    );
    der::lemma_nested(e, body_start, e.len() as int, 5, 16);
    assert(c.subrange(5, 16) =~= tlv_bytes(der::TAG_OID, OID_SHA256@));
}

/// How long the Security Object content over `n` SHA-256 data group hashes
/// is: the version and the algorithm, 18 bytes, and the hashes, 39 bytes
/// each, in their SEQUENCE, in the outer SEQUENCE.
pub open spec fn econtent_len(n: nat) -> nat {
    let hashes = 39 * n;
    let inner = 1 + length_bytes(hashes).len() + hashes;
    let content = 18 + inner;
    1 + length_bytes(content).len() + content
}

/// The content's length depends on how many groups it covers and nothing
/// else.
pub proof fn lemma_econtent_len(groups: Seq<DataGroup>)
    requires
        coverable(groups),
        digests_sized(groups),
    ensures
        econtent_bytes(groups).len() == econtent_len(groups.len()),
{
    let entries = group_entries(groups);
    lemma_entries_uniform(groups);
    der::lemma_uniform_parts(entries, 39);
    der::lemma_short_tlv(der::TAG_INTEGER, seq![0u8]);
    der::lemma_short_tlv(der::TAG_OID, OID_SHA256@);
    der::lemma_short_tlv(
        der::TAG_SEQUENCE,
        tlv_bytes(der::TAG_OID, OID_SHA256@) + seq![der::TAG_NULL, 0x00u8],
    );
    assert(so_version().len() + so_algorithm().len() == 18);
}

/// Where the digest algorithm's OID sits in the Security Object content over
/// `n` data group hashes: after the outer header, the 3 byte version and the
/// algorithm's 2 byte header.
pub open spec fn algorithm_oid_offset(n: nat) -> int {
    let hashes = 39 * n;
    let content = 18 + 1 + length_bytes(hashes).len() + hashes;
    1 + length_bytes(content).len() + 5int
}

/// Where DataGroupHash `k` of `n` begins in the Security Object content:
/// after the outer header, the 18 bytes of version and algorithm, the header
/// of the SEQUENCE of hashes, and the `k` hashes of 39 bytes before it.
pub open spec fn group_offset(n: nat, k: int) -> int {
    let hashes = 39 * n;
    let content = 18 + 1 + length_bytes(hashes).len() + hashes;
    1 + length_bytes(content).len() + 18 + 1 + length_bytes(hashes).len() + 39 * k
}

/// The headers of the content and of its SEQUENCE of hashes depend on how
/// many groups it covers and nothing else.
proof fn lemma_econtent_headers(groups: Seq<DataGroup>)
    requires
        coverable(groups),
        digests_sized(groups),
    ensures
        header_len_at(econtent_bytes(groups), 0) + 5 == algorithm_oid_offset(groups.len()),
        header_len_at(econtent_bytes(groups), 0) + 18 + header_len_at(
            tlv_bytes(der::TAG_SEQUENCE, concat(group_entries(groups))),
            0,
        ) == group_offset(groups.len(), 0),
{
    let entries = group_entries(groups);
    lemma_entries_uniform(groups);
    der::lemma_uniform_parts(entries, 39);
    let ce = concat(entries);
    assert(ce.len() <= 65481);
    der::lemma_tlv_header(der::TAG_SEQUENCE, ce);
    let hv = tlv_bytes(der::TAG_SEQUENCE, ce);
    der::lemma_short_tlv(der::TAG_INTEGER, seq![0u8]);
    der::lemma_short_tlv(der::TAG_OID, OID_SHA256@);
    der::lemma_short_tlv(
        der::TAG_SEQUENCE,
        tlv_bytes(der::TAG_OID, OID_SHA256@) + seq![der::TAG_NULL, 0x00u8],
    );
    let c = so_version() + so_algorithm() + hv;
    assert(c.len() == 18 + 1 + length_bytes(39 * groups.len()).len() + 39 * groups.len());
    der::lemma_tlv_header(der::TAG_SEQUENCE, c);
}

/// The circuits' shipped buffer of 512 bytes holds the Security Object of a
/// document with up to twelve data groups, and not of one with more: Doc
/// 9303 allows sixteen and requires two, so how many groups a document
/// carries decides whether that buffer can prove it.
pub proof fn lemma_twelve_groups_fit_512(n: nat)
    requires
        n <= 1679,
    ensures
        econtent_len(n) <= 512 <==> n <= 12,
        n <= 16 ==> econtent_len(n) <= 1024,
{
    let hashes = 39 * n;
    if n <= 12 {
        assert(hashes <= 468);
    } else {
        assert(hashes >= 507);
    }
}

/// LDSSecurityObject: version, the digest algorithm, then one entry per data
/// group holding its hash.
pub fn build_security_object(groups: &[DataGroup]) -> (so: SecurityObject)
    requires
        coverable(groups@),
    ensures
        so.econtent@ == econtent_bytes(groups@),
        so.oid_offset + 11 <= so.econtent@.len(),
        so.econtent@.subrange(so.oid_offset as int, so.oid_offset + 11) == tlv_bytes(
            der::TAG_OID,
            OID_SHA256@,
        ),
        so.oid_offset == algorithm_oid_offset(groups.len() as nat),
        so.dg_offsets@.len() == groups.len(),
        forall|i: int|
            0 <= i < groups.len() ==> {
                let (number, offset) = #[trigger] so.dg_offsets@[i];
                &&& number == groups@[i].number
                &&& offset == group_offset(groups.len() as nat, i)
                &&& offset + 39 <= so.econtent@.len()
                &&& so.econtent@.subrange(offset as int, offset + 39) == group_entry(groups@[i])
            },
{
    let version = der::integer_u8(0);
    let algorithm_parts = [der::oid(&OID_SHA256), der::null()];
    proof {
        der::lemma_views_pair(algorithm_parts@);
    }
    let algorithm = der::sequence(&algorithm_parts);
    let mut entries: Vec<Vec<u8>> = Vec::new();
    let mut i: usize = 0;
    while i < groups.len()
        invariant
            i <= groups.len(),
            coverable(groups@),
            entries@.len() == i,
            forall|j: int| 0 <= j < i ==> #[trigger] entries@[j]@ == group_entry(groups@[j]),
            forall|j: int|
                0 <= j < i ==> #[trigger] sha256_digest(groups@[j].content@).len() == 32,
        decreases groups.len() - i,
    {
        let group = &groups[i];
        let hash = ec::sha256(group.content.as_slice());
        let parts = [der::integer_u8(group.number), der::octet_string(hash.as_slice())];
        proof {
            der::lemma_views_pair(parts@);
        }
        entries.push(der::sequence(&parts));
        i += 1;
    }
    proof {
        assert(views(entries@) =~= group_entries(groups@));
        lemma_entries_uniform(groups@);
        der::lemma_uniform_parts(group_entries(groups@), 39);
    }
    let hash_values = der::sequence(entries.as_slice());
    let top = [version, algorithm, hash_values];
    proof {
        der::lemma_views_triple(top@);
        assert(concat(views(top@)) =~= so_version() + so_algorithm() + tlv_bytes(
            der::TAG_SEQUENCE,
            concat(group_entries(groups@)),
        ));
        der::lemma_tlv_header(der::TAG_SEQUENCE, concat(group_entries(groups@)));
    }
    let econtent = der::sequence(&top);
    let body_start = econtent.len() - (top[0].len() + top[1].len() + top[2].len());
    let algorithm_start = body_start + top[0].len();
    proof {
        der::lemma_tlv_header(der::TAG_SEQUENCE, concat(views(top@)));
        der::lemma_short_tlv(der::TAG_OID, OID_SHA256@);
        der::lemma_tlv_header(
            der::TAG_SEQUENCE,
            tlv_bytes(der::TAG_OID, OID_SHA256@) + seq![der::TAG_NULL, 0x00u8],
        );
        assert(top@[1]@ == so_algorithm());
        lemma_econtent_oid(groups@, body_start as int);
        lemma_econtent_headers(groups@);
    }
    // The AlgorithmIdentifier SEQUENCE header precedes the OID it contains.
    let oid_offset = algorithm_start + der::read(top[1].as_slice(), 0).header_len;
    let entries_start = algorithm_start + top[1].len() + der::read(top[2].as_slice(), 0).header_len;
    let mut dg_offsets: Vec<(u8, usize)> = Vec::new();
    let mut cursor = entries_start;
    let mut index: usize = 0;
    while index < groups.len()
        invariant
            index <= groups.len(),
            coverable(groups@),
            econtent@ == econtent_bytes(groups@),
            body_start == header_len_at(econtent_bytes(groups@), 0),
            entries_start == body_start + 18 + header_len_at(
                tlv_bytes(der::TAG_SEQUENCE, concat(group_entries(groups@))),
                0,
            ),
            entries@.len() == groups.len(),
            forall|j: int| 0 <= j < groups.len() ==> #[trigger] entries@[j]@ == group_entry(
                groups@[j],
            ),
            cursor == entries_start + 39 * index,
            entries_start == group_offset(groups.len() as nat, 0),
            digests_sized(groups@),
            body_start < 5,
            dg_offsets@.len() == index,
            forall|j: int|
                0 <= j < index ==> {
                    let (number, offset) = #[trigger] dg_offsets@[j];
                    &&& number == groups@[j].number
                    &&& offset == group_offset(groups.len() as nat, j)
                    &&& offset + 39 <= econtent@.len()
                    &&& econtent@.subrange(offset as int, offset + 39) == group_entry(groups@[j])
                },
        decreases groups.len() - index,
    {
        proof {
            lemma_econtent_layout(groups@, body_start as int, index as int);
            lemma_entries_uniform(groups@);
            assert(group_entries(groups@)[index as int] == group_entry(groups@[index as int]));
        }
        dg_offsets.push((groups[index].number, cursor));
        cursor = cursor + entries[index].len();
        index += 1;
    }
    SecurityObject { econtent, oid_offset, dg_offsets }
}

/// The SignedAttributes: the content type and the message digest.
pub open spec fn signed_attributes_bytes(econtent: Seq<u8>) -> Seq<u8> {
    tlv_bytes(
        der::TAG_SET,
        tlv_bytes(
            der::TAG_SEQUENCE,
            tlv_bytes(der::TAG_OID, OID_CONTENT_TYPE@) + tlv_bytes(
                der::TAG_SET,
                tlv_bytes(der::TAG_OID, OID_LDS_SECURITY_OBJECT@),
            ),
        ) + tlv_bytes(
            der::TAG_SEQUENCE,
            tlv_bytes(der::TAG_OID, OID_MESSAGE_DIGEST@) + tlv_bytes(
                der::TAG_SET,
                tlv_bytes(der::TAG_OCTET_STRING, sha256_digest(econtent)),
            ),
        ),
    )
}

/// The signed attributes and where the digest of the content sits in them.
pub struct SignedAttributes {
    pub bytes: Vec<u8>,
    pub digest_offset: usize,
}

/// The signature covers the DER SET OF encoding of the signed attributes,
/// which is what this returns; inside a SignerInfo the same bytes appear
/// under an implicit context tag.
pub fn build_signed_attributes(econtent: &[u8]) -> (attributes: SignedAttributes)
    ensures
        attributes.bytes@ == signed_attributes_bytes(econtent@),
        attributes.bytes@.len() == 74,
        attributes.digest_offset == 42,
        attributes.digest_offset + 32 <= attributes.bytes@.len(),
        attributes.bytes@.subrange(
            attributes.digest_offset as int,
            attributes.digest_offset + 32,
        ) == sha256_digest(econtent@),
{
    let type_set = [der::oid(&OID_LDS_SECURITY_OBJECT)];
    proof {
        der::lemma_views_one(type_set@);
    }
    let type_parts = [der::oid(&OID_CONTENT_TYPE), der::set(&type_set)];
    proof {
        der::lemma_views_pair(type_parts@);
    }
    let content_type = der::sequence(&type_parts);
    let digest = ec::sha256(econtent);
    let digest_set = [der::octet_string(digest.as_slice())];
    proof {
        der::lemma_views_one(digest_set@);
    }
    let digest_parts = [der::oid(&OID_MESSAGE_DIGEST), der::set(&digest_set)];
    proof {
        der::lemma_views_pair(digest_parts@);
    }
    let message_digest = der::sequence(&digest_parts);
    let content_type_len = content_type.len();
    let attributes = [content_type, message_digest];
    proof {
        der::lemma_views_pair(attributes@);
    }
    let bytes = der::set(&attributes);
    proof {
        lemma_signed_attributes_shape(econtent@);
    }
    let header = der::read(bytes.as_slice(), 0).header_len;
    let message_digest_start = header + content_type_len;
    // Inside the attribute: SEQUENCE header, OID, SET header, OCTET STRING
    // header, then the digest itself.
    let digest_offset = message_digest_start + der::read(attributes[1].as_slice(), 0).header_len
        + der::oid(&OID_MESSAGE_DIGEST).len() + 2 + 2;
    SignedAttributes { bytes, digest_offset }
}

/// The signed attributes are 74 bytes, every header in them short, and the
/// digest sits at byte 42.
proof fn lemma_signed_attributes_shape(econtent: Seq<u8>)
    requires
        sha256_digest(econtent).len() == 32,
    ensures
        ({
            let digest = sha256_digest(econtent);
            let content_type = tlv_bytes(
                der::TAG_SEQUENCE,
                tlv_bytes(der::TAG_OID, OID_CONTENT_TYPE@) + tlv_bytes(
                    der::TAG_SET,
                    tlv_bytes(der::TAG_OID, OID_LDS_SECURITY_OBJECT@),
                ),
            );
            let message_digest = tlv_bytes(
                der::TAG_SEQUENCE,
                tlv_bytes(der::TAG_OID, OID_MESSAGE_DIGEST@) + tlv_bytes(
                    der::TAG_SET,
                    tlv_bytes(der::TAG_OCTET_STRING, digest),
                ),
            );
            let bytes = signed_attributes_bytes(econtent);
            &&& content_type.len() == 23
            &&& message_digest.len() == 49
            &&& der::readable(bytes, 0)
            &&& header_len_at(bytes, 0) == 2
            &&& der::readable(message_digest, 0)
            &&& header_len_at(message_digest, 0) == 2
            &&& bytes.len() == 74
            &&& bytes.subrange(42, 74) == digest
        }),
{
    let digest = sha256_digest(econtent);
    der::lemma_short_tlv(der::TAG_OID, OID_CONTENT_TYPE@);
    der::lemma_short_tlv(der::TAG_OID, OID_LDS_SECURITY_OBJECT@);
    der::lemma_short_tlv(der::TAG_SET, tlv_bytes(der::TAG_OID, OID_LDS_SECURITY_OBJECT@));
    let ct_body = tlv_bytes(der::TAG_OID, OID_CONTENT_TYPE@) + tlv_bytes(
        der::TAG_SET,
        tlv_bytes(der::TAG_OID, OID_LDS_SECURITY_OBJECT@),
    );
    der::lemma_short_tlv(der::TAG_SEQUENCE, ct_body);
    der::lemma_short_tlv(der::TAG_OID, OID_MESSAGE_DIGEST@);
    der::lemma_short_tlv(der::TAG_OCTET_STRING, digest);
    der::lemma_short_tlv(der::TAG_SET, tlv_bytes(der::TAG_OCTET_STRING, digest));
    let md_body = tlv_bytes(der::TAG_OID, OID_MESSAGE_DIGEST@) + tlv_bytes(
        der::TAG_SET,
        tlv_bytes(der::TAG_OCTET_STRING, digest),
    );
    der::lemma_short_tlv(der::TAG_SEQUENCE, md_body);
    let content_type = tlv_bytes(der::TAG_SEQUENCE, ct_body);
    let message_digest = tlv_bytes(der::TAG_SEQUENCE, md_body);
    der::lemma_short_tlv(der::TAG_SET, content_type + message_digest);
    der::lemma_tlv_header(der::TAG_SET, content_type + message_digest);
    der::lemma_tlv_header(der::TAG_SEQUENCE, md_body);
    let bytes = signed_attributes_bytes(econtent);
    assert(bytes.subrange(42, 74) =~= digest);
}

/// The signed attributes, byte for byte: a SET of two attributes, first
/// contentType (1.2.840.113549.1.9.3) naming the LDS Security Object
/// (2.23.136.1.1.1), then messageDigest (1.2.840.113549.1.9.4) holding the
/// SHA-256 of the content in an OCTET STRING, which ends the encoding.
pub proof fn lemma_signed_attributes_layout(econtent: Seq<u8>)
    requires
        sha256_digest(econtent).len() == 32,
    ensures
        signed_attributes_bytes(econtent) == seq![
            0x31u8, 0x48, 0x30, 0x15, 0x06, 0x09,
            0x2a, 0x86, 0x48, 0x86, 0xf7, 0x0d, 0x01, 0x09, 0x03,
            0x31, 0x08, 0x06, 0x06,
            0x67, 0x81, 0x08, 0x01, 0x01, 0x01,
            0x30, 0x2f, 0x06, 0x09,
            0x2a, 0x86, 0x48, 0x86, 0xf7, 0x0d, 0x01, 0x09, 0x04,
            0x31, 0x22, 0x04, 0x20,
        ] + sha256_digest(econtent),
{
    let digest = sha256_digest(econtent);
    der::lemma_short_tlv(der::TAG_OID, OID_CONTENT_TYPE@);
    der::lemma_short_tlv(der::TAG_OID, OID_LDS_SECURITY_OBJECT@);
    der::lemma_short_tlv(der::TAG_SET, tlv_bytes(der::TAG_OID, OID_LDS_SECURITY_OBJECT@));
    let ct_body = tlv_bytes(der::TAG_OID, OID_CONTENT_TYPE@) + tlv_bytes(
        der::TAG_SET,
        tlv_bytes(der::TAG_OID, OID_LDS_SECURITY_OBJECT@),
    );
    der::lemma_short_tlv(der::TAG_SEQUENCE, ct_body);
    der::lemma_short_tlv(der::TAG_OID, OID_MESSAGE_DIGEST@);
    der::lemma_short_tlv(der::TAG_OCTET_STRING, digest);
    der::lemma_short_tlv(der::TAG_SET, tlv_bytes(der::TAG_OCTET_STRING, digest));
    let md_body = tlv_bytes(der::TAG_OID, OID_MESSAGE_DIGEST@) + tlv_bytes(
        der::TAG_SET,
        tlv_bytes(der::TAG_OCTET_STRING, digest),
    );
    der::lemma_short_tlv(der::TAG_SEQUENCE, md_body);
    let content_type = tlv_bytes(der::TAG_SEQUENCE, ct_body);
    let message_digest = tlv_bytes(der::TAG_SEQUENCE, md_body);
    der::lemma_short_tlv(der::TAG_SET, content_type + message_digest);
    assert(signed_attributes_bytes(econtent) =~= seq![
        0x31u8, 0x48, 0x30, 0x15, 0x06, 0x09,
        0x2a, 0x86, 0x48, 0x86, 0xf7, 0x0d, 0x01, 0x09, 0x03,
        0x31, 0x08, 0x06, 0x06,
        0x67, 0x81, 0x08, 0x01, 0x01, 0x01,
        0x30, 0x2f, 0x06, 0x09,
        0x2a, 0x86, 0x48, 0x86, 0xf7, 0x0d, 0x01, 0x09, 0x04,
        0x31, 0x22, 0x04, 0x20,
    ] + digest);
}

/// The Security Object content over groups whose digests are SHA-256 wide:
/// version 0, then the AlgorithmIdentifier of SHA-256
/// (2.16.840.1.101.3.4.2.1) with NULL parameters, then for each group, at the
/// offset its place fixes, a DataGroupHash holding its number and the
/// SHA-256 of its content.
pub proof fn lemma_econtent_layout_bytes(groups: Seq<DataGroup>)
    requires
        coverable(groups),
        digests_sized(groups),
    ensures
        ({
            let e = econtent_bytes(groups);
            let h = header_len_at(e, 0) as int;
            &&& e[0] == 0x30
            &&& h + 18 <= e.len()
            &&& e.subrange(h, h + 18) == seq![
                0x02u8, 0x01, 0x00,
                0x30, 0x0d, 0x06, 0x09,
                0x60, 0x86, 0x48, 0x01, 0x65, 0x03, 0x04, 0x02, 0x01,
                0x05, 0x00,
            ]
            &&& forall|i: int|
                0 <= i < groups.len() ==> {
                    &&& group_offset(groups.len(), i) + 39 <= e.len()
                    &&& #[trigger] e.subrange(
                        group_offset(groups.len(), i),
                        group_offset(groups.len(), i) + 39,
                    ) == seq![
                        0x30u8,
                        0x25,
                        0x02,
                        0x01,
                        groups[i].number,
                        0x04,
                        0x20,
                    ] + sha256_digest(groups[i].content@)
                }
        }),
{
    let e = econtent_bytes(groups);
    let entries = group_entries(groups);
    lemma_entries_uniform(groups);
    der::lemma_uniform_parts(entries, 39);
    let hv = tlv_bytes(der::TAG_SEQUENCE, concat(entries));
    der::lemma_tlv_header(der::TAG_SEQUENCE, concat(entries));
    der::lemma_short_tlv(der::TAG_INTEGER, seq![0u8]);
    der::lemma_short_tlv(der::TAG_OID, OID_SHA256@);
    der::lemma_short_tlv(
        der::TAG_SEQUENCE,
        tlv_bytes(der::TAG_OID, OID_SHA256@) + seq![der::TAG_NULL, 0x00u8],
    );
    let c = so_version() + so_algorithm() + hv;
    der::lemma_tlv_header(der::TAG_SEQUENCE, c);
    let h = header_len_at(e, 0) as int;
    der::lemma_nested(e, h, e.len() as int, 0, 18);
    assert(c.subrange(0, 18) =~= so_version() + so_algorithm());
    assert(e.subrange(h, h + 18) =~= seq![
        0x02u8, 0x01, 0x00,
        0x30, 0x0d, 0x06, 0x09,
        0x60, 0x86, 0x48, 0x01, 0x65, 0x03, 0x04, 0x02, 0x01,
        0x05, 0x00,
    ]);
    lemma_econtent_headers(groups);
    assert forall|i: int| 0 <= i < groups.len() implies {
        &&& group_offset(groups.len(), i) + 39 <= e.len()
        &&& #[trigger] e.subrange(
            group_offset(groups.len(), i),
            group_offset(groups.len(), i) + 39,
        ) == seq![
            0x30u8,
            0x25,
            0x02,
            0x01,
            groups[i].number,
            0x04,
            0x20,
        ] + sha256_digest(groups[i].content@)
    } by {
        lemma_econtent_layout(groups, h, i);
        lemma_entry_shape(groups[i].number, sha256_digest(groups[i].content@));
        assert(sha256_digest(groups[i].content@).len() == 32);
    }
}

/// EF.DG1 of a zone of fewer than 125 characters, byte for byte: the DG1
/// template tag 0x61 and its length, the MRZ data tag 5F1F and the zone's
/// length, then the zone itself, which ends it.
pub proof fn lemma_dg1_layout(mrz: Seq<u8>)
    requires
        mrz.len() < 125,
    ensures
        dg1_bytes(mrz) == seq![0x61u8, (mrz.len() + 3) as u8, 0x5f, 0x1f, mrz.len() as u8] + mrz,
{
    let inner = TAG_MRZ_DATA@ + length_bytes(mrz.len()) + mrz;
    assert(inner.len() == mrz.len() + 3);
    der::lemma_short_tlv(TAG_DG1, inner);
    assert(dg1_bytes(mrz) =~= seq![0x61u8, (mrz.len() + 3) as u8, 0x5f, 0x1f, mrz.len() as u8]
        + mrz);
}

/// EF.DG15 of a SubjectPublicKeyInfo shorter than 128 bytes: the template
/// tag 0x6F, its length, then the key info unchanged.
pub proof fn lemma_dg15_layout(spki: Seq<u8>)
    requires
        spki.len() < 0x80,
    ensures
        dg15_bytes(spki) == seq![0x6fu8, spki.len() as u8] + spki,
{
    der::lemma_short_tlv(TAG_DG15, spki);
}

} // verus!
