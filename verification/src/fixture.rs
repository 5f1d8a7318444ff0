//! The synthetic Doc 9303 documents written out as a Noir library, so
//! circuit tests run against a complete signed document without reading
//! files at proving time, and the witness for the Passive Authentication
//! circuit.
//!
//! The documents are synthetic: keys are generated by the caller and the
//! specimen machine readable zones are the ones Doc 9303 publishes as
//! examples.
use crate::bigint::limb_120;
use crate::bundle::{bytes_text, padded_byte, value_text, DG1_BUFFER, ECONTENT_BUFFER, SIGNED_ATTRS_BUFFER};
use crate::cert::Certificate;
use crate::ec::{sha256, sha256_digest, KeyPair, Signature};
use crate::lines::{
    has_line, lemma_has_line_append, lemma_has_line_self, lemma_whole_append, whole_lines,
};
use crate::icao;
use crate::icao::{
    dg1_bytes, econtent_bytes, group_entry, signed_attributes_bytes, DataGroup, SecurityObject,
    SignedAttributes,
};
use crate::rsa::{barrett, RsaKey};
use crate::text::{
    decimal, decimal_string, hex_pair, joined, push_char, push_decimal, push_hex_pair,
    push_quoted_decimal, push_str,
};
use vstd::prelude::*;
use vstd::string::*;

verus! {

/// The width of a certificate body in the fixture library.
pub const CERTIFICATE_BUFFER: usize = 512;

/// What opens the fixture library.
pub const HEADER: &'static str = "//! Generated by fixtures/generator. Do not edit by hand.\n//!\n//! Synthetic ICAO Doc 9303 documents: a generated Document Signer key over a\n//! Security Object covering DG1 and DG2, with the specimen machine readable\n//! zones from the standard. Signature s values are normalized to at most n/2,\n//! which the circuits require and certificate signatures do not guarantee.\n\n";

/// A specimen document: the prefix its constants take, its machine readable
/// zone and that zone's length.
pub struct Document {
    pub prefix: &'static str,
    pub mrz: &'static str,
    pub mrz_len: usize,
}

/// The three specimen documents: the passport and the two card layouts.
pub fn specimen_documents() -> (documents: Vec<Document>)
    ensures
        documents.len() == 3,
        documents@[0].prefix@ == "TD3"@,
        documents@[0].mrz@ == icao::MRZ_TD3@,
        documents@[0].mrz_len == 88,
        documents@[1].prefix@ == "TD2"@,
        documents@[1].mrz@ == icao::MRZ_TD2@,
        documents@[1].mrz_len == 72,
        documents@[2].prefix@ == "TD1"@,
        documents@[2].mrz@ == icao::MRZ_TD1@,
        documents@[2].mrz_len == 90,
{
    let mut documents: Vec<Document> = Vec::new();
    documents.push(Document { prefix: "TD3", mrz: icao::MRZ_TD3, mrz_len: 88 });
    documents.push(Document { prefix: "TD2", mrz: icao::MRZ_TD2, mrz_len: 72 });
    documents.push(Document { prefix: "TD1", mrz: icao::MRZ_TD1, mrz_len: 90 });
    documents
}

// ---------------------------------------------------------------------------
// The signed material of a document.
/// DG2's stand-in content: 96 bytes of 0x5a.
pub open spec fn dg2_content() -> Seq<u8> {
    Seq::new(96, |i: int| 0x5au8)
}

/// A document's data groups, its Security Object over them, and the
/// attributes its signer signs.
pub struct Material {
    pub dg1: Vec<u8>,
    pub groups: Vec<DataGroup>,
    pub security_object: SecurityObject,
    pub signed_attrs: SignedAttributes,
}

/// The Security Object over `groups`, with its offsets where they belong:
/// the algorithm's OID and each DataGroupHash at the places the group count
/// fixes, on the bytes they name.
pub open spec fn covers(so: SecurityObject, groups: Seq<DataGroup>) -> bool {
    &&& so.econtent@ == econtent_bytes(groups)
    &&& so.oid_offset == icao::algorithm_oid_offset(groups.len())
    &&& so.dg_offsets@.len() == groups.len()
    &&& forall|i: int|
        0 <= i < groups.len() ==> {
            let (number, offset) = #[trigger] so.dg_offsets@[i];
            &&& number == groups[i].number
            &&& offset == icao::group_offset(groups.len(), i)
            &&& offset + 39 <= so.econtent@.len()
            &&& so.econtent@.subrange(offset as int, offset + 39) == group_entry(groups[i])
        }
}

/// The signed attributes over `econtent`: 74 bytes, with the digest at byte
/// 42, where its offset says.
pub open spec fn attests(attributes: SignedAttributes, econtent: Seq<u8>) -> bool {
    &&& attributes.bytes@ == signed_attributes_bytes(econtent)
    &&& attributes.bytes@.len() == 74
    &&& attributes.digest_offset == 42
    &&& attributes.digest_offset + 32 <= attributes.bytes@.len()
    &&& attributes.bytes@.subrange(
        attributes.digest_offset as int,
        attributes.digest_offset + 32,
    ) == sha256_digest(econtent)
}

impl Material {
    /// The material of the document whose zone is `mrz`: DG1 holding it,
    /// DG2 the stand-in, the Security Object over both and the attributes
    /// over that.
    pub open spec fn of_zone(&self, mrz: Seq<u8>) -> bool {
        &&& self.dg1@ == dg1_bytes(mrz)
        &&& self.groups@.len() == 2
        &&& self.groups@[0].number == 1
        &&& self.groups@[0].content@ == self.dg1@
        &&& self.groups@[1].number == 2
        &&& self.groups@[1].content@ == dg2_content()
        &&& covers(self.security_object, self.groups@)
        &&& attests(self.signed_attrs, self.security_object.econtent@)
    }
}

/// Builds a document's DG1, its Security Object over DG1 and DG2, and the
/// attributes its signer signs.
pub fn document_material(mrz: &str) -> (material: Material)
    requires
        mrz.spec_bytes().len() <= 0xfffa,
    ensures
        material.of_zone(mrz.spec_bytes()),
{
    let dg1 = icao::build_dg1(mrz);
    let mut groups: Vec<DataGroup> = Vec::new();
    let dg1_copy = copy_bytes(dg1.as_slice());
    groups.push(DataGroup { number: 1, content: dg1_copy });
    let dg2 = vec![0x5au8; 96];
    proof {
        assert forall|i: int| 0 <= i < 96 implies dg2@[i] == 0x5au8 by {
            assert(cloned::<u8>(0x5au8, dg2@[i]));
        }
        assert(dg2@ =~= dg2_content());
    }
    groups.push(DataGroup { number: 2, content: dg2 });
    let security_object = icao::build_security_object(groups.as_slice());
    let signed_attrs = icao::build_signed_attributes(security_object.econtent.as_slice());
    Material { dg1, groups, security_object, signed_attrs }
}

/// Whether `a` and `b` hold the same bytes.
fn same_bytes(a: &[u8], b: &[u8]) -> (same: bool)
    ensures
        same == (a@ == b@),
{
    if a.len() != b.len() {
        return false;
    }
    let mut i: usize = 0;
    while i < a.len()
        invariant
            a.len() == b.len(),
            i <= a.len(),
            forall|j: int| 0 <= j < i ==> a@[j] == b@[j],
        decreases a.len() - i,
    {
        if a[i] != b[i] {
            return false;
        }
        i += 1;
    }
    proof {
        assert(a@ =~= b@);
    }
    true
}

/// Whether two lists of data group numbers and offsets are the same.
fn same_offsets(a: &[(u8, usize)], b: &[(u8, usize)]) -> (same: bool)
    ensures
        same == (a@ == b@),
{
    if a.len() != b.len() {
        return false;
    }
    let mut i: usize = 0;
    while i < a.len()
        invariant
            a.len() == b.len(),
            i <= a.len(),
            forall|j: int| 0 <= j < i ==> a@[j] == b@[j],
        decreases a.len() - i,
    {
        if a[i].0 != b[i].0 || a[i].1 != b[i].1 {
            return false;
        }
        i += 1;
    }
    proof {
        assert(a@ =~= b@);
    }
    true
}

/// Two lists of two groups with the same numbers and contents have the same
/// DataGroupHashes, so the same Security Object content.
proof fn lemma_same_groups(a: Seq<DataGroup>, b: Seq<DataGroup>)
    requires
        a.len() == 2,
        b.len() == 2,
        a[0].number == b[0].number,
        a[0].content@ == b[0].content@,
        a[1].number == b[1].number,
        a[1].content@ == b[1].content@,
    ensures
        group_entry(a[0]) == group_entry(b[0]),
        group_entry(a[1]) == group_entry(b[1]),
        econtent_bytes(a) == econtent_bytes(b),
{
    assert(icao::group_entries(a) =~= icao::group_entries(b));
}

/// Whether `material` is the material of the document whose zone is `mrz`,
/// found by building that material again and comparing every part of it.
pub fn material_matches(mrz: &str, material: &Material) -> (ok: bool)
    ensures
        ok == (mrz.spec_bytes().len() <= 0xfffa && material.of_zone(mrz.spec_bytes())),
{
    if mrz.as_bytes().len() > 0xfffa {
        return false;
    }
    let expected = document_material(mrz);
    if material.groups.len() != 2 {
        return false;
    }
    proof {
        assert(expected.groups@.len() == 2);
    }
    let same = same_bytes(material.dg1.as_slice(), expected.dg1.as_slice())
        && material.groups[0].number == expected.groups[0].number
        && same_bytes(material.groups[0].content.as_slice(), expected.groups[0].content.as_slice())
        && material.groups[1].number == expected.groups[1].number
        && same_bytes(material.groups[1].content.as_slice(), expected.groups[1].content.as_slice())
        && same_bytes(
        material.security_object.econtent.as_slice(),
        expected.security_object.econtent.as_slice(),
    ) && material.security_object.oid_offset == expected.security_object.oid_offset
        && same_offsets(
        material.security_object.dg_offsets.as_slice(),
        expected.security_object.dg_offsets.as_slice(),
    ) && same_bytes(material.signed_attrs.bytes.as_slice(), expected.signed_attrs.bytes.as_slice())
        && material.signed_attrs.digest_offset == expected.signed_attrs.digest_offset;
    proof {
        let m = *material;
        let e = expected;
        let z = mrz.spec_bytes();
        if same {
            lemma_same_groups(m.groups@, e.groups@);
            assert(m.of_zone(z));
        }
        if m.of_zone(z) {
            lemma_same_groups(m.groups@, e.groups@);
            assert(m.security_object.dg_offsets@ =~= e.security_object.dg_offsets@) by {
                assert forall|i: int|
                    0 <= i < m.security_object.dg_offsets@.len() implies m.security_object.dg_offsets@[i]
                    == e.security_object.dg_offsets@[i] by {
                    let a = m.security_object.dg_offsets@[i];
                    let b = e.security_object.dg_offsets@[i];
                    assert(a.0 == m.groups@[i].number);
                    assert(b.0 == e.groups@[i].number);
                }
            }
            assert(same);
        }
    }
    same
}

fn copy_bytes(bytes: &[u8]) -> (out: Vec<u8>)
    ensures
        out@ == bytes@,
{
    let mut out: Vec<u8> = Vec::new();
    crate::der::append(&mut out, bytes);
    proof {
        assert(Seq::<u8>::empty() + bytes@ =~= bytes@);
    }
    out
}

// ---------------------------------------------------------------------------
// The Noir constants.
/// The buffer entries, sixteen to a line.
pub open spec fn hex_entries(value: Seq<u8>, width: nat) -> Seq<char>
    decreases width,
{
    if width == 0 {
        seq![]
    } else {
        let i = (width - 1) as nat;
        hex_entries(value, i) + (if i % 16 == 0 {
            "\n    "@
        } else {
            seq![]
        }) + seq!['0', 'x'] + hex_pair(padded_byte(value, i as int)) + seq![',', ' ']
    }
}

/// A byte array constant of `width` entries, zero past the value's end.
pub open spec fn emit_bytes_text(name: Seq<char>, value: Seq<u8>, width: nat) -> Seq<char> {
    "pub global "@ + name + ": [u8; "@ + decimal(width) + "] = ["@ + hex_entries(value, width)
        + "\n];\n\n"@
}

/// A `u32` constant.
pub open spec fn emit_u32_text(name: Seq<char>, value: nat) -> Seq<char> {
    "pub global "@ + name + ": u32 = "@ + decimal(value) + ";\n\n"@
}

/// One limb per line.
pub open spec fn limb_lines(values: Seq<u128>) -> Seq<char>
    decreases values.len(),
{
    if values.len() == 0 {
        seq![]
    } else {
        limb_lines(values.drop_last()) + "\n    "@ + decimal(values.last() as nat) + seq![',']
    }
}

/// A `u128` array constant.
pub open spec fn emit_limbs_text(name: Seq<char>, values: Seq<u128>) -> Seq<char> {
    "pub global "@ + name + ": [u128; "@ + decimal(values.len()) + "] = ["@ + limb_lines(values)
        + "\n];\n\n"@
}

/// Writes a byte array constant of `width` entries, zero past the value's
/// end.
pub fn emit_bytes(body: &mut String, name: &str, value: &[u8], width: usize)
    requires
        value.len() <= width,
    ensures
        final(body)@ == old(body)@ + emit_bytes_text(name@, value@, width as nat),
{
    push_str(body, "pub global ");
    push_str(body, name);
    push_str(body, ": [u8; ");
    push_decimal(body, width as u128);
    push_str(body, "] = [");
    let ghost start = body@;
    let mut index: usize = 0;
    while index < width
        invariant
            index <= width,
            value.len() <= width,
            body@ == start + hex_entries(value@, index as nat),
        decreases width - index,
    {
        if index % 16 == 0 {
            push_str(body, "\n    ");
        }
        let byte: u8 = if index < value.len() {
            value[index]
        } else {
            0
        };
        push_char(body, '0');
        push_char(body, 'x');
        push_hex_pair(body, byte);
        push_char(body, ',');
        push_char(body, ' ');
        index += 1;
        proof {
            assert(body@ =~= start + hex_entries(value@, index as nat));
        }
    }
    push_str(body, "\n];\n\n");
    proof {
        assert(body@ =~= old(body)@ + emit_bytes_text(name@, value@, width as nat));
    }
}

/// Writes a `u32` constant.
pub fn emit_u32(body: &mut String, name: &str, value: usize)
    ensures
        final(body)@ == old(body)@ + emit_u32_text(name@, value as nat),
{
    push_str(body, "pub global ");
    push_str(body, name);
    push_str(body, ": u32 = ");
    push_decimal(body, value as u128);
    push_str(body, ";\n\n");
    proof {
        assert(body@ =~= old(body)@ + emit_u32_text(name@, value as nat));
    }
}

/// Writes a `u128` array constant, one limb per line.
pub fn emit_limbs(body: &mut String, name: &str, value: &[u128])
    ensures
        final(body)@ == old(body)@ + emit_limbs_text(name@, value@),
{
    push_str(body, "pub global ");
    push_str(body, name);
    push_str(body, ": [u128; ");
    push_decimal(body, value.len() as u128);
    push_str(body, "] = [");
    let ghost start = body@;
    let mut index: usize = 0;
    while index < value.len()
        invariant
            index <= value.len(),
            body@ == start + limb_lines(value@.take(index as int)),
        decreases value.len() - index,
    {
        push_str(body, "\n    ");
        push_decimal(body, value[index]);
        push_char(body, ',');
        index += 1;
        proof {
            assert(value@.take(index as int).drop_last() =~= value@.take(index - 1));
            assert(body@ =~= start + limb_lines(value@.take(index as int)));
        }
    }
    push_str(body, "\n];\n\n");
    proof {
        assert(value@.take(index as int) =~= value@);
        assert(body@ =~= old(body)@ + emit_limbs_text(name@, value@));
    }
}

/// Writes a byte buffer witness entry of `width` entries.
pub fn toml_bytes(out: &mut String, name: &str, value: &[u8], width: usize)
    ensures
        final(out)@ == old(out)@ + bytes_text(name@, value@, width as nat),
{
    push_str(out, name);
    push_str(out, " = [");
    proof {
        reveal_strlit(" = [");
        assert(" = ["@ =~= crate::bundle::list_open());
    }
    let ghost start = out@;
    let mut index: usize = 0;
    while index < width
        invariant
            index <= width,
            out@ == start + crate::bundle::quoted_bytes(value@, index as nat),
        decreases width - index,
    {
        let byte: u8 = if index < value.len() {
            value[index]
        } else {
            0
        };
        push_quoted_decimal(out, byte as u128);
        index += 1;
        proof {
            assert(out@ =~= start + crate::bundle::quoted_bytes(value@, index as nat));
        }
    }
    push_char(out, ']');
    push_char(out, '\n');
    proof {
        assert(out@ =~= old(out)@ + bytes_text(name@, value@, width as nat));
    }
}

/// Writes a numeric witness entry.
pub fn toml_value(out: &mut String, name: &str, value: usize)
    ensures
        final(out)@ == old(out)@ + value_text(name@, decimal(value as nat)),
{
    let text = decimal_string(value as u128);
    crate::bundle::value(out, name, text.as_str());
}

// ---------------------------------------------------------------------------
// The documents.
/// The constant naming where data group `number` sits.
pub open spec fn offset_name(prefix: Seq<char>, number: u8) -> Seq<char> {
    prefix + "_DG"@ + decimal(number as nat) + "_OFFSET"@
}

/// One constant per data group, for where its entry sits.
pub open spec fn offset_lines(prefix: Seq<char>, offsets: Seq<(u8, usize)>) -> Seq<char>
    decreases offsets.len(),
{
    if offsets.len() == 0 {
        seq![]
    } else {
        offset_lines(prefix, offsets.drop_last()) + emit_u32_text(
            offset_name(prefix, offsets.last().0),
            offsets.last().1 as nat,
        )
    }
}

/// The Security Object content and its length.
pub open spec fn econtent_lines(prefix: Seq<char>, econtent: Seq<u8>) -> Seq<char> {
    emit_bytes_text(prefix + "_ECONTENT"@, econtent, ECONTENT_BUFFER as nat) + emit_u32_text(
        prefix + "_ECONTENT_LEN"@,
        econtent.len(),
    )
}

/// The signed attributes, their length and where the digest sits in them.
pub open spec fn signed_lines(prefix: Seq<char>, attributes: SignedAttributes) -> Seq<char> {
    emit_bytes_text(prefix + "_SIGNED_ATTRS"@, attributes.bytes@, SIGNED_ATTRS_BUFFER as nat)
        + emit_u32_text(prefix + "_SIGNED_ATTRS_LEN"@, attributes.bytes@.len()) + emit_u32_text(
        prefix + "_DIGEST_OFFSET"@,
        attributes.digest_offset as nat,
    )
}

/// The first `count` limbs of 120 bits of `value`.
pub open spec fn limbs_of(value: nat, count: nat) -> Seq<u128> {
    Seq::new(count, |i: int| limb_120(value, i as nat) as u128)
}

/// The modulus, the reduction parameter and a signature of an RSA key.
pub open spec fn rsa_lines(prefix: Seq<char>, key: RsaKey, signature: Seq<u128>) -> Seq<char> {
    emit_limbs_text(
        prefix + "_MODULUS_LIMBS"@,
        limbs_of(key.modulus@, key.size.limbs as nat),
    ) + emit_limbs_text(
        prefix + "_REDC_LIMBS"@,
        limbs_of(barrett(key.size.bits as nat, key.modulus@), key.size.limbs as nat),
    ) + emit_limbs_text(prefix + "_SIGNATURE_LIMBS"@, signature)
}

/// The key's modulus and reduction parameter fit its limbs.
pub open spec fn limbs_fit(key: RsaKey) -> bool {
    &&& key.wf()
    &&& key.modulus@ > 0
    &&& key.modulus@ < vstd::arithmetic::power2::pow2(120 * key.size.limbs as nat)
    &&& barrett(key.size.bits as nat, key.modulus@) < vstd::arithmetic::power2::pow2(
        120 * key.size.limbs as nat,
    )
}

fn push_offsets(body: &mut String, prefix: &str, offsets: &[(u8, usize)])
    ensures
        final(body)@ == old(body)@ + offset_lines(prefix@, offsets@),
{
    let ghost start = body@;
    let mut index: usize = 0;
    while index < offsets.len()
        invariant
            index <= offsets.len(),
            body@ == start + offset_lines(prefix@, offsets@.take(index as int)),
        decreases offsets.len() - index,
    {
        let (number, offset) = offsets[index];
        let mut name = joined(prefix, "_DG");
        push_decimal(&mut name, number as u128);
        push_str(&mut name, "_OFFSET");
        emit_u32(body, name.as_str(), offset);
        index += 1;
        proof {
            assert(offsets@.take(index as int).drop_last() =~= offsets@.take(index - 1));
            assert(body@ =~= start + offset_lines(prefix@, offsets@.take(index as int)));
        }
    }
    proof {
        assert(offsets@.take(index as int) =~= offsets@);
    }
}

fn push_econtent(body: &mut String, prefix: &str, econtent: &[u8])
    requires
        econtent.len() <= ECONTENT_BUFFER,
    ensures
        final(body)@ == old(body)@ + econtent_lines(prefix@, econtent@),
{
    emit_bytes(body, joined(prefix, "_ECONTENT").as_str(), econtent, ECONTENT_BUFFER);
    emit_u32(body, joined(prefix, "_ECONTENT_LEN").as_str(), econtent.len());
    proof {
        assert(body@ =~= old(body)@ + econtent_lines(prefix@, econtent@));
    }
}

fn push_signed(body: &mut String, prefix: &str, attributes: &SignedAttributes)
    requires
        attributes.bytes@.len() <= SIGNED_ATTRS_BUFFER,
    ensures
        final(body)@ == old(body)@ + signed_lines(prefix@, *attributes),
{
    emit_bytes(
        body,
        joined(prefix, "_SIGNED_ATTRS").as_str(),
        attributes.bytes.as_slice(),
        SIGNED_ATTRS_BUFFER,
    );
    emit_u32(body, joined(prefix, "_SIGNED_ATTRS_LEN").as_str(), attributes.bytes.len());
    emit_u32(body, joined(prefix, "_DIGEST_OFFSET").as_str(), attributes.digest_offset);
    proof {
        assert(body@ =~= old(body)@ + signed_lines(prefix@, *attributes));
    }
}

proof fn lemma_limbs_are(limbs: Seq<u128>, value: nat, count: nat)
    requires
        limbs.len() == count,
        forall|i: int| 0 <= i < count ==> limbs[i] as nat == limb_120(value, i as nat),
    ensures
        limbs == limbs_of(value, count),
{
    assert(limbs =~= limbs_of(value, count));
}

fn push_rsa(body: &mut String, prefix: &str, key: &RsaKey, signature: &[u128])
    requires
        limbs_fit(*key),
    ensures
        final(body)@ == old(body)@ + rsa_lines(prefix@, *key, signature@),
{
    let modulus = key.modulus_limbs();
    let redc = key.redc_limbs();
    proof {
        lemma_limbs_are(modulus@, key.modulus@, key.size.limbs as nat);
        lemma_limbs_are(
            redc@,
            barrett(key.size.bits as nat, key.modulus@),
            key.size.limbs as nat,
        );
    }
    emit_limbs(body, joined(prefix, "_MODULUS_LIMBS").as_str(), modulus.as_slice());
    emit_limbs(body, joined(prefix, "_REDC_LIMBS").as_str(), redc.as_slice());
    emit_limbs(body, joined(prefix, "_SIGNATURE_LIMBS").as_str(), signature);
    proof {
        assert(body@ =~= old(body)@ + rsa_lines(prefix@, *key, signature@));
    }
}

/// A document signed with an elliptic curve key, under its prefix.
pub open spec fn with_document(
    before: Seq<char>,
    document: Document,
    key: KeyPair,
    material: Material,
    signature: Signature,
) -> Seq<char> {
    let prefix = document.prefix@;
    let width = key.curve.scalar_bytes as nat;
    before + "// "@ + prefix + " document, signed with a generated P-256 Document Signer key.\n"@
        + emit_bytes_text(prefix + "_MRZ"@, document.mrz.spec_bytes(), document.mrz_len as nat)
        + emit_bytes_text(prefix + "_DG1"@, material.dg1@, DG1_BUFFER as nat) + emit_u32_text(
        prefix + "_DG1_LEN"@,
        material.dg1@.len(),
    ) + econtent_lines(prefix, material.security_object.econtent@) + emit_u32_text(
        prefix + "_OID_OFFSET"@,
        material.security_object.oid_offset as nat,
    ) + offset_lines(prefix, material.security_object.dg_offsets@) + signed_lines(
        prefix,
        material.signed_attrs,
    ) + emit_bytes_text(prefix + "_DSC_PUBKEY_X"@, key.public_x@, width) + emit_bytes_text(
        prefix + "_DSC_PUBKEY_Y"@,
        key.public_y@,
        width,
    ) + emit_bytes_text(prefix + "_SIGNATURE_R"@, signature.r@, width) + emit_bytes_text(
        prefix + "_SIGNATURE_S"@,
        signature.s@,
        width,
    ) + seq!['\n']
}

/// The buffers of a document's material hold what goes in them.
pub open spec fn material_fits(material: Material) -> bool {
    &&& material.dg1@.len() <= DG1_BUFFER
    &&& material.security_object.econtent@.len() <= ECONTENT_BUFFER
    &&& material.signed_attrs.bytes@.len() <= SIGNED_ATTRS_BUFFER
}

/// The key and the signature are no wider than `width`.
pub open spec fn ec_fits(key: KeyPair, signature: Signature, width: nat) -> bool {
    &&& key.public_x@.len() <= width
    &&& key.public_y@.len() <= width
    &&& signature.r@.len() <= width
    &&& signature.s@.len() <= width
}

/// Writes a document signed with a P-256 Document Signer key.
pub fn emit_document(
    body: &mut String,
    document: &Document,
    key: &KeyPair,
    material: &Material,
    signature: &Signature,
)
    requires
        document.mrz.spec_bytes().len() <= document.mrz_len,
        material.of_zone(document.mrz.spec_bytes()),
        material_fits(*material),
        ec_fits(*key, *signature, key.curve.scalar_bytes as nat),
    ensures
        final(body)@ == with_document(old(body)@, *document, *key, *material, *signature),
{
    let prefix = document.prefix;
    let width = key.curve.scalar_bytes;
    push_str(body, "// ");
    push_str(body, prefix);
    push_str(body, " document, signed with a generated P-256 Document Signer key.\n");
    emit_bytes(body, joined(prefix, "_MRZ").as_str(), document.mrz.as_bytes(), document.mrz_len);
    emit_bytes(body, joined(prefix, "_DG1").as_str(), material.dg1.as_slice(), DG1_BUFFER);
    emit_u32(body, joined(prefix, "_DG1_LEN").as_str(), material.dg1.len());
    push_econtent(body, prefix, material.security_object.econtent.as_slice());
    emit_u32(
        body,
        joined(prefix, "_OID_OFFSET").as_str(),
        material.security_object.oid_offset,
    );
    push_offsets(body, prefix, material.security_object.dg_offsets.as_slice());
    push_signed(body, prefix, &material.signed_attrs);
    emit_bytes(body, joined(prefix, "_DSC_PUBKEY_X").as_str(), key.public_x.as_slice(), width);
    emit_bytes(body, joined(prefix, "_DSC_PUBKEY_Y").as_str(), key.public_y.as_slice(), width);
    emit_bytes(body, joined(prefix, "_SIGNATURE_R").as_str(), signature.r.as_slice(), width);
    emit_bytes(body, joined(prefix, "_SIGNATURE_S").as_str(), signature.s.as_slice(), width);
    push_char(body, '\n');
}

/// The witness for the Passive Authentication circuit, so the whole
/// pipeline can be proved and verified outside the test harness.
pub open spec fn prover_toml_text(key: KeyPair, material: Material, signature: Signature) -> Seq<
    char,
> {
    let width = key.curve.scalar_bytes as nat;
    let econtent = material.security_object.econtent@;
    let attributes = material.signed_attrs;
    bytes_text("econtent"@, econtent, ECONTENT_BUFFER as nat) + value_text(
        "econtent_len"@,
        decimal(econtent.len()),
    ) + bytes_text("signed_attrs"@, attributes.bytes@, SIGNED_ATTRS_BUFFER as nat) + value_text(
        "signed_attrs_len"@,
        decimal(attributes.bytes@.len()),
    ) + value_text("digest_offset"@, decimal(attributes.digest_offset as nat)) + bytes_text(
        "pubkey_x"@,
        key.public_x@,
        width,
    ) + bytes_text("pubkey_y"@, key.public_y@, width) + bytes_text(
        "signature_r"@,
        signature.r@,
        width,
    ) + bytes_text("signature_s"@, signature.s@, width) + value_text("dsc_salt"@, decimal(7))
        + value_text("domain"@, decimal(42)) + value_text("context"@, decimal(99))
}

pub fn prover_toml(key: &KeyPair, material: &Material, signature: &Signature) -> (toml: String)
    ensures
        toml@ == prover_toml_text(*key, *material, *signature),
{
    let width = key.curve.scalar_bytes;
    let econtent = material.security_object.econtent.as_slice();
    let attributes = &material.signed_attrs;
    let mut toml = String::new();
    toml_bytes(&mut toml, "econtent", econtent, ECONTENT_BUFFER);
    toml_value(&mut toml, "econtent_len", econtent.len());
    toml_bytes(&mut toml, "signed_attrs", attributes.bytes.as_slice(), SIGNED_ATTRS_BUFFER);
    toml_value(&mut toml, "signed_attrs_len", attributes.bytes.len());
    toml_value(&mut toml, "digest_offset", attributes.digest_offset);
    toml_bytes(&mut toml, "pubkey_x", key.public_x.as_slice(), width);
    toml_bytes(&mut toml, "pubkey_y", key.public_y.as_slice(), width);
    toml_bytes(&mut toml, "signature_r", signature.r.as_slice(), width);
    toml_bytes(&mut toml, "signature_s", signature.s.as_slice(), width);
    toml_value(&mut toml, "dsc_salt", 7);
    toml_value(&mut toml, "domain", 42);
    toml_value(&mut toml, "context", 99);
    proof {
        assert(toml@ =~= prover_toml_text(*key, *material, *signature));
    }
    toml
}

/// A document signed with RSA, which is what most states use, with the
/// digest the signature covers.
pub open spec fn with_rsa_document(
    before: Seq<char>,
    key: RsaKey,
    material: Material,
    signature: Seq<u128>,
) -> Seq<char> {
    let prefix = "RSA"@;
    before + "// TD3 document signed with an RSA-2048 Document Signer key, with the\n"@
        + "// Barrett reduction parameter the bignum backend takes alongside a modulus.\n"@
        + emit_bytes_text("RSA_DG1"@, material.dg1@, DG1_BUFFER as nat) + emit_u32_text(
        "RSA_DG1_LEN"@,
        material.dg1@.len(),
    ) + econtent_lines(prefix, material.security_object.econtent@) + emit_u32_text(
        "RSA_OID_OFFSET"@,
        material.security_object.oid_offset as nat,
    ) + offset_lines(prefix, material.security_object.dg_offsets@) + signed_lines(
        prefix,
        material.signed_attrs,
    ) + emit_bytes_text(
        "RSA_DIGEST"@,
        sha256_digest(material.signed_attrs.bytes@),
        32,
    ) + rsa_lines(prefix, key, signature)
}

/// Writes the document signed with an RSA-2048 Document Signer key. The
/// same structures as the elliptic curve documents, so the only thing that
/// differs downstream is the signature check.
pub fn emit_rsa_document(
    body: &mut String,
    key: &RsaKey,
    material: &Material,
    signature: &[u128],
)
    requires
        material.of_zone(icao::MRZ_TD3.spec_bytes()),
        material_fits(*material),
        limbs_fit(*key),
        signature.len() == key.size.limbs,
    ensures
        final(body)@ == with_rsa_document(old(body)@, *key, *material, signature@),
{
    let prefix = "RSA";
    push_str(body, "// TD3 document signed with an RSA-2048 Document Signer key, with the\n");
    push_str(
        body,
        "// Barrett reduction parameter the bignum backend takes alongside a modulus.\n",
    );
    emit_bytes(body, "RSA_DG1", material.dg1.as_slice(), DG1_BUFFER);
    emit_u32(body, "RSA_DG1_LEN", material.dg1.len());
    push_econtent(body, prefix, material.security_object.econtent.as_slice());
    emit_u32(body, "RSA_OID_OFFSET", material.security_object.oid_offset);
    push_offsets(body, prefix, material.security_object.dg_offsets.as_slice());
    push_signed(body, prefix, &material.signed_attrs);
    let digest = sha256(material.signed_attrs.bytes.as_slice());
    emit_bytes(body, "RSA_DIGEST", digest.as_slice(), 32);
    push_rsa(body, prefix, key, signature);
}

/// A document signed with one elliptic curve of 48 byte scalars, under one
/// constant prefix.
pub open spec fn with_curve_document(
    before: Seq<char>,
    prefix: Seq<char>,
    description: Seq<char>,
    key: KeyPair,
    material: Material,
    signature: Signature,
) -> Seq<char> {
    before + "// The same TD3 document signed with a "@ + description + " Document Signer key.\n"@
        + econtent_lines(prefix, material.security_object.econtent@) + signed_lines(
        prefix,
        material.signed_attrs,
    ) + offset_lines(prefix, material.security_object.dg_offsets@) + emit_bytes_text(
        prefix + "_DSC_PUBKEY_X"@,
        key.public_x@,
        48,
    ) + emit_bytes_text(prefix + "_DSC_PUBKEY_Y"@, key.public_y@, 48) + emit_bytes_text(
        prefix + "_SIGNATURE_R"@,
        signature.r@,
        48,
    ) + emit_bytes_text(prefix + "_SIGNATURE_S"@, signature.s@, 48)
}

/// Writes the document signed with a wider curve. Its coordinates and
/// signature components are 48 bytes rather than 32, so every buffer widens
/// with the curve.
pub fn emit_curve_document(
    body: &mut String,
    prefix: &str,
    description: &str,
    key: &KeyPair,
    material: &Material,
    signature: &Signature,
)
    requires
        material.of_zone(icao::MRZ_TD3.spec_bytes()),
        material_fits(*material),
        ec_fits(*key, *signature, 48),
    ensures
        final(body)@ == with_curve_document(
            old(body)@,
            prefix@,
            description@,
            *key,
            *material,
            *signature,
        ),
{
    push_str(body, "// The same TD3 document signed with a ");
    push_str(body, description);
    push_str(body, " Document Signer key.\n");
    push_econtent(body, prefix, material.security_object.econtent.as_slice());
    push_signed(body, prefix, &material.signed_attrs);
    push_offsets(body, prefix, material.security_object.dg_offsets.as_slice());
    emit_bytes(body, joined(prefix, "_DSC_PUBKEY_X").as_str(), key.public_x.as_slice(), 48);
    emit_bytes(body, joined(prefix, "_DSC_PUBKEY_Y").as_str(), key.public_y.as_slice(), 48);
    emit_bytes(body, joined(prefix, "_SIGNATURE_R").as_str(), signature.r.as_slice(), 48);
    emit_bytes(body, joined(prefix, "_SIGNATURE_S").as_str(), signature.s.as_slice(), 48);
}

/// A document signed at one modulus size, under one constant prefix.
pub open spec fn with_rsa_size_document(
    before: Seq<char>,
    prefix: Seq<char>,
    description: Seq<char>,
    key: RsaKey,
    material: Material,
    signature: Seq<u128>,
) -> Seq<char> {
    before + "// The same TD3 document signed with an "@ + description + " Document Signer key.\n"@
        + econtent_lines(prefix, material.security_object.econtent@) + signed_lines(
        prefix,
        material.signed_attrs,
    ) + offset_lines(prefix, material.security_object.dg_offsets@) + rsa_lines(
        prefix,
        key,
        signature,
    )
}

/// Writes a document signed at one modulus size. Every derived value
/// widens with the modulus: the limbs, the Barrett parameter and the
/// signature.
pub fn emit_rsa_size_document(
    body: &mut String,
    prefix: &str,
    description: &str,
    key: &RsaKey,
    material: &Material,
    signature: &[u128],
)
    requires
        material.of_zone(icao::MRZ_TD3.spec_bytes()),
        material_fits(*material),
        limbs_fit(*key),
        signature.len() == key.size.limbs,
    ensures
        final(body)@ == with_rsa_size_document(
            old(body)@,
            prefix@,
            description@,
            *key,
            *material,
            signature@,
        ),
{
    push_str(body, "// The same TD3 document signed with an ");
    push_str(body, description);
    push_str(body, " Document Signer key.\n");
    push_econtent(body, prefix, material.security_object.econtent.as_slice());
    push_signed(body, prefix, &material.signed_attrs);
    push_offsets(body, prefix, material.security_object.dg_offsets.as_slice());
    push_rsa(body, prefix, key, signature);
}

/// A country signing key over a Document Signer certificate, which is the
/// link a trust chain has to check.
pub open spec fn with_certificate_chain(
    before: Seq<char>,
    signer: KeyPair,
    authority: RsaKey,
    certificate: Certificate,
    signature: Seq<u128>,
) -> Seq<char> {
    before + "// A Document Signer certificate signed by an RSA-2048 country signing key.\n"@
        + emit_bytes_text("CHAIN_TBS"@, certificate.tbs@, CERTIFICATE_BUFFER as nat)
        + emit_u32_text("CHAIN_TBS_LEN"@, certificate.tbs@.len()) + emit_u32_text(
        "CHAIN_PUBLIC_KEY_OFFSET"@,
        certificate.public_key_offset as nat,
    ) + emit_u32_text("CHAIN_NOT_BEFORE_OFFSET"@, certificate.not_before_offset as nat)
        + emit_u32_text("CHAIN_NOT_AFTER_OFFSET"@, certificate.not_after_offset as nat)
        + emit_bytes_text("CHAIN_DSC_PUBKEY_X"@, signer.public_x@, 32) + emit_bytes_text(
        "CHAIN_DSC_PUBKEY_Y"@,
        signer.public_y@,
        32,
    ) + rsa_lines("CHAIN_CSCA"@, authority, signature)
}

pub fn emit_certificate_chain(
    body: &mut String,
    signer: &KeyPair,
    authority: &RsaKey,
    certificate: &Certificate,
    signature: &[u128],
)
    requires
        certificate.tbs@.len() <= CERTIFICATE_BUFFER,
        signer.public_x@.len() <= 32,
        signer.public_y@.len() <= 32,
        limbs_fit(*authority),
        signature.len() == authority.size.limbs,
    ensures
        final(body)@ == with_certificate_chain(
            old(body)@,
            *signer,
            *authority,
            *certificate,
            signature@,
        ),
{
    push_str(
        body,
        "// A Document Signer certificate signed by an RSA-2048 country signing key.\n",
    );
    emit_bytes(body, "CHAIN_TBS", certificate.tbs.as_slice(), CERTIFICATE_BUFFER);
    emit_u32(body, "CHAIN_TBS_LEN", certificate.tbs.len());
    emit_u32(body, "CHAIN_PUBLIC_KEY_OFFSET", certificate.public_key_offset);
    emit_u32(body, "CHAIN_NOT_BEFORE_OFFSET", certificate.not_before_offset);
    emit_u32(body, "CHAIN_NOT_AFTER_OFFSET", certificate.not_after_offset);
    emit_bytes(body, "CHAIN_DSC_PUBKEY_X", signer.public_x.as_slice(), 32);
    emit_bytes(body, "CHAIN_DSC_PUBKEY_Y", signer.public_y.as_slice(), 32);
    push_rsa(body, "CHAIN_CSCA", authority, signature);
}

/// The challenge the chip answers: the session context, 99, as a 32 byte
/// big endian value.
pub open spec fn chip_challenge_bytes() -> Seq<u8> {
    Seq::new(32, |i: int| if i == 31 {
        99u8
    } else {
        0u8
    })
}

/// The challenge the chip signs. A real terminal draws one fresh per read;
/// the circuit requires it to equal the context the verifier published,
/// which is the same thing.
pub fn chip_challenge() -> (challenge: Vec<u8>)
    ensures
        challenge@ == chip_challenge_bytes(),
{
    let mut challenge = vec![0u8; 32];
    let ghost initial = challenge@;
    challenge.set(31, 99);
    proof {
        assert forall|i: int| 0 <= i < 32 implies challenge@[i] == chip_challenge_bytes()[i] by {
            if i != 31 {
                assert(cloned::<u8>(0u8, initial[i]));
            }
        }
        assert(challenge@ =~= chip_challenge_bytes());
    }
    challenge
}

/// The chip's key in DG15, where the key sits in DG15, and its answer to the
/// challenge.
pub open spec fn with_chip_key(before: Seq<char>, key: KeyPair, signature: Signature) -> Seq<char> {
    let spki = crate::cert::spki_bytes(key.public_x@, key.public_y@);
    let dg15 = icao::dg15_bytes(spki);
    before + "// The chip's Active Authentication key in DG15, and its answer to a\n"@
        + "// challenge, which a copy of the data could not produce.\n"@ + emit_bytes_text(
        "DG15"@,
        dg15,
        128,
    ) + emit_u32_text("DG15_LEN"@, dg15.len()) + emit_u32_text(
        "DG15_KEY_OFFSET"@,
        2 + crate::der::header_len_at(spki, 0) + 21,
    ) + emit_bytes_text("DG15_CHALLENGE"@, chip_challenge_bytes(), 32) + emit_bytes_text(
        "DG15_SIGNATURE_R"@,
        signature.r@,
        32,
    ) + emit_bytes_text("DG15_SIGNATURE_S"@, signature.s@, 32)
}

/// The SubjectPublicKeyInfo of a point of two coordinates of at most 32
/// bytes: a short header around the algorithm and the bit string.
proof fn lemma_small_spki(x: Seq<u8>, y: Seq<u8>)
    requires
        x.len() <= 32,
        y.len() <= 32,
    ensures
        crate::cert::spki_bytes(x, y).len() == 27 + x.len() + y.len(),
        crate::der::readable(crate::cert::spki_bytes(x, y), 0),
{
    let point = crate::cert::point_bits(x, y);
    assert(point.len() == 2 + x.len() + y.len());
    crate::der::lemma_short_tlv(crate::cert::TAG_BIT_STRING, point);
    let content = crate::cert::ec_algorithm() + crate::der::tlv_bytes(
        crate::cert::TAG_BIT_STRING,
        point,
    );
    crate::cert::lemma_ec_algorithm_len();
    crate::der::lemma_short_tlv(crate::der::TAG_SEQUENCE, content);
    crate::der::lemma_tlv_header(crate::der::TAG_SEQUENCE, content);
}

/// Writes the chip's own key pair, in DG15, with a signature over a
/// challenge. This is what tells a genuine chip from a copy of its data:
/// the private half never leaves the chip, so a copy cannot answer a
/// challenge the verifier chose.
pub fn emit_chip_key(body: &mut String, key: &KeyPair, signature: &Signature)
    requires
        ec_fits(*key, *signature, 32),
    ensures
        final(body)@ == with_chip_key(old(body)@, *key, *signature),
{
    let spki = crate::cert::subject_public_key_info(key.public_x.as_slice(), key.public_y.as_slice());
    proof {
        lemma_small_spki(key.public_x@, key.public_y@);
    }
    let dg15 = icao::build_dg15(spki.as_slice());
    proof {
        crate::der::lemma_short_tlv(icao::TAG_DG15, spki@);
    }
    // The key sits at its offset inside the SubjectPublicKeyInfo, which
    // itself sits after DG15's own two byte template header.
    let key_offset = 2 + crate::cert::public_key_offset_in_spki(spki.as_slice());
    let challenge = chip_challenge();
    push_str(body, "// The chip's Active Authentication key in DG15, and its answer to a\n");
    push_str(body, "// challenge, which a copy of the data could not produce.\n");
    emit_bytes(body, "DG15", dg15.as_slice(), 128);
    emit_u32(body, "DG15_LEN", dg15.len());
    emit_u32(body, "DG15_KEY_OFFSET", key_offset);
    emit_bytes(body, "DG15_CHALLENGE", challenge.as_slice(), 32);
    emit_bytes(body, "DG15_SIGNATURE_R", signature.r.as_slice(), 32);
    emit_bytes(body, "DG15_SIGNATURE_S", signature.s.as_slice(), 32);
}

// ---------------------------------------------------------------------------
// Laws: each constant holds what it is named for.
/// A byte array constant is whole lines.
pub broadcast proof fn lemma_bytes_constant_line(name: Seq<char>, value: Seq<u8>, width: nat)
    ensures
        #[trigger] whole_lines(emit_bytes_text(name, value, width)),
{
    reveal_strlit("\n];\n\n");
    let t = emit_bytes_text(name, value, width);
    assert(t[t.len() - 1] == '\n');
}

/// A `u32` constant is whole lines.
pub broadcast proof fn lemma_u32_constant_line(name: Seq<char>, value: nat)
    ensures
        #[trigger] whole_lines(emit_u32_text(name, value)),
{
    reveal_strlit(";\n\n");
    let t = emit_u32_text(name, value);
    assert(t[t.len() - 1] == '\n');
}

/// A `u128` array constant is whole lines.
pub broadcast proof fn lemma_limbs_constant_line(name: Seq<char>, values: Seq<u128>)
    ensures
        #[trigger] whole_lines(emit_limbs_text(name, values)),
{
    reveal_strlit("\n];\n\n");
    let t = emit_limbs_text(name, values);
    assert(t[t.len() - 1] == '\n');
}

/// The data group offset constants are whole lines.
pub proof fn lemma_offset_lines_whole(prefix: Seq<char>, offsets: Seq<(u8, usize)>)
    ensures
        whole_lines(offset_lines(prefix, offsets)),
    decreases offsets.len(),
{
    if offsets.len() > 0 {
        lemma_offset_lines_whole(prefix, offsets.drop_last());
        lemma_u32_constant_line(
            offset_name(prefix, offsets.last().0),
            offsets.last().1 as nat,
        );
    }
}

/// The constants of a document signed with an elliptic curve key each hold
/// what they are named for: under the document's prefix, its zone, its DG1
/// and length, the Security Object content and length, the algorithm OID's
/// offset, the signed attributes, their length and the digest offset, the
/// signer key's `x` and `y`, and the signature's `r` and `s`, each in the
/// buffer of its width.
pub proof fn lemma_document_names(
    before: Seq<char>,
    document: Document,
    key: KeyPair,
    material: Material,
    signature: Signature,
)
    requires
        whole_lines(before),
    ensures
        ({
            let w = with_document(before, document, key, material, signature);
            &&& has_line(
                w,
                emit_bytes_text(document.prefix@ + "_MRZ"@, document.mrz.spec_bytes(), document.mrz_len as nat),
            )
            &&& has_line(w, emit_bytes_text(document.prefix@ + "_DG1"@, material.dg1@, 128))
            &&& has_line(w, emit_u32_text(document.prefix@ + "_DG1_LEN"@, material.dg1@.len()))
            &&& has_line(
                w,
                emit_bytes_text(document.prefix@ + "_ECONTENT"@, material.security_object.econtent@, 512),
            )
            &&& has_line(
                w,
                emit_u32_text(document.prefix@ + "_ECONTENT_LEN"@, material.security_object.econtent@.len()),
            )
            &&& has_line(
                w,
                emit_u32_text(document.prefix@ + "_OID_OFFSET"@, material.security_object.oid_offset as nat),
            )
            &&& has_line(
                w,
                emit_bytes_text(document.prefix@ + "_SIGNED_ATTRS"@, material.signed_attrs.bytes@, 256),
            )
            &&& has_line(
                w,
                emit_u32_text(document.prefix@ + "_SIGNED_ATTRS_LEN"@, material.signed_attrs.bytes@.len()),
            )
            &&& has_line(
                w,
                emit_u32_text(document.prefix@ + "_DIGEST_OFFSET"@, material.signed_attrs.digest_offset as nat),
            )
            &&& has_line(
                w,
                emit_bytes_text(document.prefix@ + "_DSC_PUBKEY_X"@, key.public_x@, key.curve.scalar_bytes as nat),
            )
            &&& has_line(
                w,
                emit_bytes_text(document.prefix@ + "_DSC_PUBKEY_Y"@, key.public_y@, key.curve.scalar_bytes as nat),
            )
            &&& has_line(
                w,
                emit_bytes_text(document.prefix@ + "_SIGNATURE_R"@, signature.r@, key.curve.scalar_bytes as nat),
            )
            &&& has_line(
                w,
                emit_bytes_text(document.prefix@ + "_SIGNATURE_S"@, signature.s@, key.curve.scalar_bytes as nat),
            )
        }),
{
    broadcast use lemma_bytes_constant_line, lemma_u32_constant_line, lemma_limbs_constant_line,
        lemma_has_line_self, lemma_has_line_append, lemma_whole_append;
    reveal_strlit(" document, signed with a generated P-256 Document Signer key.\n");
    lemma_offset_lines_whole(document.prefix@, material.security_object.dg_offsets@);
}

/// The constants of the document signed with RSA each hold what they are
/// named for: DG1 and its length, the Security Object content and length, the
/// algorithm OID's offset, the signed attributes, their length, the digest
/// offset and their SHA-256, then the key's modulus and Barrett parameter as
/// limbs of 120 bits and the signature's limbs.
pub proof fn lemma_rsa_document_names(
    before: Seq<char>,
    key: RsaKey,
    material: Material,
    signature: Seq<u128>,
)
    requires
        whole_lines(before),
    ensures
        ({
            let w = with_rsa_document(before, key, material, signature);
            &&& has_line(w, emit_bytes_text("RSA_DG1"@, material.dg1@, 128))
            &&& has_line(w, emit_u32_text("RSA_DG1_LEN"@, material.dg1@.len()))
            &&& has_line(
                w,
                emit_bytes_text("RSA"@ + "_ECONTENT"@, material.security_object.econtent@, 512),
            )
            &&& has_line(
                w,
                emit_u32_text("RSA"@ + "_ECONTENT_LEN"@, material.security_object.econtent@.len()),
            )
            &&& has_line(
                w,
                emit_u32_text("RSA_OID_OFFSET"@, material.security_object.oid_offset as nat),
            )
            &&& has_line(
                w,
                emit_bytes_text("RSA"@ + "_SIGNED_ATTRS"@, material.signed_attrs.bytes@, 256),
            )
            &&& has_line(
                w,
                emit_u32_text("RSA"@ + "_SIGNED_ATTRS_LEN"@, material.signed_attrs.bytes@.len()),
            )
            &&& has_line(
                w,
                emit_u32_text("RSA"@ + "_DIGEST_OFFSET"@, material.signed_attrs.digest_offset as nat),
            )
            &&& has_line(
                w,
                emit_bytes_text("RSA_DIGEST"@, sha256_digest(material.signed_attrs.bytes@), 32),
            )
            &&& has_line(
                w,
                emit_limbs_text("RSA"@ + "_MODULUS_LIMBS"@, limbs_of(key.modulus@, key.size.limbs as nat)),
            )
            &&& has_line(
                w,
                emit_limbs_text("RSA"@ + "_REDC_LIMBS"@, limbs_of(barrett(key.size.bits as nat, key.modulus@), key.size.limbs as nat)),
            )
            &&& has_line(w, emit_limbs_text("RSA"@ + "_SIGNATURE_LIMBS"@, signature))
        }),
{
    broadcast use lemma_bytes_constant_line, lemma_u32_constant_line, lemma_limbs_constant_line,
        lemma_has_line_self, lemma_has_line_append, lemma_whole_append;
    reveal_strlit("// TD3 document signed with an RSA-2048 Document Signer key, with the\n");
    reveal_strlit("// Barrett reduction parameter the bignum backend takes alongside a modulus.\n");
    lemma_offset_lines_whole("RSA"@, material.security_object.dg_offsets@);
}

/// The constants of a document signed with a curve of 48 byte scalars each
/// hold what they are named for: under the prefix, the Security Object
/// content and length, the signed attributes, their length and the digest
/// offset, the signer key's `x` and `y` and the signature's `r` and `s`.
pub proof fn lemma_curve_document_names(
    before: Seq<char>,
    prefix: Seq<char>,
    description: Seq<char>,
    key: KeyPair,
    material: Material,
    signature: Signature,
)
    requires
        whole_lines(before),
    ensures
        ({
            let w = with_curve_document(before, prefix, description, key, material, signature);
            &&& has_line(
                w,
                emit_bytes_text(prefix + "_ECONTENT"@, material.security_object.econtent@, 512),
            )
            &&& has_line(
                w,
                emit_u32_text(prefix + "_ECONTENT_LEN"@, material.security_object.econtent@.len()),
            )
            &&& has_line(
                w,
                emit_bytes_text(prefix + "_SIGNED_ATTRS"@, material.signed_attrs.bytes@, 256),
            )
            &&& has_line(
                w,
                emit_u32_text(prefix + "_SIGNED_ATTRS_LEN"@, material.signed_attrs.bytes@.len()),
            )
            &&& has_line(
                w,
                emit_u32_text(prefix + "_DIGEST_OFFSET"@, material.signed_attrs.digest_offset as nat),
            )
            &&& has_line(w, emit_bytes_text(prefix + "_DSC_PUBKEY_X"@, key.public_x@, 48))
            &&& has_line(w, emit_bytes_text(prefix + "_DSC_PUBKEY_Y"@, key.public_y@, 48))
            &&& has_line(w, emit_bytes_text(prefix + "_SIGNATURE_R"@, signature.r@, 48))
            &&& has_line(w, emit_bytes_text(prefix + "_SIGNATURE_S"@, signature.s@, 48))
        }),
{
    broadcast use lemma_bytes_constant_line, lemma_u32_constant_line, lemma_limbs_constant_line,
        lemma_has_line_self, lemma_has_line_append, lemma_whole_append;
    reveal_strlit(" Document Signer key.\n");
    lemma_offset_lines_whole(prefix, material.security_object.dg_offsets@);
}

/// The constants of a document signed at one RSA modulus size each hold
/// what they are named for: under the prefix, the Security Object content and
/// length, the signed attributes, their length and the digest offset, then
/// the key's modulus and Barrett parameter as limbs and the signature's
/// limbs.
pub proof fn lemma_rsa_size_document_names(
    before: Seq<char>,
    prefix: Seq<char>,
    description: Seq<char>,
    key: RsaKey,
    material: Material,
    signature: Seq<u128>,
)
    requires
        whole_lines(before),
    ensures
        ({
            let w = with_rsa_size_document(before, prefix, description, key, material, signature);
            &&& has_line(
                w,
                emit_bytes_text(prefix + "_ECONTENT"@, material.security_object.econtent@, 512),
            )
            &&& has_line(
                w,
                emit_u32_text(prefix + "_ECONTENT_LEN"@, material.security_object.econtent@.len()),
            )
            &&& has_line(
                w,
                emit_bytes_text(prefix + "_SIGNED_ATTRS"@, material.signed_attrs.bytes@, 256),
            )
            &&& has_line(
                w,
                emit_u32_text(prefix + "_SIGNED_ATTRS_LEN"@, material.signed_attrs.bytes@.len()),
            )
            &&& has_line(
                w,
                emit_u32_text(prefix + "_DIGEST_OFFSET"@, material.signed_attrs.digest_offset as nat),
            )
            &&& has_line(
                w,
                emit_limbs_text(prefix + "_MODULUS_LIMBS"@, limbs_of(key.modulus@, key.size.limbs as nat)),
            )
            &&& has_line(
                w,
                emit_limbs_text(prefix + "_REDC_LIMBS"@, limbs_of(barrett(key.size.bits as nat, key.modulus@), key.size.limbs as nat)),
            )
            &&& has_line(w, emit_limbs_text(prefix + "_SIGNATURE_LIMBS"@, signature))
        }),
{
    broadcast use lemma_bytes_constant_line, lemma_u32_constant_line, lemma_limbs_constant_line,
        lemma_has_line_self, lemma_has_line_append, lemma_whole_append;
    reveal_strlit(" Document Signer key.\n");
    lemma_offset_lines_whole(prefix, material.security_object.dg_offsets@);
}

/// The constants of the certificate chain each hold what they are named
/// for: the certificate body and its length, the offsets of its key and its
/// two times, the signer key's `x` and `y`, then the country key's modulus and
/// Barrett parameter as limbs and the signature's limbs.
pub proof fn lemma_certificate_chain_names(
    before: Seq<char>,
    signer: KeyPair,
    authority: RsaKey,
    certificate: Certificate,
    signature: Seq<u128>,
)
    requires
        whole_lines(before),
    ensures
        ({
            let w = with_certificate_chain(before, signer, authority, certificate, signature);
            &&& has_line(w, emit_bytes_text("CHAIN_TBS"@, certificate.tbs@, 512))
            &&& has_line(w, emit_u32_text("CHAIN_TBS_LEN"@, certificate.tbs@.len()))
            &&& has_line(
                w,
                emit_u32_text("CHAIN_PUBLIC_KEY_OFFSET"@, certificate.public_key_offset as nat),
            )
            &&& has_line(
                w,
                emit_u32_text("CHAIN_NOT_BEFORE_OFFSET"@, certificate.not_before_offset as nat),
            )
            &&& has_line(
                w,
                emit_u32_text("CHAIN_NOT_AFTER_OFFSET"@, certificate.not_after_offset as nat),
            )
            &&& has_line(w, emit_bytes_text("CHAIN_DSC_PUBKEY_X"@, signer.public_x@, 32))
            &&& has_line(w, emit_bytes_text("CHAIN_DSC_PUBKEY_Y"@, signer.public_y@, 32))
            &&& has_line(
                w,
                emit_limbs_text("CHAIN_CSCA"@ + "_MODULUS_LIMBS"@, limbs_of(authority.modulus@, authority.size.limbs as nat)),
            )
            &&& has_line(
                w,
                emit_limbs_text("CHAIN_CSCA"@ + "_REDC_LIMBS"@, limbs_of(barrett(authority.size.bits as nat, authority.modulus@), authority.size.limbs as nat)),
            )
            &&& has_line(w, emit_limbs_text("CHAIN_CSCA"@ + "_SIGNATURE_LIMBS"@, signature))
        }),
{
    broadcast use lemma_bytes_constant_line, lemma_u32_constant_line, lemma_limbs_constant_line,
        lemma_has_line_self, lemma_has_line_append, lemma_whole_append;
    reveal_strlit("// A Document Signer certificate signed by an RSA-2048 country signing key.\n");
}

/// The chip's constants each hold what they are named for: DG15 over the
/// chip key's `x` and `y` and its length, where the key sits in it, the
/// challenge, and the answer's `r` and `s`.
pub proof fn lemma_chip_key_names(
    before: Seq<char>,
    key: KeyPair,
    signature: Signature,
)
    requires
        whole_lines(before),
    ensures
        ({
            let w = with_chip_key(before, key, signature);
            &&& has_line(
                w,
                emit_bytes_text("DG15"@, icao::dg15_bytes(crate::cert::spki_bytes(key.public_x@, key.public_y@)), 128),
            )
            &&& has_line(
                w,
                emit_u32_text("DG15_LEN"@, icao::dg15_bytes(crate::cert::spki_bytes(key.public_x@, key.public_y@)).len()),
            )
            &&& has_line(
                w,
                emit_u32_text("DG15_KEY_OFFSET"@, 2 + crate::der::header_len_at(crate::cert::spki_bytes(key.public_x@, key.public_y@), 0) + 21),
            )
            &&& has_line(w, emit_bytes_text("DG15_CHALLENGE"@, chip_challenge_bytes(), 32))
            &&& has_line(w, emit_bytes_text("DG15_SIGNATURE_R"@, signature.r@, 32))
            &&& has_line(w, emit_bytes_text("DG15_SIGNATURE_S"@, signature.s@, 32))
        }),
{
    broadcast use lemma_bytes_constant_line, lemma_u32_constant_line, lemma_limbs_constant_line,
        lemma_has_line_self, lemma_has_line_append, lemma_whole_append;
    reveal_strlit("// The chip's Active Authentication key in DG15, and its answer to a\n");
    reveal_strlit("// challenge, which a copy of the data could not produce.\n");
}

/// The Passive Authentication prover's inputs each hold what they are named
/// for: the Security Object content and its length, the signed attributes,
/// their length and the digest offset, the signer key's `x` and `y`, the
/// signature's `r` and `s`, and the salt 7, domain 42 and context 99.
pub proof fn lemma_prover_toml_names(key: KeyPair, material: Material, signature: Signature)
    ensures
        ({
            let w = prover_toml_text(key, material, signature);
            let width = key.curve.scalar_bytes as nat;
            &&& has_line(w, bytes_text("econtent"@, material.security_object.econtent@, 512))
            &&& has_line(
                w,
                value_text("econtent_len"@, decimal(material.security_object.econtent@.len())),
            )
            &&& has_line(w, bytes_text("signed_attrs"@, material.signed_attrs.bytes@, 256))
            &&& has_line(
                w,
                value_text("signed_attrs_len"@, decimal(material.signed_attrs.bytes@.len())),
            )
            &&& has_line(
                w,
                value_text("digest_offset"@, decimal(material.signed_attrs.digest_offset as nat)),
            )
            &&& has_line(w, bytes_text("pubkey_x"@, key.public_x@, width))
            &&& has_line(w, bytes_text("pubkey_y"@, key.public_y@, width))
            &&& has_line(w, bytes_text("signature_r"@, signature.r@, width))
            &&& has_line(w, bytes_text("signature_s"@, signature.s@, width))
            &&& has_line(w, value_text("dsc_salt"@, "7"@))
            &&& has_line(w, value_text("domain"@, "42"@))
            &&& has_line(w, value_text("context"@, "99"@))
        }),
{
    broadcast use crate::bundle::lemma_bytes_line, crate::bundle::lemma_value_line,
        lemma_has_line_self, lemma_has_line_append, lemma_whole_append;
    reveal_strlit("7");
    reveal_strlit("42");
    reveal_strlit("99");
    assert(decimal(7) =~= "7"@);
    assert(decimal(42) =~= "42"@) by {
        assert(decimal(4) =~= seq!['4']);
    }
    assert(decimal(99) =~= "99"@) by {
        assert(decimal(9) =~= seq!['9']);
    }
}

/// Each data group's offset constant, `<prefix>_DG<n>_OFFSET`, holds that
/// group's offset, for every group the list names.
pub proof fn lemma_offset_lines_names(prefix: Seq<char>, offsets: Seq<(u8, usize)>)
    ensures
        forall|i: int|
            0 <= i < offsets.len() ==> has_line(
                offset_lines(prefix, offsets),
                emit_u32_text(
                    prefix + "_DG"@ + decimal(#[trigger] offsets[i].0 as nat) + "_OFFSET"@,
                    offsets[i].1 as nat,
                ),
            ),
    decreases offsets.len(),
{
    broadcast use lemma_u32_constant_line, lemma_has_line_self, lemma_has_line_append,
        lemma_whole_append;
    if offsets.len() > 0 {
        let d = offsets.drop_last();
        lemma_offset_lines_names(prefix, d);
        lemma_offset_lines_whole(prefix, d);
        assert forall|i: int| 0 <= i < offsets.len() implies has_line(
            offset_lines(prefix, offsets),
            emit_u32_text(
                prefix + "_DG"@ + decimal(#[trigger] offsets[i].0 as nat) + "_OFFSET"@,
                offsets[i].1 as nat,
            ),
        ) by {
            if i < d.len() {
                assert(d[i] == offsets[i]);
            }
        }
    }
}

/// In the constants of a document signed with an elliptic curve key, each
/// data group offset constant holds that group's offset.
pub proof fn lemma_document_offsets(
    before: Seq<char>,
    document: Document,
    key: KeyPair,
    material: Material,
    signature: Signature,
)
    requires
        whole_lines(before),
    ensures
        forall|i: int|
            0 <= i < material.security_object.dg_offsets@.len() ==> has_line(
                with_document(before, document, key, material, signature),
                emit_u32_text(
                    document.prefix@ + "_DG"@ + decimal(
                        #[trigger] material.security_object.dg_offsets@[i].0 as nat,
                    ) + "_OFFSET"@,
                    material.security_object.dg_offsets@[i].1 as nat,
                ),
            ),
{
    broadcast use lemma_bytes_constant_line, lemma_u32_constant_line, lemma_limbs_constant_line,
        lemma_has_line_self, lemma_has_line_append, lemma_whole_append;
    lemma_offset_lines_names(document.prefix@, material.security_object.dg_offsets@);
    lemma_offset_lines_whole(document.prefix@, material.security_object.dg_offsets@);
    reveal_strlit(" document, signed with a generated P-256 Document Signer key.\n");
    assert forall|i: int| 0 <= i < material.security_object.dg_offsets@.len() implies has_line(
        with_document(before, document, key, material, signature),
        emit_u32_text(
            document.prefix@ + "_DG"@ + decimal(
                #[trigger] material.security_object.dg_offsets@[i].0 as nat,
            ) + "_OFFSET"@,
            material.security_object.dg_offsets@[i].1 as nat,
        ),
    ) by {}
}

/// In the constants of the document signed with RSA, each data group
/// offset constant holds that group's offset.
pub proof fn lemma_rsa_document_offsets(
    before: Seq<char>,
    key: RsaKey,
    material: Material,
    signature: Seq<u128>,
)
    requires
        whole_lines(before),
    ensures
        forall|i: int|
            0 <= i < material.security_object.dg_offsets@.len() ==> has_line(
                with_rsa_document(before, key, material, signature),
                emit_u32_text(
                    "RSA"@ + "_DG"@ + decimal(
                        #[trigger] material.security_object.dg_offsets@[i].0 as nat,
                    ) + "_OFFSET"@,
                    material.security_object.dg_offsets@[i].1 as nat,
                ),
            ),
{
    broadcast use lemma_bytes_constant_line, lemma_u32_constant_line, lemma_limbs_constant_line,
        lemma_has_line_self, lemma_has_line_append, lemma_whole_append;
    lemma_offset_lines_names("RSA"@, material.security_object.dg_offsets@);
    lemma_offset_lines_whole("RSA"@, material.security_object.dg_offsets@);
    reveal_strlit("// TD3 document signed with an RSA-2048 Document Signer key, with the\n");
    reveal_strlit("// Barrett reduction parameter the bignum backend takes alongside a modulus.\n");
    assert forall|i: int| 0 <= i < material.security_object.dg_offsets@.len() implies has_line(
        with_rsa_document(before, key, material, signature),
        emit_u32_text(
            "RSA"@ + "_DG"@ + decimal(
                #[trigger] material.security_object.dg_offsets@[i].0 as nat,
            ) + "_OFFSET"@,
            material.security_object.dg_offsets@[i].1 as nat,
        ),
    ) by {}
}

/// In the constants of a document signed with a wider curve, each data
/// group offset constant holds that group's offset.
pub proof fn lemma_curve_document_offsets(
    before: Seq<char>,
    prefix: Seq<char>,
    description: Seq<char>,
    key: KeyPair,
    material: Material,
    signature: Signature,
)
    requires
        whole_lines(before),
    ensures
        forall|i: int|
            0 <= i < material.security_object.dg_offsets@.len() ==> has_line(
                with_curve_document(before, prefix, description, key, material, signature),
                emit_u32_text(
                    prefix + "_DG"@ + decimal(
                        #[trigger] material.security_object.dg_offsets@[i].0 as nat,
                    ) + "_OFFSET"@,
                    material.security_object.dg_offsets@[i].1 as nat,
                ),
            ),
{
    broadcast use lemma_bytes_constant_line, lemma_u32_constant_line, lemma_limbs_constant_line,
        lemma_has_line_self, lemma_has_line_append, lemma_whole_append;
    lemma_offset_lines_names(prefix, material.security_object.dg_offsets@);
    lemma_offset_lines_whole(prefix, material.security_object.dg_offsets@);
    reveal_strlit(" Document Signer key.\n");
    assert forall|i: int| 0 <= i < material.security_object.dg_offsets@.len() implies has_line(
        with_curve_document(before, prefix, description, key, material, signature),
        emit_u32_text(
            prefix + "_DG"@ + decimal(
                #[trigger] material.security_object.dg_offsets@[i].0 as nat,
            ) + "_OFFSET"@,
            material.security_object.dg_offsets@[i].1 as nat,
        ),
    ) by {}
}

/// In the constants of a document signed at one RSA modulus size, each data
/// group offset constant holds that group's offset.
pub proof fn lemma_rsa_size_document_offsets(
    before: Seq<char>,
    prefix: Seq<char>,
    description: Seq<char>,
    key: RsaKey,
    material: Material,
    signature: Seq<u128>,
)
    requires
        whole_lines(before),
    ensures
        forall|i: int|
            0 <= i < material.security_object.dg_offsets@.len() ==> has_line(
                with_rsa_size_document(before, prefix, description, key, material, signature),
                emit_u32_text(
                    prefix + "_DG"@ + decimal(
                        #[trigger] material.security_object.dg_offsets@[i].0 as nat,
                    ) + "_OFFSET"@,
                    material.security_object.dg_offsets@[i].1 as nat,
                ),
            ),
{
    broadcast use lemma_bytes_constant_line, lemma_u32_constant_line, lemma_limbs_constant_line,
        lemma_has_line_self, lemma_has_line_append, lemma_whole_append;
    lemma_offset_lines_names(prefix, material.security_object.dg_offsets@);
    lemma_offset_lines_whole(prefix, material.security_object.dg_offsets@);
    reveal_strlit(" Document Signer key.\n");
    assert forall|i: int| 0 <= i < material.security_object.dg_offsets@.len() implies has_line(
        with_rsa_size_document(before, prefix, description, key, material, signature),
        emit_u32_text(
            prefix + "_DG"@ + decimal(
                #[trigger] material.security_object.dg_offsets@[i].0 as nat,
            ) + "_OFFSET"@,
            material.security_object.dg_offsets@[i].1 as nat,
        ),
    ) by {}
}

} // verus!
