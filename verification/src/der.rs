//! Minimal DER writer and reader. Only the definite length forms the
//! circuits accept are emitted: the short form below 0x80, and the long form
//! with one or two length bytes. A fixture can therefore never carry an
//! encoding the parser is not expected to handle.
use vstd::prelude::*;

verus! {

pub const TAG_INTEGER: u8 = 0x02;

pub const TAG_OCTET_STRING: u8 = 0x04;

pub const TAG_NULL: u8 = 0x05;

pub const TAG_OID: u8 = 0x06;

pub const TAG_SEQUENCE: u8 = 0x30;

pub const TAG_SET: u8 = 0x31;

/// The largest content length the writer emits: two length bytes.
pub const MAX_LENGTH: usize = 0xffff;

/// The length octets of a definite length, in the shortest form.
pub open spec fn length_bytes(len: nat) -> Seq<u8> {
    if len < 0x80 {
        seq![len as u8]
    } else if len <= 0xff {
        seq![0x81u8, len as u8]
    } else {
        seq![0x82u8, (len / 256) as u8, (len % 256) as u8]
    }
}

/// Tag, length and content.
pub open spec fn tlv_bytes(tag: u8, content: Seq<u8>) -> Seq<u8> {
    seq![tag] + length_bytes(content.len()) + content
}

/// The byte strings of `parts`, in order.
pub open spec fn views(parts: Seq<Vec<u8>>) -> Seq<Seq<u8>> {
    parts.map_values(|p: Vec<u8>| p@)
}

/// Byte strings laid end to end.
pub open spec fn concat(parts: Seq<Seq<u8>>) -> Seq<u8>
    decreases parts.len(),
{
    if parts.len() == 0 {
        Seq::empty()
    } else {
        concat(parts.drop_last()) + parts.last()
    }
}

/// How many header bytes a TLV at `offset` has: tag plus length octets.
pub open spec fn header_len_at(buf: Seq<u8>, offset: int) -> nat {
    let first = buf[offset + 1];
    if first < 0x80 {
        2
    } else if first == 0x81 {
        3
    } else {
        4
    }
}

/// The content length a TLV at `offset` declares.
pub open spec fn content_len_at(buf: Seq<u8>, offset: int) -> nat {
    let first = buf[offset + 1];
    if first < 0x80 {
        first as nat
    } else if first == 0x81 {
        buf[offset + 2] as nat
    } else {
        (buf[offset + 2] as nat) * 256 + (buf[offset + 3] as nat)
    }
}

/// A TLV the reader understands starts at `offset` and fits in `buf`.
pub open spec fn readable(buf: Seq<u8>, offset: int) -> bool {
    let first = buf[offset + 1];
    &&& 0 <= offset
    &&& offset + 2 <= buf.len()
    &&& (first < 0x80 || first == 0x81 || first == 0x82)
    &&& offset + header_len_at(buf, offset) + content_len_at(buf, offset) <= buf.len()
}

/// The definite length octets for `len`, shortest form first.
pub fn encode_length(len: usize) -> (out: Vec<u8>)
    requires
        len <= MAX_LENGTH,
    ensures
        out@ == length_bytes(len as nat),
{
    if len < 0x80 {
        let out = vec![len as u8];
        proof {
            assert(out@ =~= length_bytes(len as nat));
        }
        out
    } else if len <= 0xff {
        let out = vec![0x81, len as u8];
        proof {
            assert(out@ =~= length_bytes(len as nat));
        }
        out
    } else {
        proof {
            assert(len >> 8usize == len / 256) by (bit_vector);
            assert(len & 0xffusize == len % 256) by (bit_vector);
        }
        let out = vec![0x82, (len >> 8) as u8, (len & 0xff) as u8];
        proof {
            assert(out@ =~= length_bytes(len as nat));
        }
        out
    }
}

/// Appends `bytes` to `out`.
pub fn append(out: &mut Vec<u8>, bytes: &[u8])
    ensures
        final(out)@ == old(out)@ + bytes@,
{
    let ghost start = out@;
    let mut i: usize = 0;
    while i < bytes.len()
        invariant
            i <= bytes.len(),
            out@ == start + bytes@.subrange(0, i as int),
        decreases bytes.len() - i,
    {
        out.push(bytes[i]);
        i += 1;
        proof {
            assert(bytes@.subrange(0, i as int) =~= bytes@.subrange(0, i - 1).push(
                bytes@[i - 1],
            ));
        }
    }
    proof {
        assert(bytes@.subrange(0, bytes.len() as int) =~= bytes@);
    }
}

/// Tag, shortest length and content.
pub fn tlv(tag: u8, content: &[u8]) -> (out: Vec<u8>)
    requires
        content.len() <= MAX_LENGTH,
    ensures
        out@ == tlv_bytes(tag, content@),
{
    let mut out = vec![tag];
    let length = encode_length(content.len());
    append(&mut out, length.as_slice());
    append(&mut out, content);
    proof {
        assert(out@ =~= tlv_bytes(tag, content@));
    }
    out
}

/// Lays `parts` end to end.
fn concat_parts(parts: &[Vec<u8>]) -> (out: Vec<u8>)
    ensures
        out@ == concat(views(parts@)),
{
    let mut out: Vec<u8> = Vec::new();
    let mut i: usize = 0;
    proof {
        assert(views(parts@).take(0) =~= Seq::<Seq<u8>>::empty());
    }
    while i < parts.len()
        invariant
            i <= parts.len(),
            out@ == concat(views(parts@).take(i as int)),
        decreases parts.len() - i,
    {
        append(&mut out, parts[i].as_slice());
        proof {
            let v = views(parts@);
            assert(v.take(i + 1).drop_last() =~= v.take(i as int));
            assert(v.take(i + 1).last() == parts@[i as int]@);
        }
        i += 1;
    }
    proof {
        assert(views(parts@).take(parts.len() as int) =~= views(parts@));
    }
    out
}

/// A SEQUENCE holding `parts` in order.
pub fn sequence(parts: &[Vec<u8>]) -> (out: Vec<u8>)
    requires
        concat(views(parts@)).len() <= MAX_LENGTH,
    ensures
        out@ == tlv_bytes(TAG_SEQUENCE, concat(views(parts@))),
{
    let body = concat_parts(parts);
    tlv(TAG_SEQUENCE, body.as_slice())
}

/// A SET holding `parts` in the order given.
pub fn set(parts: &[Vec<u8>]) -> (out: Vec<u8>)
    requires
        concat(views(parts@)).len() <= MAX_LENGTH,
    ensures
        out@ == tlv_bytes(TAG_SET, concat(views(parts@))),
{
    let body = concat_parts(parts);
    tlv(TAG_SET, body.as_slice())
}

pub fn octet_string(content: &[u8]) -> (out: Vec<u8>)
    requires
        content.len() <= MAX_LENGTH,
    ensures
        out@ == tlv_bytes(TAG_OCTET_STRING, content@),
{
    tlv(TAG_OCTET_STRING, content)
}

/// An OBJECT IDENTIFIER from its already encoded arcs.
pub fn oid(encoded: &[u8]) -> (out: Vec<u8>)
    requires
        encoded.len() <= MAX_LENGTH,
    ensures
        out@ == tlv_bytes(TAG_OID, encoded@),
{
    tlv(TAG_OID, encoded)
}

pub fn null() -> (out: Vec<u8>)
    ensures
        out@ == seq![TAG_NULL, 0x00u8],
        out@ == tlv_bytes(TAG_NULL, Seq::empty()),
{
    let out = vec![TAG_NULL, 0x00];
    proof {
        assert(out@ =~= seq![TAG_NULL, 0x00u8]);
        assert(tlv_bytes(TAG_NULL, Seq::empty()) =~= seq![TAG_NULL, 0x00u8]);
    }
    out
}

/// DER INTEGER of a small non-negative value, which is all the fixtures need
/// (version numbers and data group numbers).
pub fn integer_u8(value: u8) -> (out: Vec<u8>)
    requires
        value < 0x80,
    ensures
        out@ == tlv_bytes(TAG_INTEGER, seq![value]),
{
    let content = [value];
    let out = tlv(TAG_INTEGER, &content);
    proof {
        assert(content@ =~= seq![value]);
    }
    out
}

/// The content of a DER INTEGER without the leading zero DER adds to keep a
/// positive number positive.
pub open spec fn unsigned_digits(content: Seq<u8>) -> Seq<u8> {
    if content.len() > 1 && content[0] == 0 {
        content.skip(1)
    } else {
        content
    }
}

/// Strips the leading zero DER adds to keep a big endian integer positive,
/// then left pads to `width` so the result is a fixed size scalar.
pub fn integer_to_fixed(content: &[u8], width: usize) -> (out: Vec<u8>)
    requires
        unsigned_digits(content@).len() <= width,
    ensures
        out@ == Seq::new((width - unsigned_digits(content@).len()) as nat, |i: int| 0u8)
            + unsigned_digits(content@),
        out@.len() == width,
{
    let skip: usize = if content.len() > 1 && content[0] == 0x00 {
        1
    } else {
        0
    };
    let trimmed = slice_from(content, skip);
    proof {
        assert(trimmed@ =~= unsigned_digits(content@));
    }
    let pad = width - trimmed.len();
    let mut out = vec![0u8; pad];
    proof {
        assert(out@ =~= Seq::new(pad as nat, |i: int| 0u8)) by {
            assert forall|i: int| 0 <= i < out@.len() implies out@[i] == 0u8 by {
                assert(cloned::<u8>(0u8, out@[i]));
            }
        }
    }
    append(&mut out, trimmed);
    out
}

/// `bytes` from `start` on.
fn slice_from(bytes: &[u8], start: usize) -> (out: &[u8])
    requires
        start <= bytes.len(),
    ensures
        out@ == bytes@.skip(start as int),
{
    let out = &bytes[start..bytes.len()];
    proof {
        assert(out@ =~= bytes@.skip(start as int));
    }
    out
}

/// One TLV read out of a buffer.
pub struct Tlv<'a> {
    pub tag: u8,
    pub content: &'a [u8],
    pub total_len: usize,
    pub header_len: usize,
}

/// Reads one TLV at `offset`, used to walk signatures and certificates
/// produced by openssl.
pub fn read(buf: &[u8], offset: usize) -> (t: Tlv<'_>)
    requires
        readable(buf@, offset as int),
    ensures
        t.tag == buf@[offset as int],
        t.header_len == header_len_at(buf@, offset as int),
        t.total_len == header_len_at(buf@, offset as int) + content_len_at(buf@, offset as int),
        t.content@ == buf@.subrange(
            offset + header_len_at(buf@, offset as int),
            offset + header_len_at(buf@, offset as int) + content_len_at(buf@, offset as int),
        ),
{
    let tag = buf[offset];
    let first = buf[offset + 1];
    let len: usize;
    let header_len: usize;
    if first < 0x80 {
        len = first as usize;
        header_len = 2;
    } else if first == 0x81 {
        len = buf[offset + 2] as usize;
        header_len = 3;
    } else {
        len = ((buf[offset + 2] as usize) << 8) | buf[offset + 3] as usize;
        header_len = 4;
        proof {
            let hi = buf[offset + 2];
            let lo = buf[offset + 3];
            assert((((hi as usize) << 8usize) | lo as usize) == (hi as usize) * 256 + (lo as usize))
                by (bit_vector);
        }
    }
    let start = offset + header_len;
    Tlv {
        tag,
        content: &buf[start..start + len],
        total_len: header_len + len,
        header_len,
    }
}

/// What `tlv` writes, `read` reads back: the tag, the content, and the
/// lengths, wherever the encoding sits in a larger buffer.
pub proof fn lemma_read_back(tag: u8, content: Seq<u8>, before: Seq<u8>, after: Seq<u8>)
    requires
        content.len() <= MAX_LENGTH,
    ensures
        ({
            let buf = before + tlv_bytes(tag, content) + after;
            let offset = before.len() as int;
            &&& readable(buf, offset)
            &&& buf[offset] == tag
            &&& header_len_at(buf, offset) == 1 + length_bytes(content.len()).len()
            &&& content_len_at(buf, offset) == content.len()
            &&& buf.subrange(
                offset + header_len_at(buf, offset),
                offset + header_len_at(buf, offset) + content_len_at(buf, offset),
            ) == content
        }),
{
    let buf = before + tlv_bytes(tag, content) + after;
    let offset = before.len() as int;
    let l = length_bytes(content.len());
    assert(buf =~= before + seq![tag] + l + content + after);
    assert(buf[offset] == tag);
    assert(buf[offset + 1] == l[0]);
    if content.len() >= 0x80 {
        assert(buf[offset + 2] == l[1]);
        if content.len() > 0xff {
            assert(buf[offset + 3] == l[2]);
        }
    }
    let h = header_len_at(buf, offset);
    assert(h == 1 + l.len());
    assert(content_len_at(buf, offset) == content.len());
    assert(buf.subrange(offset + h, offset + h + content.len()) =~= content);
}

/// Where part `k` begins inside the concatenation of `parts`.
pub open spec fn part_start(parts: Seq<Seq<u8>>, k: int) -> nat {
    concat(parts.take(k)).len()
}

/// The concatenation splits at any part boundary.
pub proof fn lemma_concat_split(parts: Seq<Seq<u8>>, k: int)
    requires
        0 <= k <= parts.len(),
    ensures
        concat(parts) == concat(parts.take(k)) + concat(parts.skip(k)),
    decreases parts.len(),
{
    if k == parts.len() {
        assert(parts.take(k) =~= parts);
        assert(parts.skip(k) =~= Seq::<Seq<u8>>::empty());
        assert(concat(parts) + Seq::<u8>::empty() =~= concat(parts));
    } else {
        let d = parts.drop_last();
        lemma_concat_split(d, k);
        assert(d.take(k) =~= parts.take(k));
        assert(parts.skip(k).drop_last() =~= d.skip(k));
        assert(parts.skip(k).last() == parts.last());
        assert(concat(parts) =~= concat(parts.take(k)) + concat(parts.skip(k)));
    }
}

/// A single part.
pub proof fn lemma_concat_one(p: Seq<u8>)
    ensures
        concat(seq![p]) == p,
{
    let one = seq![p];
    assert(one.drop_last() =~= Seq::<Seq<u8>>::empty());
    assert(concat(Seq::<Seq<u8>>::empty()) == Seq::<u8>::empty());
    assert(one.last() == p);
    assert(concat(one) == concat(one.drop_last()) + one.last());
    assert(Seq::<u8>::empty() + p =~= p);
}

/// Part `k` sits at `part_start(parts, k)`.
pub proof fn lemma_concat_part(parts: Seq<Seq<u8>>, k: int)
    requires
        0 <= k < parts.len(),
    ensures
        part_start(parts, k) + parts[k].len() <= concat(parts).len(),
        concat(parts).subrange(
            part_start(parts, k) as int,
            (part_start(parts, k) + parts[k].len()) as int,
        ) == parts[k],
        part_start(parts, k + 1) == part_start(parts, k) + parts[k].len(),
{
    lemma_concat_split(parts, k);
    let rest = parts.skip(k);
    lemma_concat_split(rest, 1);
    assert(rest.take(1) =~= seq![parts[k]]);
    lemma_concat_one(parts[k]);
    assert(parts.take(k + 1).drop_last() =~= parts.take(k));
    assert(parts.take(k + 1).last() == parts[k]);
    let c = concat(parts);
    let s = part_start(parts, k) as int;
    assert(c.subrange(s, s + parts[k].len()) =~= parts[k]);
}

/// Two parts laid end to end.
pub proof fn lemma_concat_pair(a: Seq<u8>, b: Seq<u8>)
    ensures
        concat(seq![a, b]) == a + b,
{
    assert(seq![a, b].drop_last() =~= seq![a]);
    lemma_concat_one(a);
}

/// The byte strings of a slice of two vectors.
pub proof fn lemma_views_pair(parts: Seq<Vec<u8>>)
    requires
        parts.len() == 2,
    ensures
        concat(views(parts)) == parts[0]@ + parts[1]@,
{
    assert(views(parts) =~= seq![parts[0]@, parts[1]@]);
    lemma_concat_pair(parts[0]@, parts[1]@);
}

/// The byte string of a slice of one vector.
pub proof fn lemma_views_one(parts: Seq<Vec<u8>>)
    requires
        parts.len() == 1,
    ensures
        concat(views(parts)) == parts[0]@,
{
    assert(views(parts) =~= seq![parts[0]@]);
    lemma_concat_one(parts[0]@);
}

/// The header of an encoding `tlv` wrote is its tag and length octets.
pub proof fn lemma_tlv_header(tag: u8, content: Seq<u8>)
    requires
        content.len() <= MAX_LENGTH,
    ensures
        ({
            let t = tlv_bytes(tag, content);
            &&& readable(t, 0)
            &&& header_len_at(t, 0) == 1 + length_bytes(content.len()).len()
            &&& content_len_at(t, 0) == content.len()
            &&& t.len() == header_len_at(t, 0) + content.len()
            &&& t.subrange(header_len_at(t, 0) as int, t.len() as int) == content
        }),
{
    lemma_read_back(tag, content, Seq::empty(), Seq::empty());
    let t = tlv_bytes(tag, content);
    assert(Seq::<u8>::empty() + t + Seq::<u8>::empty() =~= t);
}

/// A range of a range.
pub proof fn lemma_nested(s: Seq<u8>, a: int, b: int, c: int, d: int)
    requires
        0 <= a <= b <= s.len(),
        0 <= c <= d <= b - a,
    ensures
        s.subrange(a, b).subrange(c, d) == s.subrange(a + c, a + d),
{
    assert(s.subrange(a, b).subrange(c, d) =~= s.subrange(a + c, a + d));
}

/// The tag and short length of a small encoding, then its content.
pub proof fn lemma_short_tlv(tag: u8, content: Seq<u8>)
    requires
        content.len() < 0x80,
    ensures
        tlv_bytes(tag, content) == seq![tag, content.len() as u8] + content,
{
    assert(tlv_bytes(tag, content) =~= seq![tag, content.len() as u8] + content);
}


/// Three parts laid end to end.
pub proof fn lemma_views_triple(parts: Seq<Vec<u8>>)
    requires
        parts.len() == 3,
    ensures
        concat(views(parts)) == parts[0]@ + parts[1]@ + parts[2]@,
{
    let a = parts[0]@;
    let b = parts[1]@;
    let c = parts[2]@;
    assert(views(parts) =~= seq![a, b, c]);
    assert(seq![a, b, c].drop_last() =~= seq![a, b]);
    lemma_concat_pair(a, b);
}

/// Parts of one width start at multiples of it.
pub proof fn lemma_uniform_starts(parts: Seq<Seq<u8>>, width: nat, k: int)
    requires
        0 <= k <= parts.len(),
        forall|i: int| 0 <= i < parts.len() ==> #[trigger] parts[i].len() == width,
    ensures
        part_start(parts, k) == width * k,
    decreases k,
{
    if k == 0 {
        assert(parts.take(0) =~= Seq::<Seq<u8>>::empty());
    } else {
        lemma_uniform_starts(parts, width, k - 1);
        lemma_concat_part(parts, k - 1);
        assert(width * (k - 1) + width == width * k) by (nonlinear_arith);
    }
}

/// Parts of one width laid end to end.
pub proof fn lemma_uniform_parts(parts: Seq<Seq<u8>>, width: nat)
    requires
        forall|i: int| 0 <= i < parts.len() ==> #[trigger] parts[i].len() == width,
    ensures
        concat(parts).len() == width * parts.len(),
        forall|k: int| 0 <= k <= parts.len() ==> #[trigger] part_start(parts, k) == width * k,
{
    assert forall|k: int| 0 <= k <= parts.len() implies #[trigger] part_start(parts, k) == width
        * k by {
        lemma_uniform_starts(parts, width, k);
    }
    lemma_uniform_starts(parts, width, parts.len() as int);
    assert(parts.take(parts.len() as int) =~= parts);
}

} // verus!
