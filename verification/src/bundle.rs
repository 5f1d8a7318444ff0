//! The witnesses that prove a whole document, circuit by circuit, and the
//! reading of what each circuit returns.
//!
//! Each circuit is executed in chain order and its outputs are written into
//! the next one's witness, which is how a bundle comes to describe one
//! document rather than several. Running the circuits is the caller's work;
//! what goes into each witness and what is read back out is decided here.
use crate::cert::Certificate;
use crate::lines::{blocks_text, has_line, lemma_has_block, whole_lines};
use crate::text::{
    joined, chars_of, decimal, hex_pair, push_hex_pair, decimal_string, find, find_chars, push_char,
    push_quoted, push_quoted_decimal, push_str, quoted, split_tokens, string_views, sub_chars,
    tokens, unsigned_value,
};
use vstd::prelude::*;
use vstd::string::*;

verus! {

pub const ECONTENT_BUFFER: usize = 512;

pub const SIGNED_ATTRS_BUFFER: usize = 256;

pub const DG1_BUFFER: usize = 128;

/// The width of a certificate body in the chain circuit's witness.
pub const TBS_BUFFER: usize = 512;

pub const DSC_SALT: &'static str = "7";

pub const SESSION_SALT: &'static str = "123456789";

pub const TODAY: &'static str = "20260725";

/// The birth date field, which a range proof turns into an age check.
pub const BIRTH_DATE_FIELD: &'static str = "5";

pub const NATIONALITY_FIELD: &'static str = "4";

pub const ISSUING_STATE_FIELD: &'static str = "2";

pub const DOCUMENT_NUMBER_FIELD: &'static str = "3";

/// The most recent birth date the age check accepts.
pub const BIRTH_DATE_CUTOFF: &'static str = "20080725";

/// The machine readable zone layout of a passport, as the opening tool
/// numbers the layouts.
pub const PASSPORT_LAYOUT: &'static str = "3";

/// Fifteen other Doc 9303 country codes, so the membership set the verifier
/// publishes is a real list rather than one entry. The specimen state UTO
/// and the codes for holders without a nationality are the standard's own.
pub const OTHER_COUNTRIES: [&'static str; 15] = [
    "UTO",
    "VNM",
    "DEU",
    "FRA",
    "GBR",
    "USA",
    "JPN",
    "KOR",
    "SGP",
    "THA",
    "IDN",
    "MYS",
    "PHL",
    "XXA",
    "D<<",
];

/// Where the holder's nationality sits in the membership list, and the
/// depth of the tree the membership predicate is built for.
pub const SET_INDEX: usize = 5;

pub const SET_DEPTH: usize = 8;

/// How many other signer keys the registry holds, where the document's
/// signer sits among them, and the depth of the registry tree.
pub const REGISTRY_OTHERS: usize = 3;

pub const REGISTRY_INDEX: usize = 2;

pub const REGISTRY_DEPTH: usize = 16;

/// Where the signing country's key sits in the master list, after one other
/// country's, and the depth of the master list tree.
pub const LIST_INDEX: usize = 1;

pub const LIST_DEPTH: usize = 10;

/// What a bundle run leaves behind: where the proofs went and the values
/// that tie them to one another.
pub struct Bundle {
    pub directory: std::path::PathBuf,
    pub econtent_binding: String,
    pub dg_binding: String,
    pub commitment: String,
    pub secret_binding: String,
    pub registry_root: String,
    pub nullifier: String,
}

// ---------------------------------------------------------------------------
// The witness format: one `name = ...` line per input.
/// ` = [`
pub open spec fn list_open() -> Seq<char> {
    seq![' ', '=', ' ', '[']
}

/// `]` and the end of the line.
pub open spec fn list_close() -> Seq<char> {
    seq![']', '\n']
}

/// The byte a buffer of fixed width holds at `i`: the value's own, or zero
/// past its end.
pub open spec fn padded_byte(value: Seq<u8>, i: int) -> u8 {
    if 0 <= i < value.len() {
        value[i]
    } else {
        0
    }
}

/// The first `width` buffer bytes, each quoted in decimal.
pub open spec fn quoted_bytes(value: Seq<u8>, width: nat) -> Seq<char>
    decreases width,
{
    if width == 0 {
        seq![]
    } else {
        quoted_bytes(value, (width - 1) as nat) + quoted(
            decimal(padded_byte(value, width - 1) as nat),
        )
    }
}

/// A byte buffer of `width` entries, zero past the value's end.
pub open spec fn bytes_text(name: Seq<char>, value: Seq<u8>, width: nat) -> Seq<char> {
    name + list_open() + quoted_bytes(value, width) + list_close()
}

/// Every value quoted, in order.
pub open spec fn quoted_all(values: Seq<Seq<char>>) -> Seq<char>
    decreases values.len(),
{
    if values.len() == 0 {
        seq![]
    } else {
        quoted_all(values.drop_last()) + quoted(values.last())
    }
}

/// An array of values.
pub open spec fn array_text(name: Seq<char>, values: Seq<Seq<char>>) -> Seq<char> {
    name + list_open() + quoted_all(values) + list_close()
}

/// One value.
pub open spec fn value_text(name: Seq<char>, value: Seq<char>) -> Seq<char> {
    name + seq![' ', '=', ' ', '"'] + value + seq!['"', '\n']
}

/// Limbs in decimal.
pub open spec fn limb_decimals(values: Seq<u128>) -> Seq<Seq<char>> {
    values.map_values(|v: u128| decimal(v as nat))
}

/// An array of limbs, each in decimal.
pub open spec fn limbs_text(name: Seq<char>, values: Seq<u128>) -> Seq<char> {
    array_text(name, limb_decimals(values))
}

fn push_list_open(out: &mut String)
    ensures
        final(out)@ == old(out)@ + list_open(),
{
    push_char(out, ' ');
    push_char(out, '=');
    push_char(out, ' ');
    push_char(out, '[');
    proof {
        assert(final(out)@ =~= old(out)@ + list_open());
    }
}

fn push_list_close(out: &mut String)
    ensures
        final(out)@ == old(out)@ + list_close(),
{
    push_char(out, ']');
    push_char(out, '\n');
    proof {
        assert(final(out)@ =~= old(out)@ + list_close());
    }
}

/// Writes a byte buffer of `width` entries; past the value's end the
/// entries are zero.
pub fn bytes(out: &mut String, name: &str, value: &[u8], width: usize)
    requires
        value.len() <= width,
    ensures
        final(out)@ == old(out)@ + bytes_text(name@, value@, width as nat),
{
    push_str(out, name);
    push_list_open(out);
    let ghost start = out@;
    let mut index: usize = 0;
    while index < width
        invariant
            index <= width,
            value.len() <= width,
            out@ == start + quoted_bytes(value@, index as nat),
        decreases width - index,
    {
        let byte: u8 = if index < value.len() {
            value[index]
        } else {
            0
        };
        push_quoted_decimal(out, byte as u128);
        index += 1;
        proof {
            assert(out@ =~= start + quoted_bytes(value@, index as nat));
        }
    }
    push_list_close(out);
    proof {
        assert(out@ =~= old(out)@ + bytes_text(name@, value@, width as nat));
    }
}

/// Writes an array of values.
pub fn array(out: &mut String, name: &str, values: &[String])
    ensures
        final(out)@ == old(out)@ + array_text(name@, string_views(values@)),
{
    push_str(out, name);
    push_list_open(out);
    let ghost start = out@;
    let mut index: usize = 0;
    while index < values.len()
        invariant
            index <= values.len(),
            out@ == start + quoted_all(string_views(values@.take(index as int))),
        decreases values.len() - index,
    {
        push_quoted(out, values[index].as_str());
        index += 1;
        proof {
            let taken = string_views(values@.take(index as int));
            assert(taken.drop_last() =~= string_views(values@.take(index - 1)));
            assert(out@ =~= start + quoted_all(taken));
        }
    }
    push_list_close(out);
    proof {
        assert(values@.take(index as int) =~= values@);
        assert(out@ =~= old(out)@ + array_text(name@, string_views(values@)));
    }
}

/// Writes one value.
pub fn value(out: &mut String, name: &str, value: &str)
    ensures
        final(out)@ == old(out)@ + value_text(name@, value@),
{
    push_str(out, name);
    push_char(out, ' ');
    push_char(out, '=');
    push_char(out, ' ');
    push_char(out, '"');
    push_str(out, value);
    push_char(out, '"');
    push_char(out, '\n');
    proof {
        assert(final(out)@ =~= old(out)@ + value_text(name@, value@));
    }
}

/// Writes limbs the way the bignum witnesses take them: an array of
/// decimal numbers.
pub fn limbs(out: &mut String, name: &str, values: &[u128])
    ensures
        final(out)@ == old(out)@ + limbs_text(name@, values@),
{
    push_str(out, name);
    push_list_open(out);
    let ghost start = out@;
    let mut index: usize = 0;
    while index < values.len()
        invariant
            index <= values.len(),
            out@ == start + quoted_all(limb_decimals(values@.take(index as int))),
        decreases values.len() - index,
    {
        push_quoted_decimal(out, values[index]);
        index += 1;
        proof {
            let taken = limb_decimals(values@.take(index as int));
            assert(taken.drop_last() =~= limb_decimals(values@.take(index - 1)));
            assert(out@ =~= start + quoted_all(taken));
        }
    }
    push_list_close(out);
    proof {
        assert(values@.take(index as int) =~= values@);
        assert(out@ =~= old(out)@ + limbs_text(name@, values@));
    }
}

// ---------------------------------------------------------------------------
// Reading what nargo prints.
/// Where the line holding position `i` starts.
pub open spec fn line_start(s: Seq<char>, i: int) -> int
    decreases i,
{
    if i <= 0 {
        0
    } else if s[i - 1] == '\n' {
        i
    } else {
        line_start(s, i - 1)
    }
}

/// Where the line holding position `i` ends, its line break excluded.
pub open spec fn line_end(s: Seq<char>, i: int) -> int
    decreases s.len() - i,
{
    if i >= s.len() {
        s.len() as int
    } else if s[i] == '\n' {
        i
    } else {
        line_end(s, i + 1)
    }
}

/// nargo either prints its outputs or says the witness was solved.
pub open spec fn accounted(text: Seq<char>) -> bool {
    find(text, "Circuit output"@) is Some || find(text, "successfully solved"@) is Some
}

/// The outputs nargo printed: the separated values after `Circuit output:`
/// on the first line that mentions the circuit's output, or none when no
/// line does.
pub open spec fn outputs_of(text: Seq<char>) -> Seq<Seq<char>> {
    match find(text, "Circuit output"@) {
        None => seq![],
        Some(i) => {
            let line = text.subrange(line_start(text, i), line_end(text, i));
            let body = match find(line, "Circuit output:"@) {
                Some(j) => line.skip(j + "Circuit output:"@.len()),
                None => line,
            };
            tokens(body)
        },
    }
}

proof fn lemma_line_bounds(s: Seq<char>, i: int)
    requires
        0 <= i <= s.len(),
    ensures
        0 <= line_start(s, i) <= i,
        i <= line_end(s, i) <= s.len(),
    decreases s.len() - i,
{
    lemma_line_start(s, i);
    if i < s.len() && s[i] != '\n' {
        lemma_line_bounds(s, i + 1);
    }
}

proof fn lemma_line_start(s: Seq<char>, i: int)
    requires
        0 <= i <= s.len(),
    ensures
        0 <= line_start(s, i) <= i,
    decreases i,
{
    if i > 0 && s[i - 1] != '\n' {
        lemma_line_start(s, i - 1);
    }
}

/// Whether nargo's output says what became of the witness: printed outputs
/// or a solved witness.
pub fn accounts_for(text: &str) -> (ok: bool)
    ensures
        ok == accounted(text@),
{
    let chars = chars_of(text);
    let marker = chars_of("Circuit output");
    let solved = chars_of("successfully solved");
    find_chars(&chars, &marker, 0).is_some() || find_chars(&chars, &solved, 0).is_some()
}

/// nargo prints the outputs of a solved circuit on one line, as a tuple with
/// nested arrays. Field elements come out in hex and integers in decimal, so
/// this tokenizes rather than looking for one shape. A circuit that only
/// asserts returns nothing and prints no output line.
pub fn parse_outputs(text: &str) -> (outputs: Vec<String>)
    requires
        accounted(text@),
    ensures
        string_views(outputs@) == outputs_of(text@),
{
    let chars = chars_of(text);
    let marker = chars_of("Circuit output");
    let found = find_chars(&chars, &marker, 0);
    let at = match found {
        None => {
            return Vec::new();
        },
        Some(at) => at,
    };
    proof {
        crate::text::lemma_find_from(chars@, marker@, 0);
        lemma_line_bounds(chars@, at as int);
    }
    let mut start: usize = at;
    while start > 0 && chars[start - 1] != '\n'
        invariant
            start <= at <= chars.len(),
            line_start(chars@, start as int) == line_start(chars@, at as int),
        decreases start,
    {
        start -= 1;
    }
    let mut end: usize = at;
    while end < chars.len() && chars[end] != '\n'
        invariant
            at <= end <= chars.len(),
            line_end(chars@, end as int) == line_end(chars@, at as int),
        decreases chars.len() - end,
    {
        end += 1;
    }
    let line = sub_chars(&chars, start, end);
    let label = chars_of("Circuit output:");
    let body = match find_chars(&line, &label, 0) {
        Some(j) => {
            proof {
                crate::text::lemma_find_from(line@, label@, 0);
            }
            sub_chars(&line, j + label.len(), line.len())
        },
        None => line,
    };
    proof {
        assert(body@ =~= match find(line@, "Circuit output:"@) {
            Some(j) => line@.skip(j + "Circuit output:"@.len()),
            None => line@,
        });
    }
    split_tokens(&body)
}

/// The line a package manifest names its package with.
pub open spec fn package_declaration(package: Seq<char>) -> Seq<char> {
    "name = \""@ + package + seq!['"']
}

/// Whether a package manifest declares the package `package`.
pub fn declares_package(manifest: &str, package: &str) -> (declares: bool)
    ensures
        declares == (find(manifest@, package_declaration(package@)) is Some),
{
    let mut declaration = chars_of("name = \"");
    let name = chars_of(package);
    let mut i: usize = 0;
    let ghost start = declaration@;
    while i < name.len()
        invariant
            i <= name.len(),
            declaration@ == start + name@.take(i as int),
        decreases name.len() - i,
    {
        declaration.push(name[i]);
        i += 1;
        proof {
            assert(declaration@ =~= start + name@.take(i as int));
        }
    }
    declaration.push('"');
    proof {
        assert(name@.take(i as int) =~= name@);
        assert(declaration@ =~= package_declaration(package@));
    }
    find_chars(&chars_of(manifest), &declaration, 0).is_some()
}

/// A numeric output as nargo prints it (hex behind `0x`) or as a constant
/// states it (decimal), read as a `u64`.
pub open spec fn numeric_value(s: Seq<char>) -> Option<nat> {
    if s.len() >= 2 && s[0] == '0' && s[1] == 'x' {
        unsigned_value(s.skip(2), 16, u64::MAX as nat)
    } else {
        unsigned_value(s, 10, u64::MAX as nat)
    }
}

/// What a witness states in decimal, `numeric` reads back: a value written
/// into a witness and the same value read from a circuit's output compare
/// equal.
pub proof fn lemma_numeric_reads_decimal(n: nat)
    requires
        n <= u64::MAX,
    ensures
        numeric_value(decimal(n)) == Some(n),
{
    crate::text::lemma_decimal_reads_back(n);
    crate::text::lemma_decimal_parses_back(n, u64::MAX as nat);
    if decimal(n).len() >= 2 {
        assert(crate::text::is_decimal_digit(decimal(n)[1]));
    }
}

/// Reads a value nargo may have printed in hex or that a constant states in
/// decimal; `None` when it is neither or does not fit.
pub fn read_numeric(text: &str) -> (n: Option<u64>)
    ensures
        n matches Some(v) ==> numeric_value(text@) == Some(v as nat),
        n is None ==> numeric_value(text@) is None,
{
    let chars = chars_of(text);
    let parsed = if chars.len() >= 2 && chars[0] == '0' && chars[1] == 'x' {
        let digits = sub_chars(&chars, 2, chars.len());
        proof {
            assert(digits@ =~= chars@.skip(2));
        }
        crate::text::parse_unsigned(&digits, 16, u64::MAX as u128)
    } else {
        crate::text::parse_unsigned(&chars, 10, u64::MAX as u128)
    };
    match parsed {
        Some(v) => Some(v as u64),
        None => None,
    }
}

/// Reads a value nargo may have printed in hex or that a constant states in
/// decimal, for comparing the two.
pub fn numeric(text: &str) -> (n: u64)
    requires
        numeric_value(text@) is Some,
    ensures
        numeric_value(text@) == Some(n as nat),
{
    match read_numeric(text) {
        Some(v) => v,
        None => 0,
    }
}

/// A three letter country code packed the way any byte field shorter than
/// one element is packed: big endian, remaining elements zero.
pub open spec fn packed_country_entries(code: Seq<u8>) -> Seq<Seq<char>> {
    seq![
        decimal((code[0] * 65536 + code[1] * 256 + code[2]) as nat),
        seq!['0'],
        seq!['0'],
        seq!['0'],
    ]
}

/// Packs a three letter country code for the verifier's own list.
pub fn packed_country(code: &str) -> (entries: Vec<String>)
    requires
        code.spec_bytes().len() == 3,
    ensures
        string_views(entries@) == packed_country_entries(code.spec_bytes()),
{
    let bytes = code.as_bytes();
    let packed: u32 = (bytes[0] as u32) * 65536 + (bytes[1] as u32) * 256 + bytes[2] as u32;
    let mut entries: Vec<String> = Vec::new();
    entries.push(decimal_string(packed as u128));
    entries.push(decimal_string(0));
    entries.push(decimal_string(0));
    entries.push(decimal_string(0));
    proof {
        assert(string_views(entries@) =~= packed_country_entries(code.spec_bytes()));
    }
    entries
}

// ---------------------------------------------------------------------------
// Values that come from files and other circuits.
/// Bytes as lower case hexadecimal, two digits each.
pub open spec fn hex_digits(bytes: Seq<u8>) -> Seq<char>
    decreases bytes.len(),
{
    if bytes.len() == 0 {
        seq![]
    } else {
        hex_digits(bytes.drop_last()) + hex_pair(bytes.last())
    }
}

/// The `k`th whole 32 byte field element of `data`, as `0x` and hex.
pub open spec fn field_element(data: Seq<u8>, k: int) -> Seq<char> {
    seq!['0', 'x'] + hex_digits(data.subrange(32 * k, 32 * k + 32))
}

/// Every whole 32 byte field element of `data`, in order.
pub open spec fn field_element_strings(data: Seq<u8>) -> Seq<Seq<char>> {
    Seq::new(data.len() / 32, |k: int| field_element(data, k))
}

/// Reads data made of whole 32 byte field elements, as a verification key
/// or a proof from the backend is, into one hex value per element.
pub fn field_element_values(data: &[u8]) -> (values: Vec<String>)
    requires
        data.len() % 32 == 0,
    ensures
        string_views(values@) == field_element_strings(data@),
{
    let mut values: Vec<String> = Vec::new();
    let count = data.len() / 32;
    let mut k: usize = 0;
    while k < count
        invariant
            count == data.len() / 32,
            k <= count,
            string_views(values@) == field_element_strings(data@).take(k as int),
        decreases count - k,
    {
        let mut element = String::new();
        push_char(&mut element, '0');
        push_char(&mut element, 'x');
        let mut i: usize = 0;
        while i < 32
            invariant
                k < count,
                count == data.len() / 32,
                i <= 32,
                element@ == seq!['0', 'x'] + hex_digits(
                    data@.subrange(32 * k as int, 32 * k + i as int),
                ),
            decreases 32 - i,
        {
            proof {
                assert(32 * k + i < data.len()) by (nonlinear_arith)
                    requires
                        k < count,
                        count == data.len() / 32,
                        i < 32,
                ;
            }
            push_hex_pair(&mut element, data[32 * k + i]);
            proof {
                let piece = data@.subrange(32 * k as int, 32 * k + i + 1);
                assert(piece.drop_last() =~= data@.subrange(32 * k as int, 32 * k + i as int));
                assert(element@ =~= seq!['0', 'x'] + hex_digits(piece));
            }
            i += 1;
        }
        proof {
            assert(element@ == field_element(data@, k as int));
            assert(field_element_strings(data@).take(k + 1) =~= field_element_strings(data@).take(
                k as int,
            ).push(field_element(data@, k as int)));
        }
        let ghost before = values@;
        values.push(element);
        proof {
            assert(string_views(values@) =~= string_views(before).push(element@));
        }
        k += 1;
    }
    proof {
        assert(field_element_strings(data@).take(k as int) =~= field_element_strings(data@));
    }
    values
}

/// Writes whole 32 byte field elements as a witness array, which is how a
/// verification key or a proof enters the registration witness.
pub fn field_elements(witness: &mut String, name: &str, data: &[u8])
    requires
        data.len() % 32 == 0,
    ensures
        final(witness)@ == old(witness)@ + array_text(name@, field_element_strings(data@)),
{
    let values = field_element_values(data);
    array(witness, name, values.as_slice());
}

/// Copies of `v[from..to]`.
pub fn strings_between(v: &[String], from: usize, to: usize) -> (out: Vec<String>)
    requires
        from <= to <= v.len(),
    ensures
        string_views(out@) == string_views(v@.subrange(from as int, to as int)),
{
    let mut out: Vec<String> = Vec::new();
    let mut i: usize = from;
    while i < to
        invariant
            from <= i <= to <= v.len(),
            string_views(out@) == string_views(v@.subrange(from as int, i as int)),
        decreases to - i,
    {
        out.push(v[i].clone());
        proof {
            assert(string_views(v@.subrange(from as int, i + 1)) =~= string_views(
                v@.subrange(from as int, i as int),
            ).push(v@[i as int]@));
            assert(string_views(out@) =~= string_views(v@.subrange(from as int, i as int)).push(
                v@[i as int]@,
            ));
        }
        i += 1;
    }
    out
}

/// Puts `leaf` among `leaves` at `index`, the ones from there on moving up
/// one place.
pub fn place_leaf(leaves: &mut Vec<String>, index: usize, leaf: String)
    requires
        index <= old(leaves).len(),
    ensures
        string_views(final(leaves)@) == string_views(old(leaves)@).insert(index as int, leaf@),
{
    leaves.insert(index, leaf);
    proof {
        assert(string_views(leaves@) =~= string_views(old(leaves)@).insert(index as int, leaf@));
    }
}

/// The leaves of a tree of sixteen, the given ones first and `0`, the
/// empty leaf, after them.
pub open spec fn padded_leaves(leaves: Seq<Seq<char>>) -> Seq<Seq<char>> {
    leaves + Seq::new((16 - leaves.len()) as nat, |i: int| seq!['0'])
}

/// The witness of the tool that builds a tree and a path in it.
pub open spec fn tree_witness_text(leaves: Seq<Seq<char>>, index: nat, depth: nat) -> Seq<char> {
    array_text("leaves"@, padded_leaves(leaves)) + value_text("index"@, decimal(index))
        + value_text("depth"@, decimal(depth))
}

/// The witness for a tree over the leaves given, with the path to the leaf
/// at `index` cut to `depth` levels. Unused slots stay zero, which is the
/// empty leaf of the padding convention, so a partly filled tree is the
/// same construction as a full one.
pub fn tree_witness(leaves: &[String], index: usize, depth: usize) -> (witness: String)
    requires
        leaves.len() <= 16,
        index < leaves.len(),
    ensures
        witness@ == tree_witness_text(string_views(leaves@), index as nat, depth as nat),
{
    let mut padded: Vec<String> = strings_between(leaves, 0, leaves.len());
    proof {
        assert(leaves@.subrange(0, leaves@.len() as int) =~= leaves@);
        assert(string_views(padded@).len() == padded@.len());
        assert(string_views(leaves@).len() == leaves@.len());
        assert(string_views(padded@) =~= string_views(leaves@) + Seq::new(
            (padded.len() - leaves.len()) as nat,
            |i: int| seq!['0'],
        ));
    }
    while padded.len() < 16
        invariant
            leaves.len() <= padded.len() <= 16,
            string_views(padded@) == string_views(leaves@) + Seq::new(
                (padded.len() - leaves.len()) as nat,
                |i: int| seq!['0'],
            ),
        decreases 16 - padded.len(),
    {
        let zero = decimal_string(0);
        let ghost before = padded@;
        padded.push(zero);
        proof {
            assert(zero@ =~= seq!['0']);
            assert(string_views(padded@) =~= string_views(before).push(zero@));
            assert(string_views(padded@) =~= string_views(leaves@) + Seq::new(
                (padded.len() - leaves.len()) as nat,
                |i: int| seq!['0'],
            ));
        }
    }
    let mut witness = String::new();
    array(&mut witness, "leaves", padded.as_slice());
    value(&mut witness, "index", decimal_string(index as u128).as_str());
    value(&mut witness, "depth", decimal_string(depth as u128).as_str());
    proof {
        assert(witness@ =~= tree_witness_text(
            string_views(leaves@),
            index as nat,
            depth as nat,
        ));
    }
    witness
}

/// The root and the first `depth` siblings out of what the tree tool
/// returns: a root and sixteen sibling levels.
pub fn tree_path(output: &[String], depth: usize) -> (path: (String, Vec<String>))
    requires
        output.len() == 17,
        depth <= 16,
    ensures
        path.0@ == output@[0]@,
        string_views(path.1@) == string_views(output@.subrange(1, depth + 1)),
{
    (output[0].clone(), strings_between(output, 1, depth + 1))
}

// ---------------------------------------------------------------------------
// The witness of each circuit in the chain.
/// The opening tool's witness for one field of DG1.
pub open spec fn opening_witness_text(dg1: Seq<u8>, field_id: Seq<char>, domain: Seq<char>) -> Seq<
    char,
> {
    bytes_text("dg1"@, dg1, DG1_BUFFER as nat) + value_text("dg1_len"@, decimal(dg1.len()))
        + value_text("session_salt"@, SESSION_SALT@) + value_text("domain"@, domain) + value_text(
        "current_yyyymmdd"@,
        TODAY@,
    ) + value_text("field_id"@, field_id) + value_text("layout"@, PASSPORT_LAYOUT@)
}

/// The witness for the opening of one field, from the tool that shares the
/// attribute circuit's derivation. The bundle proves a passport.
pub fn opening_witness(dg1: &[u8], field_id: &str, domain: &str) -> (witness: String)
    requires
        dg1.len() <= DG1_BUFFER,
    ensures
        witness@ == opening_witness_text(dg1@, field_id@, domain@),
{
    let mut w = String::new();
    bytes(&mut w, "dg1", dg1, DG1_BUFFER);
    value(&mut w, "dg1_len", decimal_string(dg1.len() as u128).as_str());
    value(&mut w, "session_salt", SESSION_SALT);
    value(&mut w, "domain", domain);
    value(&mut w, "current_yyyymmdd", TODAY);
    value(&mut w, "field_id", field_id);
    value(&mut w, "layout", PASSPORT_LAYOUT);
    proof {
        assert(w@ =~= opening_witness_text(dg1@, field_id@, domain@));
    }
    w
}


/// The Passive Authentication circuit's witness: the issuing state signed
/// this document.
pub open spec fn sod_witness_text(
    econtent: Seq<u8>,
    signed_attrs: Seq<u8>,
    digest_offset: nat,
    pubkey_x: Seq<u8>,
    pubkey_y: Seq<u8>,
    signature_r: Seq<u8>,
    signature_s: Seq<u8>,
    domain: Seq<char>,
    context: Seq<char>,
) -> Seq<char> {
    bytes_text("econtent"@, econtent, ECONTENT_BUFFER as nat) + value_text(
        "econtent_len"@,
        decimal(econtent.len()),
    ) + bytes_text("signed_attrs"@, signed_attrs, SIGNED_ATTRS_BUFFER as nat) + value_text(
        "signed_attrs_len"@,
        decimal(signed_attrs.len()),
    ) + value_text("digest_offset"@, decimal(digest_offset)) + bytes_text(
        "pubkey_x"@,
        pubkey_x,
        32,
    ) + bytes_text("pubkey_y"@, pubkey_y, 32) + bytes_text("signature_r"@, signature_r, 32)
        + bytes_text("signature_s"@, signature_s, 32) + value_text("dsc_salt"@, DSC_SALT@)
        + value_text("domain"@, domain) + value_text("context"@, context)
}

pub fn sod_witness(
    econtent: &[u8],
    signed_attrs: &[u8],
    digest_offset: usize,
    pubkey_x: &[u8],
    pubkey_y: &[u8],
    signature_r: &[u8],
    signature_s: &[u8],
    domain: &str,
    context: &str,
) -> (witness: String)
    requires
        econtent.len() <= ECONTENT_BUFFER,
        signed_attrs.len() <= SIGNED_ATTRS_BUFFER,
        pubkey_x.len() <= 32,
        pubkey_y.len() <= 32,
        signature_r.len() <= 32,
        signature_s.len() <= 32,
    ensures
        witness@ == sod_witness_text(
            econtent@,
            signed_attrs@,
            digest_offset as nat,
            pubkey_x@,
            pubkey_y@,
            signature_r@,
            signature_s@,
            domain@,
            context@,
        ),
{
    let mut w = String::new();
    bytes(&mut w, "econtent", econtent, ECONTENT_BUFFER);
    value(&mut w, "econtent_len", decimal_string(econtent.len() as u128).as_str());
    bytes(&mut w, "signed_attrs", signed_attrs, SIGNED_ATTRS_BUFFER);
    value(&mut w, "signed_attrs_len", decimal_string(signed_attrs.len() as u128).as_str());
    value(&mut w, "digest_offset", decimal_string(digest_offset as u128).as_str());
    bytes(&mut w, "pubkey_x", pubkey_x, 32);
    bytes(&mut w, "pubkey_y", pubkey_y, 32);
    bytes(&mut w, "signature_r", signature_r, 32);
    bytes(&mut w, "signature_s", signature_s, 32);
    value(&mut w, "dsc_salt", DSC_SALT);
    value(&mut w, "domain", domain);
    value(&mut w, "context", context);
    proof {
        assert(w@ =~= sod_witness_text(
            econtent@,
            signed_attrs@,
            digest_offset as nat,
            pubkey_x@,
            pubkey_y@,
            signature_r@,
            signature_s@,
            domain@,
            context@,
        ));
    }
    w
}

/// The data group circuit's witness: the signed object commits to DG1.
pub open spec fn dg_extract_witness_text(
    econtent: Seq<u8>,
    oid_offset: nat,
    dg_offset: nat,
    econtent_binding: Seq<char>,
    domain: Seq<char>,
    context: Seq<char>,
) -> Seq<char> {
    bytes_text("econtent"@, econtent, ECONTENT_BUFFER as nat) + value_text(
        "econtent_len"@,
        decimal(econtent.len()),
    ) + value_text("oid_offset"@, decimal(oid_offset)) + value_text(
        "dg_offset"@,
        decimal(dg_offset),
    ) + value_text("dg_number"@, seq!['1']) + value_text("econtent_binding"@, econtent_binding)
        + value_text("domain"@, domain) + value_text("context"@, context)
}

pub fn dg_extract_witness(
    econtent: &[u8],
    oid_offset: usize,
    dg_offset: usize,
    econtent_binding: &str,
    domain: &str,
    context: &str,
) -> (witness: String)
    requires
        econtent.len() <= ECONTENT_BUFFER,
    ensures
        witness@ == dg_extract_witness_text(
            econtent@,
            oid_offset as nat,
            dg_offset as nat,
            econtent_binding@,
            domain@,
            context@,
        ),
{
    let mut w = String::new();
    bytes(&mut w, "econtent", econtent, ECONTENT_BUFFER);
    value(&mut w, "econtent_len", decimal_string(econtent.len() as u128).as_str());
    value(&mut w, "oid_offset", decimal_string(oid_offset as u128).as_str());
    value(&mut w, "dg_offset", decimal_string(dg_offset as u128).as_str());
    value(&mut w, "dg_number", decimal_string(1).as_str());
    value(&mut w, "econtent_binding", econtent_binding);
    value(&mut w, "domain", domain);
    value(&mut w, "context", context);
    proof {
        assert(decimal(1) =~= seq!['1']);
        assert(w@ =~= dg_extract_witness_text(
            econtent@,
            oid_offset as nat,
            dg_offset as nat,
            econtent_binding@,
            domain@,
            context@,
        ));
    }
    w
}

/// The attribute circuit's witness: the fields of DG1, committed.
pub open spec fn attributes_witness_text(
    dg1: Seq<u8>,
    dg_binding: Seq<char>,
    domain: Seq<char>,
    context: Seq<char>,
) -> Seq<char> {
    bytes_text("dg1"@, dg1, DG1_BUFFER as nat) + value_text("dg1_len"@, decimal(dg1.len()))
        + value_text("session_salt"@, SESSION_SALT@) + value_text("dg_binding"@, dg_binding)
        + value_text("current_yyyymmdd"@, TODAY@) + value_text("domain"@, domain) + value_text(
        "context"@,
        context,
    )
}

pub fn attributes_witness(dg1: &[u8], dg_binding: &str, domain: &str, context: &str) -> (witness:
    String)
    requires
        dg1.len() <= DG1_BUFFER,
    ensures
        witness@ == attributes_witness_text(dg1@, dg_binding@, domain@, context@),
{
    let mut w = String::new();
    bytes(&mut w, "dg1", dg1, DG1_BUFFER);
    value(&mut w, "dg1_len", decimal_string(dg1.len() as u128).as_str());
    value(&mut w, "session_salt", SESSION_SALT);
    value(&mut w, "dg_binding", dg_binding);
    value(&mut w, "current_yyyymmdd", TODAY);
    value(&mut w, "domain", domain);
    value(&mut w, "context", context);
    proof {
        assert(w@ =~= attributes_witness_text(dg1@, dg_binding@, domain@, context@));
    }
    w
}

/// The lines an opening contributes under `prefix`: its length, its data,
/// its entropy and its siblings.
pub open spec fn opening_lines(prefix: Seq<char>, opening: Seq<Seq<char>>) -> Seq<char> {
    value_text(prefix + "length"@, opening[4]) + array_text(
        prefix + "data"@,
        opening.subrange(0, 4),
    ) + value_text(prefix + "entropy"@, opening[5]) + array_text(
        prefix + "siblings"@,
        opening.subrange(6, 10),
    )
}

fn push_opening(w: &mut String, prefix: &str, opening: &[String])
    requires
        opening.len() == 10,
    ensures
        final(w)@ == old(w)@ + opening_lines(prefix@, string_views(opening@)),
{
    let data = strings_between(opening, 0, 4);
    let siblings = strings_between(opening, 6, 10);
    value(w, joined(prefix, "length").as_str(), opening[4].as_str());
    array(w, joined(prefix, "data").as_str(), data.as_slice());
    value(w, joined(prefix, "entropy").as_str(), opening[5].as_str());
    array(w, joined(prefix, "siblings").as_str(), siblings.as_slice());
    proof {
        let views = string_views(opening@);
        assert(string_views(opening@.subrange(0, 4)) =~= views.subrange(0, 4));
        assert(string_views(opening@.subrange(6, 10)) =~= views.subrange(6, 10));
        assert(w@ =~= old(w)@ + opening_lines(prefix@, views));
    }
}

/// The age check's witness: born on or before the cutoff, without saying
/// when.
pub open spec fn compare_witness_text(
    opening: Seq<Seq<char>>,
    commitment: Seq<char>,
    domain: Seq<char>,
    context: Seq<char>,
) -> Seq<char> {
    opening_lines(seq![], opening) + value_text("field_id"@, BIRTH_DATE_FIELD@) + value_text(
        "commitment"@,
        commitment,
    ) + value_text("minimum"@, seq!['0']) + value_text("maximum"@, BIRTH_DATE_CUTOFF@)
        + value_text("domain"@, domain) + value_text("context"@, context)
}

pub fn compare_witness(opening: &[String], commitment: &str, domain: &str, context: &str) -> (witness:
    String)
    requires
        opening.len() == 10,
    ensures
        witness@ == compare_witness_text(string_views(opening@), commitment@, domain@, context@),
{
    let mut w = String::new();
    push_opening(&mut w, "", opening);
    value(&mut w, "field_id", BIRTH_DATE_FIELD);
    value(&mut w, "commitment", commitment);
    value(&mut w, "minimum", decimal_string(0).as_str());
    value(&mut w, "maximum", BIRTH_DATE_CUTOFF);
    value(&mut w, "domain", domain);
    value(&mut w, "context", context);
    proof {
        reveal_strlit("");
        assert(""@ =~= Seq::<char>::empty());
        assert(w@ =~= compare_witness_text(
            string_views(opening@),
            commitment@,
            domain@,
            context@,
        ));
    }
    w
}

/// The witness of the tool that hashes one entry of the nationality list.
pub open spec fn set_entry_witness_text(data: Seq<Seq<char>>) -> Seq<char> {
    array_text("data"@, data)
}

pub fn set_entry_witness(data: &[String]) -> (witness: String)
    ensures
        witness@ == set_entry_witness_text(string_views(data@)),
{
    let mut w = String::new();
    array(&mut w, "data", data);
    proof {
        assert(w@ =~= set_entry_witness_text(string_views(data@)));
    }
    w
}

/// The membership check's witness: the nationality is in a list the
/// verifier publishes.
pub open spec fn member_witness_text(
    nationality: Seq<Seq<char>>,
    set_index: nat,
    set_siblings: Seq<Seq<char>>,
    commitment: Seq<char>,
    set_root: Seq<char>,
    domain: Seq<char>,
    context: Seq<char>,
) -> Seq<char> {
    opening_lines(seq![], nationality) + value_text("set_index"@, decimal(set_index)) + array_text(
        "set_siblings"@,
        set_siblings,
    ) + value_text("field_id"@, NATIONALITY_FIELD@) + value_text("commitment"@, commitment)
        + value_text("set_root"@, set_root) + value_text("domain"@, domain) + value_text(
        "context"@,
        context,
    )
}

pub fn member_witness(
    nationality: &[String],
    set_index: usize,
    set_siblings: &[String],
    commitment: &str,
    set_root: &str,
    domain: &str,
    context: &str,
) -> (witness: String)
    requires
        nationality.len() == 10,
    ensures
        witness@ == member_witness_text(
            string_views(nationality@),
            set_index as nat,
            string_views(set_siblings@),
            commitment@,
            set_root@,
            domain@,
            context@,
        ),
{
    let mut w = String::new();
    push_opening(&mut w, "", nationality);
    value(&mut w, "set_index", decimal_string(set_index as u128).as_str());
    array(&mut w, "set_siblings", set_siblings);
    value(&mut w, "field_id", NATIONALITY_FIELD);
    value(&mut w, "commitment", commitment);
    value(&mut w, "set_root", set_root);
    value(&mut w, "domain", domain);
    value(&mut w, "context", context);
    proof {
        reveal_strlit("");
        assert(""@ =~= Seq::<char>::empty());
        assert(w@ =~= member_witness_text(
            string_views(nationality@),
            set_index as nat,
            string_views(set_siblings@),
            commitment@,
            set_root@,
            domain@,
            context@,
        ));
    }
    w
}

/// The witness of the tool that computes the leaf an elliptic curve signer
/// key takes in a registry.
pub open spec fn pubkey_leaf_witness_text(x: Seq<u8>, y: Seq<u8>) -> Seq<char> {
    bytes_text("pubkey_x"@, x, 32) + bytes_text("pubkey_y"@, y, 32)
}

pub fn pubkey_leaf_witness(x: &[u8], y: &[u8]) -> (witness: String)
    requires
        x.len() <= 32,
        y.len() <= 32,
    ensures
        witness@ == pubkey_leaf_witness_text(x@, y@),
{
    let mut w = String::new();
    bytes(&mut w, "pubkey_x", x, 32);
    bytes(&mut w, "pubkey_y", y, 32);
    proof {
        assert(w@ =~= pubkey_leaf_witness_text(x@, y@));
    }
    w
}

/// The witness of the tool that computes the leaf a country signing key
/// takes in a master list.
pub open spec fn modulus_leaf_witness_text(modulus: Seq<u128>) -> Seq<char> {
    limbs_text("modulus_limbs"@, modulus)
}

pub fn modulus_leaf_witness(modulus: &[u128]) -> (witness: String)
    ensures
        witness@ == modulus_leaf_witness_text(modulus@),
{
    let mut w = String::new();
    limbs(&mut w, "modulus_limbs", modulus);
    proof {
        assert(w@ =~= modulus_leaf_witness_text(modulus@));
    }
    w
}

/// The registry anchor's witness: the signer is one this verifier trusts.
pub open spec fn anchor_witness_text(
    x: Seq<u8>,
    y: Seq<u8>,
    index: nat,
    siblings: Seq<Seq<char>>,
    registry_root: Seq<char>,
    domain: Seq<char>,
    context: Seq<char>,
) -> Seq<char> {
    bytes_text("pubkey_x"@, x, 32) + bytes_text("pubkey_y"@, y, 32) + value_text(
        "salt"@,
        DSC_SALT@,
    ) + value_text("index"@, decimal(index)) + array_text("siblings"@, siblings) + value_text(
        "registry_root"@,
        registry_root,
    ) + value_text("domain"@, domain) + value_text("context"@, context)
}

pub fn anchor_witness(
    x: &[u8],
    y: &[u8],
    index: usize,
    siblings: &[String],
    registry_root: &str,
    domain: &str,
    context: &str,
) -> (witness: String)
    requires
        x.len() <= 32,
        y.len() <= 32,
    ensures
        witness@ == anchor_witness_text(
            x@,
            y@,
            index as nat,
            string_views(siblings@),
            registry_root@,
            domain@,
            context@,
        ),
{
    let mut w = String::new();
    bytes(&mut w, "pubkey_x", x, 32);
    bytes(&mut w, "pubkey_y", y, 32);
    value(&mut w, "salt", DSC_SALT);
    value(&mut w, "index", decimal_string(index as u128).as_str());
    array(&mut w, "siblings", siblings);
    value(&mut w, "registry_root", registry_root);
    value(&mut w, "domain", domain);
    value(&mut w, "context", context);
    proof {
        assert(w@ =~= anchor_witness_text(
            x@,
            y@,
            index as nat,
            string_views(siblings@),
            registry_root@,
            domain@,
            context@,
        ));
    }
    w
}

/// The chain anchor's witness: a country signing key certified this
/// document's signer, checked in circuit.
pub open spec fn chain_witness_text(
    certificate: Certificate,
    authority_modulus: Seq<u128>,
    authority_redc: Seq<u128>,
    authority_signature: Seq<u128>,
    authority_index: nat,
    authority_siblings: Seq<Seq<char>>,
    master_list_root: Seq<char>,
    domain: Seq<char>,
    context: Seq<char>,
) -> Seq<char> {
    bytes_text("tbs"@, certificate.tbs@, TBS_BUFFER as nat) + value_text(
        "tbs_len"@,
        decimal(certificate.tbs@.len()),
    ) + value_text("public_key_offset"@, decimal(certificate.public_key_offset as nat))
        + value_text("not_before_offset"@, decimal(certificate.not_before_offset as nat))
        + value_text("not_after_offset"@, decimal(certificate.not_after_offset as nat))
        + limbs_text("authority_modulus"@, authority_modulus) + limbs_text(
        "authority_redc"@,
        authority_redc,
    ) + limbs_text("authority_signature"@, authority_signature) + value_text(
        "authority_index"@,
        decimal(authority_index),
    ) + array_text("authority_siblings"@, authority_siblings) + value_text("salt"@, DSC_SALT@)
        + value_text("master_list_root"@, master_list_root) + value_text(
        "current_yyyymmdd"@,
        TODAY@,
    ) + value_text("domain"@, domain) + value_text("context"@, context)
}

pub fn chain_witness(
    certificate: &Certificate,
    authority_modulus: &[u128],
    authority_redc: &[u128],
    authority_signature: &[u128],
    authority_index: usize,
    authority_siblings: &[String],
    master_list_root: &str,
    domain: &str,
    context: &str,
) -> (witness: String)
    requires
        certificate.tbs@.len() <= TBS_BUFFER,
    ensures
        witness@ == chain_witness_text(
            *certificate,
            authority_modulus@,
            authority_redc@,
            authority_signature@,
            authority_index as nat,
            string_views(authority_siblings@),
            master_list_root@,
            domain@,
            context@,
        ),
{
    let mut w = String::new();
    bytes(&mut w, "tbs", certificate.tbs.as_slice(), TBS_BUFFER);
    value(&mut w, "tbs_len", decimal_string(certificate.tbs.len() as u128).as_str());
    value(
        &mut w,
        "public_key_offset",
        decimal_string(certificate.public_key_offset as u128).as_str(),
    );
    value(
        &mut w,
        "not_before_offset",
        decimal_string(certificate.not_before_offset as u128).as_str(),
    );
    value(
        &mut w,
        "not_after_offset",
        decimal_string(certificate.not_after_offset as u128).as_str(),
    );
    limbs(&mut w, "authority_modulus", authority_modulus);
    limbs(&mut w, "authority_redc", authority_redc);
    limbs(&mut w, "authority_signature", authority_signature);
    value(&mut w, "authority_index", decimal_string(authority_index as u128).as_str());
    array(&mut w, "authority_siblings", authority_siblings);
    value(&mut w, "salt", DSC_SALT);
    value(&mut w, "master_list_root", master_list_root);
    value(&mut w, "current_yyyymmdd", TODAY);
    value(&mut w, "domain", domain);
    value(&mut w, "context", context);
    proof {
        assert(w@ =~= chain_witness_text(
            *certificate,
            authority_modulus@,
            authority_redc@,
            authority_signature@,
            authority_index as nat,
            string_views(authority_siblings@),
            master_list_root@,
            domain@,
            context@,
        ));
    }
    w
}

/// The witness of the tool that derives the document secret from the
/// Document Signer's signature.
pub open spec fn secret_witness_text(signature_r: Seq<u8>, signature_s: Seq<u8>) -> Seq<char> {
    bytes_text("signature_r"@, signature_r, 32) + bytes_text("signature_s"@, signature_s, 32)
}

pub fn secret_witness(signature_r: &[u8], signature_s: &[u8]) -> (witness: String)
    requires
        signature_r.len() <= 32,
        signature_s.len() <= 32,
    ensures
        witness@ == secret_witness_text(signature_r@, signature_s@),
{
    let mut w = String::new();
    bytes(&mut w, "signature_r", signature_r, 32);
    bytes(&mut w, "signature_s", signature_s, 32);
    proof {
        assert(w@ =~= secret_witness_text(signature_r@, signature_s@));
    }
    w
}

/// The nullifier's witness: one value per holder per application, from the
/// issuing state, the document number and the document secret.
pub open spec fn nullifier_witness_text(
    state: Seq<Seq<char>>,
    number: Seq<Seq<char>>,
    secret: Seq<char>,
    commitment: Seq<char>,
    secret_binding: Seq<char>,
    domain: Seq<char>,
    context: Seq<char>,
) -> Seq<char> {
    opening_lines("state_"@, state) + opening_lines("number_"@, number) + value_text(
        "secret"@,
        secret,
    ) + value_text("commitment"@, commitment) + value_text("secret_binding"@, secret_binding)
        + value_text("domain"@, domain) + value_text("context"@, context)
}

pub fn nullifier_witness(
    state: &[String],
    number: &[String],
    secret: &str,
    commitment: &str,
    secret_binding: &str,
    domain: &str,
    context: &str,
) -> (witness: String)
    requires
        state.len() == 10,
        number.len() == 10,
    ensures
        witness@ == nullifier_witness_text(
            string_views(state@),
            string_views(number@),
            secret@,
            commitment@,
            secret_binding@,
            domain@,
            context@,
        ),
{
    let mut w = String::new();
    push_opening(&mut w, "state_", state);
    push_opening(&mut w, "number_", number);
    value(&mut w, "secret", secret);
    value(&mut w, "commitment", commitment);
    value(&mut w, "secret_binding", secret_binding);
    value(&mut w, "domain", domain);
    value(&mut w, "context", context);
    proof {
        assert(w@ =~= nullifier_witness_text(
            string_views(state@),
            string_views(number@),
            secret@,
            commitment@,
            secret_binding@,
            domain@,
            context@,
        ));
    }
    w
}

/// The lines the four inner proofs of a registration contribute: the
/// verification key and the proof of the Security Object, data group,
/// attribute and anchor proofs, in that order.
pub open spec fn inner_proofs_text(keys: Seq<Seq<u8>>, proofs: Seq<Seq<u8>>) -> Seq<char> {
    array_text("sod_key"@, field_element_strings(keys[0])) + array_text(
        "sod_proof"@,
        field_element_strings(proofs[0]),
    ) + array_text("dg_extract_key"@, field_element_strings(keys[1])) + array_text(
        "dg_extract_proof"@,
        field_element_strings(proofs[1]),
    ) + array_text("attributes_key"@, field_element_strings(keys[2])) + array_text(
        "attributes_proof"@,
        field_element_strings(proofs[2]),
    ) + array_text("anchor_key"@, field_element_strings(keys[3])) + array_text(
        "anchor_proof"@,
        field_element_strings(proofs[3]),
    )
}

/// The byte views of a sequence of vectors.
pub open spec fn byte_views(v: Seq<Vec<u8>>) -> Seq<Seq<u8>> {
    v.map_values(|x: Vec<u8>| x@)
}

/// Every buffer is whole 32 byte field elements.
pub open spec fn whole_elements(v: Seq<Seq<u8>>) -> bool {
    forall|k: int| 0 <= k < v.len() ==> #[trigger] v[k].len() % 32 == 0
}

/// The registration's witness: the four document proofs folded into one
/// recursive proof, anchored either to a registry or to a master list, as
/// `root_name` says.
pub open spec fn registration_witness_text(
    keys: Seq<Seq<u8>>,
    proofs: Seq<Seq<u8>>,
    econtent_binding: Seq<char>,
    dsc_commitment: Seq<char>,
    secret_binding: Seq<char>,
    dg_binding: Seq<char>,
    commitment: Seq<char>,
    root_name: Seq<char>,
    root: Seq<char>,
    domain: Seq<char>,
    context: Seq<char>,
) -> Seq<char> {
    inner_proofs_text(keys, proofs) + value_text("econtent_binding"@, econtent_binding)
        + value_text("dsc_commitment"@, dsc_commitment) + value_text(
        "secret_binding"@,
        secret_binding,
    ) + value_text("dg_binding"@, dg_binding) + value_text("commitment"@, commitment)
        + value_text("current_yyyymmdd"@, TODAY@) + value_text(root_name, root) + value_text(
        "domain"@,
        domain,
    ) + value_text("context"@, context)
}

pub fn registration_witness(
    keys: &[Vec<u8>],
    proofs: &[Vec<u8>],
    econtent_binding: &str,
    dsc_commitment: &str,
    secret_binding: &str,
    dg_binding: &str,
    commitment: &str,
    root_name: &str,
    root: &str,
    domain: &str,
    context: &str,
) -> (witness: String)
    requires
        keys.len() == 4,
        proofs.len() == 4,
        whole_elements(byte_views(keys@)),
        whole_elements(byte_views(proofs@)),
    ensures
        witness@ == registration_witness_text(
            byte_views(keys@),
            byte_views(proofs@),
            econtent_binding@,
            dsc_commitment@,
            secret_binding@,
            dg_binding@,
            commitment@,
            root_name@,
            root@,
            domain@,
            context@,
        ),
{
    proof {
        let k = byte_views(keys@);
        let p = byte_views(proofs@);
        assert(k[0].len() % 32 == 0 && k[1].len() % 32 == 0 && k[2].len() % 32 == 0 && k[3].len()
            % 32 == 0);
        assert(p[0].len() % 32 == 0 && p[1].len() % 32 == 0 && p[2].len() % 32 == 0 && p[3].len()
            % 32 == 0);
    }
    let mut w = String::new();
    field_elements(&mut w, "sod_key", keys[0].as_slice());
    field_elements(&mut w, "sod_proof", proofs[0].as_slice());
    field_elements(&mut w, "dg_extract_key", keys[1].as_slice());
    field_elements(&mut w, "dg_extract_proof", proofs[1].as_slice());
    field_elements(&mut w, "attributes_key", keys[2].as_slice());
    field_elements(&mut w, "attributes_proof", proofs[2].as_slice());
    field_elements(&mut w, "anchor_key", keys[3].as_slice());
    field_elements(&mut w, "anchor_proof", proofs[3].as_slice());
    value(&mut w, "econtent_binding", econtent_binding);
    value(&mut w, "dsc_commitment", dsc_commitment);
    value(&mut w, "secret_binding", secret_binding);
    value(&mut w, "dg_binding", dg_binding);
    value(&mut w, "commitment", commitment);
    value(&mut w, "current_yyyymmdd", TODAY);
    value(&mut w, root_name, root);
    value(&mut w, "domain", domain);
    value(&mut w, "context", context);
    proof {
        assert(w@ =~= registration_witness_text(
            byte_views(keys@),
            byte_views(proofs@),
            econtent_binding@,
            dsc_commitment@,
            secret_binding@,
            dg_binding@,
            commitment@,
            root_name@,
            root@,
            domain@,
            context@,
        ));
    }
    w
}

/// The session's witness: the two predicates of the session folded into
/// one proof.
pub open spec fn session_witness_text(
    compare_key: Seq<u8>,
    compare_proof: Seq<u8>,
    member_key: Seq<u8>,
    member_proof: Seq<u8>,
    commitment: Seq<char>,
    set_root: Seq<char>,
    domain: Seq<char>,
    context: Seq<char>,
) -> Seq<char> {
    array_text("compare_key"@, field_element_strings(compare_key)) + array_text(
        "compare_proof"@,
        field_element_strings(compare_proof),
    ) + array_text("member_key"@, field_element_strings(member_key)) + array_text(
        "member_proof"@,
        field_element_strings(member_proof),
    ) + value_text("commitment"@, commitment) + value_text(
        "compare_field_id"@,
        BIRTH_DATE_FIELD@,
    ) + value_text("minimum"@, seq!['0']) + value_text("maximum"@, BIRTH_DATE_CUTOFF@)
        + value_text("member_field_id"@, NATIONALITY_FIELD@) + value_text("set_root"@, set_root)
        + value_text("domain"@, domain) + value_text("context"@, context)
}

pub fn session_witness(
    compare_key: &[u8],
    compare_proof: &[u8],
    member_key: &[u8],
    member_proof: &[u8],
    commitment: &str,
    set_root: &str,
    domain: &str,
    context: &str,
) -> (witness: String)
    requires
        compare_key.len() % 32 == 0,
        compare_proof.len() % 32 == 0,
        member_key.len() % 32 == 0,
        member_proof.len() % 32 == 0,
    ensures
        witness@ == session_witness_text(
            compare_key@,
            compare_proof@,
            member_key@,
            member_proof@,
            commitment@,
            set_root@,
            domain@,
            context@,
        ),
{
    let mut w = String::new();
    field_elements(&mut w, "compare_key", compare_key);
    field_elements(&mut w, "compare_proof", compare_proof);
    field_elements(&mut w, "member_key", member_key);
    field_elements(&mut w, "member_proof", member_proof);
    value(&mut w, "commitment", commitment);
    value(&mut w, "compare_field_id", BIRTH_DATE_FIELD);
    value(&mut w, "minimum", decimal_string(0).as_str());
    value(&mut w, "maximum", BIRTH_DATE_CUTOFF);
    value(&mut w, "member_field_id", NATIONALITY_FIELD);
    value(&mut w, "set_root", set_root);
    value(&mut w, "domain", domain);
    value(&mut w, "context", context);
    proof {
        assert(w@ =~= session_witness_text(
            compare_key@,
            compare_proof@,
            member_key@,
            member_proof@,
            commitment@,
            set_root@,
            domain@,
            context@,
        ));
    }
    w
}

/// What the signature circuit publishes, in the order it returns them.
pub struct SodOutputs {
    /// The binding to the signed Security Object content, which data group
    /// extraction takes.
    pub econtent_binding: String,
    /// The commitment to the Document Signer key, which both anchors must
    /// expose.
    pub dsc_commitment: String,
    /// The binding to the document secret, which the nullifier takes.
    pub secret_binding: String,
}

/// The signature circuit's outputs by what they are: the content binding,
/// the signer commitment and the secret binding, first to third.
pub fn sod_outputs(outputs: &[String]) -> (named: SodOutputs)
    requires
        outputs.len() >= 3,
    ensures
        named.econtent_binding@ == outputs@[0]@,
        named.dsc_commitment@ == outputs@[1]@,
        named.secret_binding@ == outputs@[2]@,
{
    SodOutputs {
        econtent_binding: outputs[0].clone(),
        dsc_commitment: outputs[1].clone(),
        secret_binding: outputs[2].clone(),
    }
}

/// An anchor commits to the key that signed the document: its first output
/// is the signature circuit's signer commitment.
pub fn commits_to_signer(anchor: &[String], sod: &SodOutputs) -> (ok: bool)
    ensures
        ok == (anchor.len() > 0 && anchor@[0]@ == sod.dsc_commitment@),
{
    exposes(anchor, 0, sod.dsc_commitment.as_str())
}

/// The circuit returned `expected` at position `index` of its outputs.
pub fn exposes(outputs: &[String], index: usize, expected: &str) -> (ok: bool)
    ensures
        ok == (index < outputs.len() && outputs@[index as int]@ == expected@),
{
    if index >= outputs.len() {
        return false;
    }
    let wanted = String::from_str(expected);
    outputs[index] == wanted
}

// ---------------------------------------------------------------------------
// Laws: each witness carries every input in the line of its own name.
/// A buffer line is whole lines.
pub broadcast proof fn lemma_bytes_line(name: Seq<char>, value: Seq<u8>, width: nat)
    ensures
        #[trigger] whole_lines(bytes_text(name, value, width)),
{
    let b = bytes_text(name, value, width);
    assert(b[b.len() - 1] == '\n');
}

/// A value line is whole lines.
pub broadcast proof fn lemma_value_line(name: Seq<char>, value: Seq<char>)
    ensures
        #[trigger] whole_lines(value_text(name, value)),
{
    let v = value_text(name, value);
    assert(v[v.len() - 1] == '\n');
}

/// An array line is whole lines.
pub broadcast proof fn lemma_array_line(name: Seq<char>, values: Seq<Seq<char>>)
    ensures
        #[trigger] whole_lines(array_text(name, values)),
{
    let a = array_text(name, values);
    assert(a[a.len() - 1] == '\n');
}

/// The opening tool's witness gives every input the line of its own name:
/// DG1 in its 128 byte buffer and its length, the session salt, the domain,
/// today's date, the field asked for and the passport layout.
pub proof fn lemma_opening_witness_names(
    dg1: Seq<u8>,
    field_id: Seq<char>,
    domain: Seq<char>,
)
    ensures
        ({
            let w = opening_witness_text(dg1, field_id, domain);
            &&& has_line(w, bytes_text("dg1"@, dg1, 128))
            &&& has_line(w, value_text("dg1_len"@, decimal(dg1.len())))
            &&& has_line(w, value_text("session_salt"@, "123456789"@))
            &&& has_line(w, value_text("domain"@, domain))
            &&& has_line(w, value_text("current_yyyymmdd"@, "20260725"@))
            &&& has_line(w, value_text("field_id"@, field_id))
            &&& has_line(w, value_text("layout"@, "3"@))
        }),
{
    broadcast use lemma_bytes_line, lemma_value_line, lemma_array_line;
    reveal_strlit("123456789");
    reveal_strlit("20260725");
    reveal_strlit("3");
    let blocks = seq![
        bytes_text("dg1"@, dg1, 128),
        value_text("dg1_len"@, decimal(dg1.len())),
        value_text("session_salt"@, "123456789"@),
        value_text("domain"@, domain),
        value_text("current_yyyymmdd"@, "20260725"@),
        value_text("field_id"@, field_id),
        value_text("layout"@, "3"@),
    ];
    assert forall|k: int| 0 <= k < blocks.len() implies #[trigger] whole_lines(blocks[k]) by {}
    assert(blocks_text(blocks) =~= opening_witness_text(dg1, field_id, domain)) by {
        reveal_with_fuel(blocks_text, 8);
    }
    lemma_has_block(blocks, 0);
    lemma_has_block(blocks, 1);
    lemma_has_block(blocks, 2);
    lemma_has_block(blocks, 3);
    lemma_has_block(blocks, 4);
    lemma_has_block(blocks, 5);
    lemma_has_block(blocks, 6);
}

/// The Passive Authentication witness gives every input the line of its
/// own name: the content, the signed attributes and the digest offset, both
/// coordinates of the signer key, the signature's `r` and `s`, the salt, the
/// domain and the context, each in the buffer of its width.
pub proof fn lemma_sod_witness_names(
    econtent: Seq<u8>,
    signed_attrs: Seq<u8>,
    digest_offset: nat,
    pubkey_x: Seq<u8>,
    pubkey_y: Seq<u8>,
    signature_r: Seq<u8>,
    signature_s: Seq<u8>,
    domain: Seq<char>,
    context: Seq<char>,
)
    ensures
        ({
            let w = sod_witness_text(econtent, signed_attrs, digest_offset, pubkey_x, pubkey_y, signature_r, signature_s, domain, context);
            &&& has_line(w, bytes_text("econtent"@, econtent, 512))
            &&& has_line(w, value_text("econtent_len"@, decimal(econtent.len())))
            &&& has_line(w, bytes_text("signed_attrs"@, signed_attrs, 256))
            &&& has_line(w, value_text("signed_attrs_len"@, decimal(signed_attrs.len())))
            &&& has_line(w, value_text("digest_offset"@, decimal(digest_offset)))
            &&& has_line(w, bytes_text("pubkey_x"@, pubkey_x, 32))
            &&& has_line(w, bytes_text("pubkey_y"@, pubkey_y, 32))
            &&& has_line(w, bytes_text("signature_r"@, signature_r, 32))
            &&& has_line(w, bytes_text("signature_s"@, signature_s, 32))
            &&& has_line(w, value_text("dsc_salt"@, "7"@))
            &&& has_line(w, value_text("domain"@, domain))
            &&& has_line(w, value_text("context"@, context))
        }),
{
    broadcast use lemma_bytes_line, lemma_value_line, lemma_array_line;
    reveal_strlit("7");
    let blocks = seq![
        bytes_text("econtent"@, econtent, 512),
        value_text("econtent_len"@, decimal(econtent.len())),
        bytes_text("signed_attrs"@, signed_attrs, 256),
        value_text("signed_attrs_len"@, decimal(signed_attrs.len())),
        value_text("digest_offset"@, decimal(digest_offset)),
        bytes_text("pubkey_x"@, pubkey_x, 32),
        bytes_text("pubkey_y"@, pubkey_y, 32),
        bytes_text("signature_r"@, signature_r, 32),
        bytes_text("signature_s"@, signature_s, 32),
        value_text("dsc_salt"@, "7"@),
        value_text("domain"@, domain),
        value_text("context"@, context),
    ];
    assert forall|k: int| 0 <= k < blocks.len() implies #[trigger] whole_lines(blocks[k]) by {}
    assert(blocks_text(blocks) =~= sod_witness_text(econtent, signed_attrs, digest_offset, pubkey_x, pubkey_y, signature_r, signature_s, domain, context)) by {
        reveal_with_fuel(blocks_text, 13);
    }
    lemma_has_block(blocks, 0);
    lemma_has_block(blocks, 1);
    lemma_has_block(blocks, 2);
    lemma_has_block(blocks, 3);
    lemma_has_block(blocks, 4);
    lemma_has_block(blocks, 5);
    lemma_has_block(blocks, 6);
    lemma_has_block(blocks, 7);
    lemma_has_block(blocks, 8);
    lemma_has_block(blocks, 9);
    lemma_has_block(blocks, 10);
    lemma_has_block(blocks, 11);
}

/// The data group witness gives every input the line of its own name: the
/// content and its length, the OID and data group offsets, DG1 as the group
/// asked for, the content binding, the domain and the context.
pub proof fn lemma_dg_extract_witness_names(
    econtent: Seq<u8>,
    oid_offset: nat,
    dg_offset: nat,
    econtent_binding: Seq<char>,
    domain: Seq<char>,
    context: Seq<char>,
)
    ensures
        ({
            let w = dg_extract_witness_text(econtent, oid_offset, dg_offset, econtent_binding, domain, context);
            &&& has_line(w, bytes_text("econtent"@, econtent, 512))
            &&& has_line(w, value_text("econtent_len"@, decimal(econtent.len())))
            &&& has_line(w, value_text("oid_offset"@, decimal(oid_offset)))
            &&& has_line(w, value_text("dg_offset"@, decimal(dg_offset)))
            &&& has_line(w, value_text("dg_number"@, "1"@))
            &&& has_line(w, value_text("econtent_binding"@, econtent_binding))
            &&& has_line(w, value_text("domain"@, domain))
            &&& has_line(w, value_text("context"@, context))
        }),
{
    broadcast use lemma_bytes_line, lemma_value_line, lemma_array_line;
    reveal_strlit("1");
    let blocks = seq![
        bytes_text("econtent"@, econtent, 512),
        value_text("econtent_len"@, decimal(econtent.len())),
        value_text("oid_offset"@, decimal(oid_offset)),
        value_text("dg_offset"@, decimal(dg_offset)),
        value_text("dg_number"@, "1"@),
        value_text("econtent_binding"@, econtent_binding),
        value_text("domain"@, domain),
        value_text("context"@, context),
    ];
    assert forall|k: int| 0 <= k < blocks.len() implies #[trigger] whole_lines(blocks[k]) by {}
    assert(blocks_text(blocks) =~= dg_extract_witness_text(econtent, oid_offset, dg_offset, econtent_binding, domain, context)) by {
        reveal_with_fuel(blocks_text, 9);
    }
    lemma_has_block(blocks, 0);
    lemma_has_block(blocks, 1);
    lemma_has_block(blocks, 2);
    lemma_has_block(blocks, 3);
    lemma_has_block(blocks, 4);
    lemma_has_block(blocks, 5);
    lemma_has_block(blocks, 6);
    lemma_has_block(blocks, 7);
}

/// The attribute witness gives every input the line of its own name: DG1
/// and its length, the session salt, the data group binding, today's date,
/// the domain and the context.
pub proof fn lemma_attributes_witness_names(
    dg1: Seq<u8>,
    dg_binding: Seq<char>,
    domain: Seq<char>,
    context: Seq<char>,
)
    ensures
        ({
            let w = attributes_witness_text(dg1, dg_binding, domain, context);
            &&& has_line(w, bytes_text("dg1"@, dg1, 128))
            &&& has_line(w, value_text("dg1_len"@, decimal(dg1.len())))
            &&& has_line(w, value_text("session_salt"@, "123456789"@))
            &&& has_line(w, value_text("dg_binding"@, dg_binding))
            &&& has_line(w, value_text("current_yyyymmdd"@, "20260725"@))
            &&& has_line(w, value_text("domain"@, domain))
            &&& has_line(w, value_text("context"@, context))
        }),
{
    broadcast use lemma_bytes_line, lemma_value_line, lemma_array_line;
    reveal_strlit("123456789");
    reveal_strlit("20260725");
    let blocks = seq![
        bytes_text("dg1"@, dg1, 128),
        value_text("dg1_len"@, decimal(dg1.len())),
        value_text("session_salt"@, "123456789"@),
        value_text("dg_binding"@, dg_binding),
        value_text("current_yyyymmdd"@, "20260725"@),
        value_text("domain"@, domain),
        value_text("context"@, context),
    ];
    assert forall|k: int| 0 <= k < blocks.len() implies #[trigger] whole_lines(blocks[k]) by {}
    assert(blocks_text(blocks) =~= attributes_witness_text(dg1, dg_binding, domain, context)) by {
        reveal_with_fuel(blocks_text, 8);
    }
    lemma_has_block(blocks, 0);
    lemma_has_block(blocks, 1);
    lemma_has_block(blocks, 2);
    lemma_has_block(blocks, 3);
    lemma_has_block(blocks, 4);
    lemma_has_block(blocks, 5);
    lemma_has_block(blocks, 6);
}

/// The age check's witness proves the birth date field, field 5, lies
/// between 0 and 20080725: born on or before 25 July 2008, eighteen years
/// before today's 20260725. It carries the opening of that field, the
/// commitment, the domain and the context, each in the line of its name.
pub proof fn lemma_compare_witness_names(
    opening: Seq<Seq<char>>,
    commitment: Seq<char>,
    domain: Seq<char>,
    context: Seq<char>,
)
    ensures
        ({
            let w = compare_witness_text(opening, commitment, domain, context);
            &&& has_line(w, value_text("length"@, opening[4]))
            &&& has_line(w, array_text("data"@, opening.subrange(0, 4)))
            &&& has_line(w, value_text("entropy"@, opening[5]))
            &&& has_line(w, array_text("siblings"@, opening.subrange(6, 10)))
            &&& has_line(w, value_text("field_id"@, "5"@))
            &&& has_line(w, value_text("commitment"@, commitment))
            &&& has_line(w, value_text("minimum"@, "0"@))
            &&& has_line(w, value_text("maximum"@, "20080725"@))
            &&& has_line(w, value_text("domain"@, domain))
            &&& has_line(w, value_text("context"@, context))
        }),
{
    broadcast use lemma_bytes_line, lemma_value_line, lemma_array_line;
    reveal_strlit("5");
    reveal_strlit("0");
    reveal_strlit("20080725");
    let blocks = seq![
        value_text("length"@, opening[4]),
        array_text("data"@, opening.subrange(0, 4)),
        value_text("entropy"@, opening[5]),
        array_text("siblings"@, opening.subrange(6, 10)),
        value_text("field_id"@, "5"@),
        value_text("commitment"@, commitment),
        value_text("minimum"@, "0"@),
        value_text("maximum"@, "20080725"@),
        value_text("domain"@, domain),
        value_text("context"@, context),
    ];
    assert forall|k: int| 0 <= k < blocks.len() implies #[trigger] whole_lines(blocks[k]) by {}
    assert(blocks_text(blocks) =~= compare_witness_text(opening, commitment, domain, context)) by {
        reveal_with_fuel(blocks_text, 11);
    }
    lemma_has_block(blocks, 0);
    lemma_has_block(blocks, 1);
    lemma_has_block(blocks, 2);
    lemma_has_block(blocks, 3);
    lemma_has_block(blocks, 4);
    lemma_has_block(blocks, 5);
    lemma_has_block(blocks, 6);
    lemma_has_block(blocks, 7);
    lemma_has_block(blocks, 8);
    lemma_has_block(blocks, 9);
}

/// The membership witness proves the nationality field, field 4, is in the
/// published list: the opening of that field, the holder's place and path in
/// the list, the commitment, the list's root, the domain and the context,
/// each in the line of its name.
pub proof fn lemma_member_witness_names(
    nationality: Seq<Seq<char>>,
    set_index: nat,
    set_siblings: Seq<Seq<char>>,
    commitment: Seq<char>,
    set_root: Seq<char>,
    domain: Seq<char>,
    context: Seq<char>,
)
    ensures
        ({
            let w = member_witness_text(nationality, set_index, set_siblings, commitment, set_root, domain, context);
            &&& has_line(w, value_text("length"@, nationality[4]))
            &&& has_line(w, array_text("data"@, nationality.subrange(0, 4)))
            &&& has_line(w, value_text("entropy"@, nationality[5]))
            &&& has_line(w, array_text("siblings"@, nationality.subrange(6, 10)))
            &&& has_line(w, value_text("set_index"@, decimal(set_index)))
            &&& has_line(w, array_text("set_siblings"@, set_siblings))
            &&& has_line(w, value_text("field_id"@, "4"@))
            &&& has_line(w, value_text("commitment"@, commitment))
            &&& has_line(w, value_text("set_root"@, set_root))
            &&& has_line(w, value_text("domain"@, domain))
            &&& has_line(w, value_text("context"@, context))
        }),
{
    broadcast use lemma_bytes_line, lemma_value_line, lemma_array_line;
    reveal_strlit("4");
    let blocks = seq![
        value_text("length"@, nationality[4]),
        array_text("data"@, nationality.subrange(0, 4)),
        value_text("entropy"@, nationality[5]),
        array_text("siblings"@, nationality.subrange(6, 10)),
        value_text("set_index"@, decimal(set_index)),
        array_text("set_siblings"@, set_siblings),
        value_text("field_id"@, "4"@),
        value_text("commitment"@, commitment),
        value_text("set_root"@, set_root),
        value_text("domain"@, domain),
        value_text("context"@, context),
    ];
    assert forall|k: int| 0 <= k < blocks.len() implies #[trigger] whole_lines(blocks[k]) by {}
    assert(blocks_text(blocks) =~= member_witness_text(nationality, set_index, set_siblings, commitment, set_root, domain, context)) by {
        reveal_with_fuel(blocks_text, 12);
    }
    lemma_has_block(blocks, 0);
    lemma_has_block(blocks, 1);
    lemma_has_block(blocks, 2);
    lemma_has_block(blocks, 3);
    lemma_has_block(blocks, 4);
    lemma_has_block(blocks, 5);
    lemma_has_block(blocks, 6);
    lemma_has_block(blocks, 7);
    lemma_has_block(blocks, 8);
    lemma_has_block(blocks, 9);
    lemma_has_block(blocks, 10);
}

/// The registry leaf's witness holds the key's `x` under `pubkey_x` and its
/// `y` under `pubkey_y`.
pub proof fn lemma_pubkey_leaf_witness_names(
    x: Seq<u8>,
    y: Seq<u8>,
)
    ensures
        ({
            let w = pubkey_leaf_witness_text(x, y);
            &&& has_line(w, bytes_text("pubkey_x"@, x, 32))
            &&& has_line(w, bytes_text("pubkey_y"@, y, 32))
        }),
{
    broadcast use lemma_bytes_line, lemma_value_line, lemma_array_line;
    let blocks = seq![
        bytes_text("pubkey_x"@, x, 32),
        bytes_text("pubkey_y"@, y, 32),
    ];
    assert forall|k: int| 0 <= k < blocks.len() implies #[trigger] whole_lines(blocks[k]) by {}
    assert(blocks_text(blocks) =~= pubkey_leaf_witness_text(x, y)) by {
        reveal_with_fuel(blocks_text, 3);
    }
    lemma_has_block(blocks, 0);
    lemma_has_block(blocks, 1);
}

/// The registry anchor's witness gives every input the line of its own
/// name: both coordinates of the signer key, the salt, the signer's place and
/// path in the registry, its root, the domain and the context.
pub proof fn lemma_anchor_witness_names(
    x: Seq<u8>,
    y: Seq<u8>,
    index: nat,
    siblings: Seq<Seq<char>>,
    registry_root: Seq<char>,
    domain: Seq<char>,
    context: Seq<char>,
)
    ensures
        ({
            let w = anchor_witness_text(x, y, index, siblings, registry_root, domain, context);
            &&& has_line(w, bytes_text("pubkey_x"@, x, 32))
            &&& has_line(w, bytes_text("pubkey_y"@, y, 32))
            &&& has_line(w, value_text("salt"@, "7"@))
            &&& has_line(w, value_text("index"@, decimal(index)))
            &&& has_line(w, array_text("siblings"@, siblings))
            &&& has_line(w, value_text("registry_root"@, registry_root))
            &&& has_line(w, value_text("domain"@, domain))
            &&& has_line(w, value_text("context"@, context))
        }),
{
    broadcast use lemma_bytes_line, lemma_value_line, lemma_array_line;
    reveal_strlit("7");
    let blocks = seq![
        bytes_text("pubkey_x"@, x, 32),
        bytes_text("pubkey_y"@, y, 32),
        value_text("salt"@, "7"@),
        value_text("index"@, decimal(index)),
        array_text("siblings"@, siblings),
        value_text("registry_root"@, registry_root),
        value_text("domain"@, domain),
        value_text("context"@, context),
    ];
    assert forall|k: int| 0 <= k < blocks.len() implies #[trigger] whole_lines(blocks[k]) by {}
    assert(blocks_text(blocks) =~= anchor_witness_text(x, y, index, siblings, registry_root, domain, context)) by {
        reveal_with_fuel(blocks_text, 9);
    }
    lemma_has_block(blocks, 0);
    lemma_has_block(blocks, 1);
    lemma_has_block(blocks, 2);
    lemma_has_block(blocks, 3);
    lemma_has_block(blocks, 4);
    lemma_has_block(blocks, 5);
    lemma_has_block(blocks, 6);
    lemma_has_block(blocks, 7);
}

/// The chain anchor's witness gives every input the line of its own name:
/// the certificate body in its 512 byte buffer, its length and the offsets of
/// the key and the two times, the country key's modulus, reduction parameter
/// and signature limbs, its place and path in the master list, the salt, the
/// list's root, today's date, the domain and the context.
pub proof fn lemma_chain_witness_names(
    certificate: Certificate,
    authority_modulus: Seq<u128>,
    authority_redc: Seq<u128>,
    authority_signature: Seq<u128>,
    authority_index: nat,
    authority_siblings: Seq<Seq<char>>,
    master_list_root: Seq<char>,
    domain: Seq<char>,
    context: Seq<char>,
)
    ensures
        ({
            let w = chain_witness_text(certificate, authority_modulus, authority_redc, authority_signature, authority_index, authority_siblings, master_list_root, domain, context);
            &&& has_line(w, bytes_text("tbs"@, certificate.tbs@, 512))
            &&& has_line(w, value_text("tbs_len"@, decimal(certificate.tbs@.len())))
            &&& has_line(
                w,
                value_text("public_key_offset"@, decimal(certificate.public_key_offset as nat)),
            )
            &&& has_line(
                w,
                value_text("not_before_offset"@, decimal(certificate.not_before_offset as nat)),
            )
            &&& has_line(
                w,
                value_text("not_after_offset"@, decimal(certificate.not_after_offset as nat)),
            )
            &&& has_line(w, array_text("authority_modulus"@, limb_decimals(authority_modulus)))
            &&& has_line(w, array_text("authority_redc"@, limb_decimals(authority_redc)))
            &&& has_line(w, array_text("authority_signature"@, limb_decimals(authority_signature)))
            &&& has_line(w, value_text("authority_index"@, decimal(authority_index)))
            &&& has_line(w, array_text("authority_siblings"@, authority_siblings))
            &&& has_line(w, value_text("salt"@, "7"@))
            &&& has_line(w, value_text("master_list_root"@, master_list_root))
            &&& has_line(w, value_text("current_yyyymmdd"@, "20260725"@))
            &&& has_line(w, value_text("domain"@, domain))
            &&& has_line(w, value_text("context"@, context))
        }),
{
    broadcast use lemma_bytes_line, lemma_value_line, lemma_array_line;
    reveal_strlit("7");
    reveal_strlit("20260725");
    let blocks = seq![
        bytes_text("tbs"@, certificate.tbs@, 512),
        value_text("tbs_len"@, decimal(certificate.tbs@.len())),
        value_text("public_key_offset"@, decimal(certificate.public_key_offset as nat)),
        value_text("not_before_offset"@, decimal(certificate.not_before_offset as nat)),
        value_text("not_after_offset"@, decimal(certificate.not_after_offset as nat)),
        array_text("authority_modulus"@, limb_decimals(authority_modulus)),
        array_text("authority_redc"@, limb_decimals(authority_redc)),
        array_text("authority_signature"@, limb_decimals(authority_signature)),
        value_text("authority_index"@, decimal(authority_index)),
        array_text("authority_siblings"@, authority_siblings),
        value_text("salt"@, "7"@),
        value_text("master_list_root"@, master_list_root),
        value_text("current_yyyymmdd"@, "20260725"@),
        value_text("domain"@, domain),
        value_text("context"@, context),
    ];
    assert forall|k: int| 0 <= k < blocks.len() implies #[trigger] whole_lines(blocks[k]) by {}
    assert(blocks_text(blocks) =~= chain_witness_text(certificate, authority_modulus, authority_redc, authority_signature, authority_index, authority_siblings, master_list_root, domain, context)) by {
        reveal_with_fuel(blocks_text, 16);
    }
    lemma_has_block(blocks, 0);
    lemma_has_block(blocks, 1);
    lemma_has_block(blocks, 2);
    lemma_has_block(blocks, 3);
    lemma_has_block(blocks, 4);
    lemma_has_block(blocks, 5);
    lemma_has_block(blocks, 6);
    lemma_has_block(blocks, 7);
    lemma_has_block(blocks, 8);
    lemma_has_block(blocks, 9);
    lemma_has_block(blocks, 10);
    lemma_has_block(blocks, 11);
    lemma_has_block(blocks, 12);
    lemma_has_block(blocks, 13);
    lemma_has_block(blocks, 14);
}

/// The secret tool's witness holds the signature's `r` under `signature_r`
/// and its `s` under `signature_s`.
pub proof fn lemma_secret_witness_names(
    signature_r: Seq<u8>,
    signature_s: Seq<u8>,
)
    ensures
        ({
            let w = secret_witness_text(signature_r, signature_s);
            &&& has_line(w, bytes_text("signature_r"@, signature_r, 32))
            &&& has_line(w, bytes_text("signature_s"@, signature_s, 32))
        }),
{
    broadcast use lemma_bytes_line, lemma_value_line, lemma_array_line;
    let blocks = seq![
        bytes_text("signature_r"@, signature_r, 32),
        bytes_text("signature_s"@, signature_s, 32),
    ];
    assert forall|k: int| 0 <= k < blocks.len() implies #[trigger] whole_lines(blocks[k]) by {}
    assert(blocks_text(blocks) =~= secret_witness_text(signature_r, signature_s)) by {
        reveal_with_fuel(blocks_text, 3);
    }
    lemma_has_block(blocks, 0);
    lemma_has_block(blocks, 1);
}

/// The nullifier's witness holds the issuing state's opening under the
/// `state_` names and the document number's under the `number_` names, then
/// the secret, the commitment, the secret binding, the domain and the
/// context, each in the line of its name.
pub proof fn lemma_nullifier_witness_names(
    state: Seq<Seq<char>>,
    number: Seq<Seq<char>>,
    secret: Seq<char>,
    commitment: Seq<char>,
    secret_binding: Seq<char>,
    domain: Seq<char>,
    context: Seq<char>,
)
    ensures
        ({
            let w = nullifier_witness_text(state, number, secret, commitment, secret_binding, domain, context);
            &&& has_line(w, value_text("state_"@ + "length"@, state[4]))
            &&& has_line(w, array_text("state_"@ + "data"@, state.subrange(0, 4)))
            &&& has_line(w, value_text("state_"@ + "entropy"@, state[5]))
            &&& has_line(w, array_text("state_"@ + "siblings"@, state.subrange(6, 10)))
            &&& has_line(w, value_text("number_"@ + "length"@, number[4]))
            &&& has_line(w, array_text("number_"@ + "data"@, number.subrange(0, 4)))
            &&& has_line(w, value_text("number_"@ + "entropy"@, number[5]))
            &&& has_line(w, array_text("number_"@ + "siblings"@, number.subrange(6, 10)))
            &&& has_line(w, value_text("secret"@, secret))
            &&& has_line(w, value_text("commitment"@, commitment))
            &&& has_line(w, value_text("secret_binding"@, secret_binding))
            &&& has_line(w, value_text("domain"@, domain))
            &&& has_line(w, value_text("context"@, context))
        }),
{
    broadcast use lemma_bytes_line, lemma_value_line, lemma_array_line;
    let blocks = seq![
        value_text("state_"@ + "length"@, state[4]),
        array_text("state_"@ + "data"@, state.subrange(0, 4)),
        value_text("state_"@ + "entropy"@, state[5]),
        array_text("state_"@ + "siblings"@, state.subrange(6, 10)),
        value_text("number_"@ + "length"@, number[4]),
        array_text("number_"@ + "data"@, number.subrange(0, 4)),
        value_text("number_"@ + "entropy"@, number[5]),
        array_text("number_"@ + "siblings"@, number.subrange(6, 10)),
        value_text("secret"@, secret),
        value_text("commitment"@, commitment),
        value_text("secret_binding"@, secret_binding),
        value_text("domain"@, domain),
        value_text("context"@, context),
    ];
    assert forall|k: int| 0 <= k < blocks.len() implies #[trigger] whole_lines(blocks[k]) by {}
    assert(blocks_text(blocks) =~= nullifier_witness_text(state, number, secret, commitment, secret_binding, domain, context)) by {
        reveal_with_fuel(blocks_text, 14);
    }
    lemma_has_block(blocks, 0);
    lemma_has_block(blocks, 1);
    lemma_has_block(blocks, 2);
    lemma_has_block(blocks, 3);
    lemma_has_block(blocks, 4);
    lemma_has_block(blocks, 5);
    lemma_has_block(blocks, 6);
    lemma_has_block(blocks, 7);
    lemma_has_block(blocks, 8);
    lemma_has_block(blocks, 9);
    lemma_has_block(blocks, 10);
    lemma_has_block(blocks, 11);
    lemma_has_block(blocks, 12);
}

/// The registration's witness holds each inner proof and its key under the
/// name of the circuit it came from, in the order Security Object, data
/// group, attributes, anchor, then every binding under its own name, today's
/// date, the root under the name given for it, the domain and the context.
pub proof fn lemma_registration_witness_names(
    keys: Seq<Seq<u8>>,
    proofs: Seq<Seq<u8>>,
    econtent_binding: Seq<char>,
    dsc_commitment: Seq<char>,
    secret_binding: Seq<char>,
    dg_binding: Seq<char>,
    commitment: Seq<char>,
    root_name: Seq<char>,
    root: Seq<char>,
    domain: Seq<char>,
    context: Seq<char>,
)
    ensures
        ({
            let w = registration_witness_text(keys, proofs, econtent_binding, dsc_commitment, secret_binding, dg_binding, commitment, root_name, root, domain, context);
            &&& has_line(w, array_text("sod_key"@, field_element_strings(keys[0])))
            &&& has_line(w, array_text("sod_proof"@, field_element_strings(proofs[0])))
            &&& has_line(w, array_text("dg_extract_key"@, field_element_strings(keys[1])))
            &&& has_line(w, array_text("dg_extract_proof"@, field_element_strings(proofs[1])))
            &&& has_line(w, array_text("attributes_key"@, field_element_strings(keys[2])))
            &&& has_line(w, array_text("attributes_proof"@, field_element_strings(proofs[2])))
            &&& has_line(w, array_text("anchor_key"@, field_element_strings(keys[3])))
            &&& has_line(w, array_text("anchor_proof"@, field_element_strings(proofs[3])))
            &&& has_line(w, value_text("econtent_binding"@, econtent_binding))
            &&& has_line(w, value_text("dsc_commitment"@, dsc_commitment))
            &&& has_line(w, value_text("secret_binding"@, secret_binding))
            &&& has_line(w, value_text("dg_binding"@, dg_binding))
            &&& has_line(w, value_text("commitment"@, commitment))
            &&& has_line(w, value_text("current_yyyymmdd"@, "20260725"@))
            &&& has_line(w, value_text(root_name, root))
            &&& has_line(w, value_text("domain"@, domain))
            &&& has_line(w, value_text("context"@, context))
        }),
{
    broadcast use lemma_bytes_line, lemma_value_line, lemma_array_line;
    reveal_strlit("20260725");
    let blocks = seq![
        array_text("sod_key"@, field_element_strings(keys[0])),
        array_text("sod_proof"@, field_element_strings(proofs[0])),
        array_text("dg_extract_key"@, field_element_strings(keys[1])),
        array_text("dg_extract_proof"@, field_element_strings(proofs[1])),
        array_text("attributes_key"@, field_element_strings(keys[2])),
        array_text("attributes_proof"@, field_element_strings(proofs[2])),
        array_text("anchor_key"@, field_element_strings(keys[3])),
        array_text("anchor_proof"@, field_element_strings(proofs[3])),
        value_text("econtent_binding"@, econtent_binding),
        value_text("dsc_commitment"@, dsc_commitment),
        value_text("secret_binding"@, secret_binding),
        value_text("dg_binding"@, dg_binding),
        value_text("commitment"@, commitment),
        value_text("current_yyyymmdd"@, "20260725"@),
        value_text(root_name, root),
        value_text("domain"@, domain),
        value_text("context"@, context),
    ];
    assert forall|k: int| 0 <= k < blocks.len() implies #[trigger] whole_lines(blocks[k]) by {}
    assert(blocks_text(blocks) =~= registration_witness_text(keys, proofs, econtent_binding, dsc_commitment, secret_binding, dg_binding, commitment, root_name, root, domain, context)) by {
        reveal_with_fuel(blocks_text, 18);
    }
    lemma_has_block(blocks, 0);
    lemma_has_block(blocks, 1);
    lemma_has_block(blocks, 2);
    lemma_has_block(blocks, 3);
    lemma_has_block(blocks, 4);
    lemma_has_block(blocks, 5);
    lemma_has_block(blocks, 6);
    lemma_has_block(blocks, 7);
    lemma_has_block(blocks, 8);
    lemma_has_block(blocks, 9);
    lemma_has_block(blocks, 10);
    lemma_has_block(blocks, 11);
    lemma_has_block(blocks, 12);
    lemma_has_block(blocks, 13);
    lemma_has_block(blocks, 14);
    lemma_has_block(blocks, 15);
    lemma_has_block(blocks, 16);
}

/// The session's witness holds the age check's key and proof and the
/// membership check's under their names, the commitment, and the statements
/// they prove: birth date field 5 between 0 and 20080725, eighteen years
/// before today's 20260725, and nationality field 4 in the list of the root
/// given; then the domain and the context.
pub proof fn lemma_session_witness_names(
    compare_key: Seq<u8>,
    compare_proof: Seq<u8>,
    member_key: Seq<u8>,
    member_proof: Seq<u8>,
    commitment: Seq<char>,
    set_root: Seq<char>,
    domain: Seq<char>,
    context: Seq<char>,
)
    ensures
        ({
            let w = session_witness_text(compare_key, compare_proof, member_key, member_proof, commitment, set_root, domain, context);
            &&& has_line(w, array_text("compare_key"@, field_element_strings(compare_key)))
            &&& has_line(w, array_text("compare_proof"@, field_element_strings(compare_proof)))
            &&& has_line(w, array_text("member_key"@, field_element_strings(member_key)))
            &&& has_line(w, array_text("member_proof"@, field_element_strings(member_proof)))
            &&& has_line(w, value_text("commitment"@, commitment))
            &&& has_line(w, value_text("compare_field_id"@, "5"@))
            &&& has_line(w, value_text("minimum"@, "0"@))
            &&& has_line(w, value_text("maximum"@, "20080725"@))
            &&& has_line(w, value_text("member_field_id"@, "4"@))
            &&& has_line(w, value_text("set_root"@, set_root))
            &&& has_line(w, value_text("domain"@, domain))
            &&& has_line(w, value_text("context"@, context))
        }),
{
    broadcast use lemma_bytes_line, lemma_value_line, lemma_array_line;
    reveal_strlit("5");
    reveal_strlit("0");
    reveal_strlit("20080725");
    reveal_strlit("4");
    let blocks = seq![
        array_text("compare_key"@, field_element_strings(compare_key)),
        array_text("compare_proof"@, field_element_strings(compare_proof)),
        array_text("member_key"@, field_element_strings(member_key)),
        array_text("member_proof"@, field_element_strings(member_proof)),
        value_text("commitment"@, commitment),
        value_text("compare_field_id"@, "5"@),
        value_text("minimum"@, "0"@),
        value_text("maximum"@, "20080725"@),
        value_text("member_field_id"@, "4"@),
        value_text("set_root"@, set_root),
        value_text("domain"@, domain),
        value_text("context"@, context),
    ];
    assert forall|k: int| 0 <= k < blocks.len() implies #[trigger] whole_lines(blocks[k]) by {}
    assert(blocks_text(blocks) =~= session_witness_text(compare_key, compare_proof, member_key, member_proof, commitment, set_root, domain, context)) by {
        reveal_with_fuel(blocks_text, 13);
    }
    lemma_has_block(blocks, 0);
    lemma_has_block(blocks, 1);
    lemma_has_block(blocks, 2);
    lemma_has_block(blocks, 3);
    lemma_has_block(blocks, 4);
    lemma_has_block(blocks, 5);
    lemma_has_block(blocks, 6);
    lemma_has_block(blocks, 7);
    lemma_has_block(blocks, 8);
    lemma_has_block(blocks, 9);
    lemma_has_block(blocks, 10);
    lemma_has_block(blocks, 11);
}

/// The tree tool's witness holds the leaves, padded with the empty leaf to
/// sixteen, the place of the leaf whose path is asked for, and the depth.
pub proof fn lemma_tree_witness_names(
    leaves: Seq<Seq<char>>,
    index: nat,
    depth: nat,
)
    ensures
        ({
            let w = tree_witness_text(leaves, index, depth);
            &&& has_line(w, array_text("leaves"@, padded_leaves(leaves)))
            &&& has_line(w, value_text("index"@, decimal(index)))
            &&& has_line(w, value_text("depth"@, decimal(depth)))
        }),
{
    broadcast use lemma_bytes_line, lemma_value_line, lemma_array_line;
    let blocks = seq![
        array_text("leaves"@, padded_leaves(leaves)),
        value_text("index"@, decimal(index)),
        value_text("depth"@, decimal(depth)),
    ];
    assert forall|k: int| 0 <= k < blocks.len() implies #[trigger] whole_lines(blocks[k]) by {}
    assert(blocks_text(blocks) =~= tree_witness_text(leaves, index, depth)) by {
        reveal_with_fuel(blocks_text, 4);
    }
    lemma_has_block(blocks, 0);
    lemma_has_block(blocks, 1);
    lemma_has_block(blocks, 2);
}

/// A packed country code reads back as the number its three bytes spell
/// big endian, and the three entries after it are zero.
pub proof fn lemma_packed_country_value(code: Seq<u8>)
    requires
        code.len() == 3,
    ensures
        numeric_value(packed_country_entries(code)[0]) == Some(crate::bigint::be_value(code)),
        packed_country_entries(code).len() == 4,
        forall|k: int| 1 <= k < 4 ==> numeric_value(#[trigger] packed_country_entries(code)[k]) == Some(0nat),
{
    let v = (code[0] * 65536 + code[1] * 256 + code[2]) as nat;
    assert(v <= u64::MAX);
    lemma_numeric_reads_decimal(v);
    lemma_numeric_reads_decimal(0);
    assert(decimal(0) =~= seq!['0']);
    let d2 = code.drop_last();
    let d1 = d2.drop_last();
    let d0 = d1.drop_last();
    assert(d0.len() == 0);
    assert(d1.last() == code[0]);
    assert(d2.last() == code[1]);
    assert(crate::bigint::be_value(d0) == 0);
    assert(crate::bigint::be_value(d1) == crate::bigint::be_value(d0) * 256 + code[0]);
    assert(crate::bigint::be_value(d2) == crate::bigint::be_value(d1) * 256 + code[1]);
    assert(crate::bigint::be_value(code) == crate::bigint::be_value(d2) * 256 + code[2]);
}

} // verus!
