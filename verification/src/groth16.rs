//! Proving a zkICAO predicate with Groth16.
//!
//! A holder proves on their own device, so the path a proof takes matters as
//! much as the circuit: the circuit graph circom emits, witness generation,
//! and the proving key held once rather than reloaded per proof. What is
//! decided here is what goes to the witness calculator and the prover and
//! what their answers mean; the calls themselves are the caller's.
//!
//! Nothing here holds key material or policy. The proving key belongs to the
//! deployment that ran its own phase 2 ceremony, and the domain, the bounds
//! and the sets belong to the verifier, so both are arguments rather than
//! constants.
use std::collections::HashMap;
use vstd::prelude::*;
use vstd::string::*;
use vstd::utf8::{decode_utf8, valid_utf8};

verus! {

/// A JSON value, carried through to the serialiser and never inspected.
#[verifier::external_type_specification]
#[verifier::external_body]
pub struct ExValue(serde_json::Value);

/// Which statement a proof makes about a committed field. The names are the
/// predicate instantiations of the Noir tree, so a caller names the same
/// statement here that it would name there.
#[derive(Clone, Copy, PartialEq, Eq, Structural, Debug)]
pub enum Statement {
    Compare,
    Member,
    Reveal,
}

impl Statement {
    /// The statement's name in the circuit tree.
    pub open spec fn name_spec(self) -> Seq<char> {
        match self {
            Statement::Compare => "compare"@,
            Statement::Member => "member"@,
            Statement::Reveal => "reveal"@,
        }
    }

    pub fn name(self) -> (name: &'static str)
        ensures
            name@ == self.name_spec(),
    {
        match self {
            Statement::Compare => "compare",
            Statement::Member => "member",
            Statement::Reveal => "reveal",
        }
    }
}

/// The inputs a predicate takes, as field elements in decimal, keyed by the
/// signal names the circuit declares. Decimal strings rather than integers
/// because a field element does not fit any Rust integer.
pub type Inputs = HashMap<String, serde_json::Value>;

/// Why a proof could not be made.
#[derive(Debug)]
pub enum Failure {
    /// The witness could not be solved or proved, which means the inputs
    /// do not satisfy the circuit: an opening that does not belong to the
    /// commitment, or a value outside the range.
    Unsatisfied(String),
    /// The circuit graph could not be read.
    Graph(String),
    /// The inputs could not be serialised.
    Malformed(String),
}

impl Failure {
    /// What the failure says to a reader.
    pub open spec fn message_spec(&self) -> Seq<char> {
        match self {
            Failure::Unsatisfied(reason) => "the inputs do not satisfy the circuit: "@ + reason@,
            Failure::Graph(reason) => "cannot read the circuit graph: "@ + reason@,
            Failure::Malformed(reason) => "the inputs are malformed: "@ + reason@,
        }
    }

    /// The failure as a reader sees it.
    pub fn message(&self) -> (text: String)
        ensures
            text@ == self.message_spec(),
    {
        match self {
            Failure::Unsatisfied(reason) => {
                let mut text = String::from_str("the inputs do not satisfy the circuit: ");
                text.append(reason.as_str());
                text
            },
            Failure::Graph(reason) => {
                let mut text = String::from_str("cannot read the circuit graph: ");
                text.append(reason.as_str());
                text
            },
            Failure::Malformed(reason) => {
                let mut text = String::from_str("the inputs are malformed: ");
                text.append(reason.as_str());
                text
            },
        }
    }
}

/// A character as serde_json writes it inside a JSON string: a quote or a
/// backslash behind a backslash, backspace, tab, line feed, form feed and
/// carriage return by their short escapes, the other controls below 0x20 as
/// `\u00` and two lower case hexadecimal digits, anything else as itself.
pub open spec fn json_char(c: char) -> Seq<char> {
    let n = c as u32;
    if c == '"' {
        seq!['\\', '"']
    } else if c == '\\' {
        seq!['\\', '\\']
    } else if n == 8 {
        seq!['\\', 'b']
    } else if n == 9 {
        seq!['\\', 't']
    } else if n == 10 {
        seq!['\\', 'n']
    } else if n == 12 {
        seq!['\\', 'f']
    } else if n == 13 {
        seq!['\\', 'r']
    } else if n < 0x20 {
        seq!['\\', 'u', '0', '0'] + crate::text::hex_pair(n as u8)
    } else {
        seq![c]
    }
}

/// The characters of `s`, each escaped as in a JSON string.
pub open spec fn json_escaped(s: Seq<char>) -> Seq<char>
    decreases s.len(),
{
    if s.len() == 0 {
        seq![]
    } else {
        json_escaped(s.drop_last()) + json_char(s.last())
    }
}

/// The name of an object member as serde_json writes it: the key, escaped,
/// in quotes, then the colon.
pub open spec fn member_name(key: Seq<char>) -> Seq<char> {
    seq!['"'] + json_escaped(key) + seq!['"', ':']
}

/// `part` occurs somewhere in `text`.
pub open spec fn occurs(text: Seq<char>, part: Seq<char>) -> bool {
    exists|i: int|
        0 <= i && i + part.len() <= text.len() && #[trigger] text.subrange(i, i + part.len())
            == part
}

/// What is known of the JSON object serde_json writes for `inputs`: braces
/// around it, and every key's member name in it. The order of the members
/// is not known.
pub open spec fn json_object_of(text: Seq<char>, inputs: Map<String, serde_json::Value>) -> bool {
    &&& text.len() >= 2
    &&& text[0] == '{'
    &&& text.last() == '}'
    &&& forall|k: String| #[trigger] inputs.dom().contains(k) ==> occurs(text, member_name(k@))
}

/// `serde_json::to_string` on the inputs: their JSON object. It fails only
/// where a `Serialize` impl fails or a map has keys that are not strings;
/// the keys here are strings and a `serde_json::Value` always serialises,
/// and writing into memory cannot fail, so it succeeds. The order of the
/// object's entries follows the map's own walk, which each process seeds,
/// so the text is stated up to that order: an object in braces, in which
/// each key is written as a quoted, escaped member name followed by `:`.
#[verifier::external_body]
fn inputs_json(inputs: &Inputs) -> (json: Result<String, String>)
    ensures
        json is Ok,
        json matches Ok(text) ==> json_object_of(text@, inputs@),
{
    serde_json::to_string(inputs).map_err(|e| e.to_string())
}

/// A circuit's graph, loaded once and used for every proof it makes.
pub struct Circuit {
    statement: Statement,
    graph: Vec<u8>,
}

/// The message of an empty graph.
pub open spec fn empty_graph_message(statement: Statement) -> Seq<char> {
    "the graph for "@ + statement.name_spec() + " is empty"@
}

impl Circuit {
    /// The statement the circuit proves.
    pub closed spec fn statement_spec(&self) -> Statement {
        self.statement
    }

    /// The graph's bytes.
    pub closed spec fn graph_spec(&self) -> Seq<u8> {
        self.graph@
    }

    /// Takes the graph bytes rather than a path, so a caller can embed it,
    /// hold it in an asset bundle, or read it from wherever it keeps one.
    pub fn new(statement: Statement, graph: Vec<u8>) -> (circuit: Result<Self, Failure>)
        ensures
            graph@.len() > 0 ==> (circuit matches Ok(c) && c.statement_spec() == statement
                && c.graph_spec() == graph@),
            graph@.len() == 0 ==> (circuit matches Err(Failure::Graph(reason)) && reason@
                == empty_graph_message(statement)),
    {
        if graph.len() == 0 {
            let mut reason = String::from_str("the graph for ");
            reason.append(statement.name());
            reason.append(" is empty");
            return Err(Failure::Graph(reason));
        }
        Ok(Self { statement, graph })
    }

    pub fn statement(&self) -> (statement: Statement)
        ensures
            statement == self.statement_spec(),
    {
        self.statement
    }

    /// The graph, for the witness calculator.
    pub fn graph(&self) -> (graph: &[u8])
        ensures
            graph@ == self.graph_spec(),
    {
        self.graph.as_slice()
    }

    /// The JSON the witness calculator takes for one set of inputs. The
    /// inputs are JSON values keyed by strings, which always serialise.
    pub fn witness_request(&self, inputs: &Inputs) -> (request: Result<String, Failure>)
        ensures
            request is Ok,
            request matches Ok(text) ==> json_object_of(text@, inputs@),
    {
        Self::request_outcome(inputs_json(inputs))
    }

    /// What the serialiser's answer means for the request: its JSON as is,
    /// or its error as malformed input.
    pub fn request_outcome(json: Result<String, String>) -> (request: Result<String, Failure>)
        ensures
            (match (json, request) {
                (Ok(text), Ok(r)) => r@ == text@,
                (Err(reason), Err(Failure::Malformed(r))) => r@ == reason@,
                _ => false,
            }),
    {
        match json {
            Ok(text) => Ok(text),
            Err(reason) => Err(Failure::Malformed(reason)),
        }
    }

    /// What the witness calculator's answer means. A failure there is the
    /// useful one: the inputs do not satisfy the circuit, so the opening
    /// does not belong to the commitment or the value is outside the
    /// bounds. That is a real answer, not an error to be retried.
    pub fn witness_outcome(outcome: Result<Vec<u8>, String>) -> (witness: Result<Vec<u8>, Failure>)
        ensures
            (match (outcome, witness) {
                (Ok(w), Ok(v)) => w@ == v@,
                (Err(reason), Err(Failure::Unsatisfied(r))) => r@ == reason@,
                _ => false,
            }),
    {
        match outcome {
            Ok(w) => Ok(w),
            Err(reason) => Err(Failure::Unsatisfied(reason)),
        }
    }
}

// ---------------------------------------------------------------------------
// Proving, as the prover's C interface answers.
/// The prover's codes: anything but zero is a failure, and the two that are
/// distinguished say something a caller can act on.
pub const PROVER_OK: i32 = 0;

pub const PROVER_ERROR_SHORT_BUFFER: i32 = 2;

pub const PROVER_INVALID_WITNESS_LENGTH: i32 = 3;

/// The room given to the prover's error message.
pub const ERROR_MESSAGE_CAPACITY: usize = 1024;

/// The room first given to a proof and to its public signals: enough for a
/// Groth16 proof and a handful of signals, which usually settles it in one
/// call.
pub const FIRST_BUFFER: usize = 8192;

/// A proof and the public signals it was made over, both as JSON, which is
/// the form snarkjs and the generated Solidity verifier take.
pub struct Proof {
    pub proof: String,
    pub public_signals: String,
}

/// The text `String::from_utf8_lossy` makes of some bytes: invalid
/// sequences replaced by U+FFFD.
pub uninterp spec fn utf8_lossy(bytes: Seq<u8>) -> Seq<char>;

/// `String::from_utf8_lossy` from std, made owned. Its result depends on
/// the bytes alone, and bytes that are valid UTF-8 come back as the text
/// they encode.
#[verifier::external_body]
fn lossy_text(bytes: &[u8]) -> (text: String)
    ensures
        text@ == utf8_lossy(bytes@),
        valid_utf8(bytes@) ==> text@ == decode_utf8(bytes@),
{
    String::from_utf8_lossy(bytes).into_owned()
}

/// Signed C characters as bytes.
pub open spec fn as_bytes(buffer: Seq<i8>) -> Seq<u8> {
    buffer.map_values(|b: i8| b as u8)
}

/// Where the first zero byte is, or the end.
pub open spec fn terminator(bytes: Seq<u8>, i: int) -> int
    decreases bytes.len() - i,
{
    if i >= bytes.len() {
        bytes.len() as int
    } else if bytes[i] == 0 {
        i
    } else {
        terminator(bytes, i + 1)
    }
}

/// The text of a null terminated string in a buffer: the bytes before the
/// first zero, read leniently.
pub open spec fn message_text(buffer: Seq<i8>) -> Seq<char> {
    let bytes = as_bytes(buffer);
    utf8_lossy(bytes.take(terminator(bytes, 0)))
}

/// The prover writes a null terminated string into a buffer that may be
/// larger than the string, so the terminator is what marks the end.
pub fn message(buffer: &[i8]) -> (text: String)
    ensures
        text@ == message_text(buffer@),
{
    let mut bytes: Vec<u8> = Vec::new();
    let mut i: usize = 0;
    while i < buffer.len()
        invariant
            i <= buffer.len(),
            bytes@ == as_bytes(buffer@).take(i as int),
        decreases buffer.len() - i,
    {
        bytes.push(buffer[i] as u8);
        i += 1;
        proof {
            assert(bytes@ =~= as_bytes(buffer@).take(i as int));
        }
    }
    proof {
        assert(bytes@ =~= as_bytes(buffer@));
    }
    let mut end: usize = 0;
    while end < bytes.len() && bytes[end] != 0
        invariant
            end <= bytes.len(),
            terminator(bytes@, 0) == terminator(bytes@, end as int),
        decreases bytes.len() - end,
    {
        end += 1;
    }
    let mut before: Vec<u8> = Vec::new();
    let mut k: usize = 0;
    while k < end
        invariant
            k <= end <= bytes.len(),
            before@ == bytes@.take(k as int),
        decreases end - k,
    {
        before.push(bytes[k]);
        k += 1;
        proof {
            assert(before@ =~= bytes@.take(k as int));
        }
    }
    lossy_text(before.as_slice())
}

/// The first `size` bytes of the buffer, or all of it when it is shorter.
pub open spec fn bounded(buffer: Seq<i8>, size: u64) -> Seq<i8> {
    if size < buffer.len() {
        buffer.take(size as int)
    } else {
        buffer
    }
}

/// The size the prover reports is the buffer's rather than the text's, so
/// the text is read up to its terminator within that size.
pub fn text(buffer: &[i8], size: u64) -> (text: String)
    ensures
        text@ == message_text(bounded(buffer@, size)),
{
    let mut bounded_buffer: Vec<i8> = Vec::new();
    let mut i: usize = 0;
    while i < buffer.len() && (i as u64) < size
        invariant
            i <= buffer.len(),
            i <= size,
            bounded_buffer@ == buffer@.take(i as int),
        decreases buffer.len() - i,
    {
        bounded_buffer.push(buffer[i]);
        i += 1;
        proof {
            assert(bounded_buffer@ =~= buffer@.take(i as int));
        }
    }
    proof {
        assert(bounded_buffer@ =~= bounded(buffer@, size));
    }
    message(bounded_buffer.as_slice())
}

/// What one call of the prover leads to.
pub enum Attempt {
    /// The proof, with its public signals.
    Proved(Proof),
    /// The buffers were short; call again with these sizes.
    Grow { proof_size: u64, public_size: u64 },
    /// No proof.
    Refused(Failure),
}

/// The message of a witness made for another circuit.
pub open spec fn wrong_length_message() -> Seq<char> {
    "the witness does not have the length this proving key expects, so it was produced for another circuit"@
}

/// Decides what one call of the prover leads to, from its code, the sizes
/// it reported and the buffers it filled. The prover reports how much room
/// it needed, so only the first short answer is grown from; a second would
/// mean the prover is not reporting sizes.
pub fn after_call(
    attempt: usize,
    code: i32,
    proof: &[i8],
    proof_size: u64,
    public_signals: &[i8],
    public_size: u64,
    error: &[i8],
) -> (next: Attempt)
    ensures
        code == PROVER_OK ==> (next matches Attempt::Proved(p) && p.proof@ == message_text(
            bounded(proof@, proof_size),
        ) && p.public_signals@ == message_text(bounded(public_signals@, public_size))),
        code == PROVER_ERROR_SHORT_BUFFER && attempt == 0 ==> (next matches Attempt::Grow {
            proof_size: a,
            public_size: b,
        } && a == proof_size && b == public_size),
        code == PROVER_INVALID_WITNESS_LENGTH ==> (next matches Attempt::Refused(
            Failure::Unsatisfied(reason),
        ) && reason@ == wrong_length_message()),
        code != PROVER_OK && !(code == PROVER_ERROR_SHORT_BUFFER && attempt == 0) && code
            != PROVER_INVALID_WITNESS_LENGTH ==> (next matches Attempt::Refused(
            Failure::Unsatisfied(reason),
        ) && reason@ == message_text(error@)),
{
    if code == PROVER_OK {
        return Attempt::Proved(
            Proof { proof: text(proof, proof_size), public_signals: text(public_signals, public_size) },
        );
    }
    if code == PROVER_ERROR_SHORT_BUFFER && attempt == 0 {
        return Attempt::Grow { proof_size, public_size };
    }
    if code == PROVER_INVALID_WITNESS_LENGTH {
        return Attempt::Refused(
            Failure::Unsatisfied(
                String::from_str(
                    "the witness does not have the length this proving key expects, so it was produced for another circuit",
                ),
            ),
        );
    }
    Attempt::Refused(Failure::Unsatisfied(message(error)))
}

/// The failure when the prover asked for a larger buffer twice.
pub fn exhausted() -> (failure: Failure)
    ensures
        failure matches Failure::Unsatisfied(reason) && reason@
            == "rapidsnark asked for a larger buffer twice"@,
{
    Failure::Unsatisfied(String::from_str("rapidsnark asked for a larger buffer twice"))
}

} // verus!
