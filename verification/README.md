# zkicao

Witness material for zero knowledge proofs over ICAO Doc 9303 travel
documents, written in Verus. Every function of the library carries a
contract, and Verus proves it of every function but four thin wrappers
around outside code, whose contracts are taken on trust and say in their
doc comments what they claim: SHA-256 (`sha2`), JSON serialisation
(`serde_json`), `String::from_utf8_lossy` and `String::push`.

## Layout

- `src/der.rs`: DER encoding and reading, with the law that a TLV reads back
  as it was written.
- `src/bigint.rs`: the big integer arithmetic RSA witnesses need: long
  division for the Barrett parameter and the split into 120 bit limbs, with
  the law that the limbs spell the number.
- `src/cert.rs`, `src/icao.rs`: the Document Signer certificate body, DG1,
  DG15, the Security Object and the signed attributes, each with the offsets
  a circuit reads and a proof that they land on the right bytes.
- `src/ec.rs`, `src/rsa.rs`: reading keys and signatures as openssl prints
  them, low-s normalization, and the RSA limbs and reduction parameter.
- `src/text.rs`: decimal, hexadecimal and quoted text, whitespace, search
  and number parsing as std defines them.
- `src/bundle.rs`: the witness of every circuit in the proving chain and the
  reading of what nargo prints.
- `src/fixture.rs`: the Noir fixture library of synthetic documents.
- `src/manifest.rs`, `src/manifest/json.rs`: the public input layout, read
  from the compiled ABIs with a reader for the JSON shapes they take.
- `src/groth16.rs`: the decisions around Groth16 witness generation and
  proving.
- `app/`: the program around the library: running openssl, nargo, bb and the
  Groth16 tools, and the files.
- `tests/`: the library's tests.
