//! Witness material for zero knowledge proofs over ICAO Doc 9303 travel
//! documents: DER structures, big integer limbs and the text formats the
//! circuits read.
pub mod bigint;
pub mod der;
pub mod text;
pub mod lines;
pub mod cert;
pub mod ec;
pub mod icao;
pub mod bundle;
pub mod rsa;
pub mod fixture;
pub mod manifest;
pub mod groth16;
