//! A recursively folding argument of knowledge over Z/QZ: modular linear
//! algebra, the gadget codec, hash-derived challenges, the commitment setup and
//! the round functions of prover and verifier.

pub mod params;
pub mod linalg;
pub mod gadget;
pub mod fiat_shamir;
pub mod protocols;
pub mod setup;
pub mod prover;
pub mod verification;
