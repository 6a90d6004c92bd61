//! An Edwards-curve signature engine over caller-supplied curve parameters: modular
//! arithmetic, the twisted Edwards group law, point encoding, and key derivation, signing
//! and verification, each with a contract proved by Verus.

pub mod scalar;
pub mod modular;
pub mod curve;
pub mod encoding;
pub mod protocol;
pub mod number_theory;
pub mod theorems;
pub mod containers;
pub mod course;
