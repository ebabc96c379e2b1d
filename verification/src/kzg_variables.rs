//! The building blocks of the scheme: the trusted adapter around the
//! curve library, the polynomial engine, and the reference-string
//! generator.
pub mod curve;
pub mod polynomial;
pub mod trusted_setup;
