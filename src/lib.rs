//! Links between documentation fragments and code fragments, kept honest by
//! content fingerprints.
//!
//! A fragment is named by a compact reference such as `src/main.rs:10-20@5-15`
//! (see [`partition`]); its text is resolved afresh against the file each time,
//! and its fingerprint (see [`fingerprint`]) tells whether it drifted.
pub mod check;
pub mod config;
pub mod docs;
pub mod fingerprint;
pub mod partition;
pub mod text;
