//! Dorea storage: a verified core for a networked key-value store.
//!
//! The crate covers the value model and inline literal grammar, the command
//! protocol engine, the database manager with its persistence codec, and the
//! connection supervisor's admission and registry logic.  Network transport,
//! disk I/O and logging live outside the library.

pub mod codec;
pub mod database;
pub mod handle;
pub mod kv;
pub mod server;
pub mod value;

use vstd::prelude::*;

verus! {

/// Current storage format version.
pub const DOREA_VERSION: &'static str = "0.3.0";

/// The hex digest an input hashes to.
pub uninterp spec fn md5_hex_of(data: Seq<char>) -> Seq<char>;

/// Relies on `md5::compute` over the tag's bytes, and on `md5::Digest`'s
/// `LowerHex` formatting, which prints each of the 16 digest bytes as two
/// hex digits; the result depends on the input characters alone.
#[verifier::external_body]
fn version_digest(tag: &str) -> (r: String)
    ensures
        r@ == md5_hex_of(tag@),
        r@.len() == 32,
{
    format!("{:x}", md5::compute(tag.as_bytes()))
}

/// The storage versions this build can load, each named by the digest of
/// its version tag.
pub fn compatible_versions() -> (r: Vec<String>)
    ensures
        r@.len() == 1,
        r@[0]@ == md5_hex_of("Dorea::0.3.0"@),
        r@[0]@.len() == 32,
{
    let d = version_digest("Dorea::0.3.0");
    let mut r: Vec<String> = Vec::new();
    r.push(d);
    r
}

/// Options a server is started with; consumed once at bind time.
pub struct ServerOption {
    pub hostname: String,
    pub port: u16,
    pub document_path: Option<String>,
    pub logger_level: String,
}

} // verus!
