//! The gzip step of tar.gz archives, through `flate2`.

use vstd::prelude::*;
use std::io::Write;
use flate2::write::GzEncoder;
use flate2::Compression;

verus! {

/// What `flate2`'s `GzEncoder` at the default compression level writes for
/// `data`: a gzip member with a fixed header (no time stamp, no name) and
/// the deflated data.
pub uninterp spec fn gzip_default(data: Seq<u8>) -> Seq<u8>;

/// `GzEncoder::new` over a `Vec` at `Compression::default()`, `write_all`
/// of `data`, then `finish`: writing into memory does not fail, and the
/// result is `gzip_default(data)`.
#[verifier::external_body]
fn gzip_bytes(data: &[u8]) -> (gz: Option<Vec<u8>>)
    ensures
        gz is Some,
        gz matches Some(g) ==> g@ == gzip_default(data@),
{
    let mut encoder = GzEncoder::new(Vec::new(), Compression::default());
    match encoder.write_all(data) {
        Ok(()) => encoder.finish().ok(),
        Err(_) => None,
    }
}

/// The tar.gz archive of a directory from its tar archive `tar`: the tar
/// bytes gzipped at the default level.
pub fn targz_of_tar(tar: &Vec<u8>) -> (gz: Vec<u8>)
    ensures
        gz@ == gzip_default(tar@),
{
    match gzip_bytes(tar.as_slice()) {
        Some(g) => g,
        None => {
            proof {
                assert(false);
            }
            Vec::new()
        },
    }
}

} // verus!
