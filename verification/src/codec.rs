//! Bytes in and out of the store: the record that `bincode` writes for a
//! leaf's fields, the `zstd` frame around it, and the CRC32 of a byte string.
//! The contracts in this file are taken from those crates' sources and
//! documentation and are not proved.

use crate::bytes::opt_view;
use vstd::prelude::*;

verus! {

/// The pairs of a vector as plain values.
pub open spec fn pairs_view(v: Seq<(Vec<u8>, Vec<u8>)>) -> Seq<(Seq<u8>, Seq<u8>)> {
    Seq::new(v.len(), |i: int| (v[i].0@, v[i].1@))
}

/// The fields of a decoded record as plain values.
pub open spec fn fields_view(
    r: Option<(Vec<u8>, Option<Vec<u8>>, u64, Vec<(Vec<u8>, Vec<u8>)>, u64)>,
) -> Option<(Seq<u8>, Option<Seq<u8>>, u64, Seq<(Seq<u8>, Seq<u8>)>, u64)> {
    match r {
        Some(f) => Some((f.0@, opt_view(f.1), f.2, pairs_view(f.3@), f.4)),
        None => None,
    }
}

/// The bytes that `bincode::serialize` writes for a leaf's low key, high
/// key, prefix length, entries and size, or nothing where it fails.
pub uninterp spec fn record_bytes(
    lo: Seq<u8>,
    hi: Option<Seq<u8>>,
    prefix_length: u64,
    entries: Seq<(Seq<u8>, Seq<u8>)>,
    size: u64,
) -> Option<Seq<u8>>;

/// The fields that `bincode::deserialize` reads from `bytes`, or nothing
/// where it fails.
pub uninterp spec fn record_fields(bytes: Seq<u8>) -> Option<
    (Seq<u8>, Option<Seq<u8>>, u64, Seq<(Seq<u8>, Seq<u8>)>, u64),
>;

/// The frame that `zstd::stream::encode_all` makes of `data` at `level`, or
/// nothing where it fails.
pub uninterp spec fn zstd_frame(data: Seq<u8>, level: i32) -> Option<Seq<u8>>;

/// What `zstd::stream::decode_all` reads out of `frame`, or nothing where it
/// fails.
pub uninterp spec fn zstd_content(frame: Seq<u8>) -> Option<Seq<u8>>;

/// The CRC32 that `crc32fast::hash` computes of `data`.
pub uninterp spec fn crc32_of(data: Seq<u8>) -> u32;

/// `bincode::serialize` on the fields of a leaf, in the order low key, high
/// key, prefix length, entries, size. What it writes can be read back:
/// `bincode::deserialize` gives the same fields again.
#[verifier::external_body]
pub(crate) fn encode_record(
    lo: &Vec<u8>,
    hi: &Option<Vec<u8>>,
    prefix_length: u64,
    entries: &Vec<(Vec<u8>, Vec<u8>)>,
    size: u64,
) -> (r: Option<Vec<u8>>)
    ensures
        opt_view(r) == record_bytes(lo@, opt_view(*hi), prefix_length, pairs_view(entries@), size),
        r matches Some(b) ==> record_fields(b@) == Some(
            (lo@, opt_view(*hi), prefix_length, pairs_view(entries@), size),
        ),
{
    bincode::serialize(&(lo, hi, prefix_length, entries, size)).ok()
}

/// `bincode::deserialize` to the fields of a leaf.
#[verifier::external_body]
pub(crate) fn decode_record(bytes: &[u8]) -> (r: Option<
    (Vec<u8>, Option<Vec<u8>>, u64, Vec<(Vec<u8>, Vec<u8>)>, u64),
>)
    ensures
        fields_view(r) == record_fields(bytes@),
{
    bincode::deserialize(bytes).ok()
}

/// `zstd::stream::encode_all`. The frame it makes decodes to the data it was
/// made of.
#[verifier::external_body]
pub(crate) fn compress(data: &[u8], level: i32) -> (r: Option<Vec<u8>>)
    ensures
        opt_view(r) == zstd_frame(data@, level),
        r matches Some(f) ==> zstd_content(f@) == Some(data@),
{
    zstd::stream::encode_all(data, level).ok()
}

/// `zstd::stream::decode_all`.
#[verifier::external_body]
pub(crate) fn decompress(frame: &[u8]) -> (r: Option<Vec<u8>>)
    ensures
        opt_view(r) == zstd_content(frame@),
{
    zstd::stream::decode_all(frame).ok()
}

/// `crc32fast::hash`.
#[verifier::external_body]
pub(crate) fn crc32(data: &[u8]) -> (r: u32)
    ensures
        r == crc32_of(data@),
{
    crc32fast::hash(data)
}

} // verus!
