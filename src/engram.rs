//! The per-file record of the memory store, and its compressed skeleton.
use vstd::prelude::*;
use crate::filetype::FileType;

verus! {

/// One retrievable segment of a file: its byte range in the file, its
/// embedding, and how often it has been recalled.
#[derive(Debug, Clone)]
pub struct Chunk {
    pub id: usize,
    pub start_byte: usize,
    pub end_byte: usize,
    pub embedding: Vec<i16>,
    pub access_count: u32,
}

/// A directed, weighted association from one file to another. The strength
/// is in units of `1 / SCALE`.
#[derive(Debug, Clone)]
pub struct Synapse {
    pub target: String,
    pub strength: u32,
}

/// The record of one indexed file.
#[derive(Debug, Clone)]
pub struct Engram {
    pub path: String,
    pub file_type: FileType,
    pub hash: String,
    pub skeleton_compressed: Vec<u8>,
    /// Inverted index: keyword and the ids of the chunks it names.
    pub entity_map: Vec<(String, Vec<usize>)>,
    pub synapses: Vec<Synapse>,
    pub chunks: Vec<Chunk>,
}

/// Why a file could not be indexed.
#[derive(Debug, Clone)]
pub enum IndexError {
    /// The file could not be read.
    Io(String),
    /// The skeleton could not be compressed.
    Compression(String),
    /// The file does not hold text.
    Encoding(String),
    /// The embedding provider gave a vector the store cannot hold.
    Embedding(String),
}

/// The zstd level at which skeletons are compressed.
pub const COMPRESSION_LEVEL: i32 = 3;

/// What `zstd::encode_all` makes of `data` at `level`.
pub uninterp spec fn zstd_frame(data: Seq<u8>, level: int) -> Seq<u8>;

/// What `format!("{:?}", Path::new(s))` makes of the path `s`: it quoted and
/// escaped.
pub uninterp spec fn path_debug(s: Seq<char>) -> Seq<char>;

/// Relies on `zstd::encode_all`: it compresses all of its input at the given
/// level into one zstd frame, and returns that frame. It succeeds on every
/// input: the level is clamped rather than refused, the dictionary is empty,
/// and reading from a slice and writing into a `Vec` cannot fail.
#[verifier::external_body]
fn zstd_encode_all(data: &[u8], level: i32) -> (r: Result<Vec<u8>, String>)
    ensures
        r is Ok,
        r matches Ok(v) ==> v@ == zstd_frame(data@, level as int),
{
    zstd::encode_all(data, level).map_err(|e| e.to_string())
}

/// Relies on std's `Debug` for `Path` (through `format!`): the path in
/// quotes, with quotes, backslashes and control characters escaped.
#[verifier::external_body]
fn debug_path(s: &str) -> (r: String)
    ensures
        r@ == path_debug(s@),
{
    format!("{:?}", std::path::Path::new(s))
}

/// The placeholder stored where a content hash is meant to go.
pub open spec fn hash_placeholder() -> Seq<char> {
    "SHA256_STUB"@
}

/// The skeleton text of a file: a fixed template naming it.
pub open spec fn skeleton_text(path: Seq<char>) -> Seq<char> {
    "Skeleton for "@ + path_debug(path)
}

/// The skeleton text of the file at `path`.
pub fn skeleton_of(path: &str) -> (r: String)
    ensures
        r@ == skeleton_text(path@),
{
    let quoted = debug_path(path);
    let s = String::from_str("Skeleton for ");
    s.concat(quoted.as_str())
}

/// Compresses the skeleton text of the file at `path` into a zstd frame at
/// `COMPRESSION_LEVEL`. The compressor does not fail on such input; its
/// error type is kept, mapped to `IndexError::Compression`.
pub fn compress_skeleton(path: &str) -> (r: Result<Vec<u8>, IndexError>)
    ensures
        r is Ok,
        r matches Ok(v) ==> v@ == zstd_frame(
            vstd::utf8::encode_utf8(skeleton_text(path@)),
            COMPRESSION_LEVEL as int,
        ),
        r matches Err(e) ==> e is Compression,
{
    let text = skeleton_of(path);
    let bytes = text.as_str().as_bytes();
    match zstd_encode_all(bytes, COMPRESSION_LEVEL) {
        Ok(v) => Ok(v),
        Err(msg) => Err(IndexError::Compression(msg)),
    }
}

} // verus!
