//! Errors raised while dividing a source into chunks.
use vstd::prelude::*;
use vstd::string::*;

verus! {

#[derive(Debug)]
pub enum ChunkError {
    Io(std::io::Error),
    InvalidChunkCount(String),
}

/// `msg` is the text that describes `e`.
pub open spec fn chunk_error_text(e: ChunkError, msg: Seq<char>) -> bool {
    match e {
        ChunkError::Io(err) => exists|t: String|
            to_string_from_display_ensures::<std::io::Error>(&err, t)
                && msg == "I/O error while dividing chunks: "@ + t@,
        ChunkError::InvalidChunkCount(m) => msg == "invalid number of chunks: "@ + m@,
    }
}

impl ChunkError {
    /// The text that describes this error.
    pub fn to_string(&self) -> (r: String)
        ensures
            chunk_error_text(*self, r@),
    {
        match self {
            ChunkError::Io(err) => {
                let t = err.to_string();
                String::from_str("I/O error while dividing chunks: ").concat(t.as_str())
            },
            ChunkError::InvalidChunkCount(msg) => {
                String::from_str("invalid number of chunks: ").concat(msg.as_str())
            },
        }
    }
}

impl From<std::io::Error> for ChunkError {
    fn from(err: std::io::Error) -> Self {
        ChunkError::Io(err)
    }
}

impl vstd::std_specs::convert::FromSpecImpl<std::io::Error> for ChunkError {
    open spec fn obeys_from_spec() -> bool {
        true
    }

    open spec fn from_spec(v: std::io::Error) -> Self {
        ChunkError::Io(v)
    }
}

} // verus!
