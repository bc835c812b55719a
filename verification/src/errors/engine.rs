//! Errors raised while configuring or running the engine.
use super::chunk::{chunk_error_text, ChunkError};
use super::processor::{processor_error_text, ProcessorError};
use vstd::prelude::*;
use vstd::string::*;

verus! {

#[derive(Debug)]
pub enum EngineError {
    InvalidArguments(String),
    ThreadPool(String),
    Chunk(ChunkError),
    Processor(ProcessorError),
}

/// `msg` is the text that describes `e`.
pub open spec fn engine_error_text(e: EngineError, msg: Seq<char>) -> bool {
    match e {
        EngineError::InvalidArguments(m) => msg == "invalid arguments: "@ + m@,
        EngineError::ThreadPool(m) => msg == "thread pool initialization failed: "@ + m@,
        EngineError::Chunk(err) => exists|t: Seq<char>|
            chunk_error_text(err, t) && msg == "chunk error: "@ + t,
        EngineError::Processor(err) => exists|t: Seq<char>|
            processor_error_text(err, t) && msg == "processor error: "@ + t,
    }
}

impl EngineError {
    /// The text that describes this error.
    pub fn to_string(&self) -> (r: String)
        ensures
            engine_error_text(*self, r@),
    {
        match self {
            EngineError::InvalidArguments(msg) => {
                String::from_str("invalid arguments: ").concat(msg.as_str())
            },
            EngineError::ThreadPool(msg) => {
                String::from_str("thread pool initialization failed: ").concat(msg.as_str())
            },
            EngineError::Chunk(err) => {
                let t = err.to_string();
                let r = String::from_str("chunk error: ").concat(t.as_str());
                assert(chunk_error_text(*err, t@) && r@ == "chunk error: "@ + t@);
                r
            },
            EngineError::Processor(err) => {
                let t = err.to_string();
                let r = String::from_str("processor error: ").concat(t.as_str());
                assert(processor_error_text(*err, t@) && r@ == "processor error: "@ + t@);
                r
            },
        }
    }
}

impl From<std::io::Error> for EngineError {
    fn from(err: std::io::Error) -> Self {
        EngineError::Chunk(ChunkError::Io(err))
    }
}

impl vstd::std_specs::convert::FromSpecImpl<std::io::Error> for EngineError {
    open spec fn obeys_from_spec() -> bool {
        true
    }

    open spec fn from_spec(v: std::io::Error) -> Self {
        EngineError::Chunk(ChunkError::Io(v))
    }
}

impl From<ChunkError> for EngineError {
    fn from(err: ChunkError) -> Self {
        EngineError::Chunk(err)
    }
}

impl vstd::std_specs::convert::FromSpecImpl<ChunkError> for EngineError {
    open spec fn obeys_from_spec() -> bool {
        true
    }

    open spec fn from_spec(v: ChunkError) -> Self {
        EngineError::Chunk(v)
    }
}

impl From<ProcessorError> for EngineError {
    fn from(err: ProcessorError) -> Self {
        EngineError::Processor(err)
    }
}

impl vstd::std_specs::convert::FromSpecImpl<ProcessorError> for EngineError {
    open spec fn obeys_from_spec() -> bool {
        true
    }

    open spec fn from_spec(v: ProcessorError) -> Self {
        EngineError::Processor(v)
    }
}

} // verus!
