//! The library's errors and the texts that describe them.
pub mod chunk;
pub mod engine;
pub mod processor;

pub use chunk::ChunkError;
pub use engine::EngineError;
pub use processor::ProcessorError;

use chunk::chunk_error_text;
use engine::engine_error_text;
use processor::processor_error_text;
use vstd::prelude::*;
use vstd::string::*;

verus! {

/// `std::io::Error`, carried through the errors of the library unread.
#[verifier::external_type_specification]
#[verifier::external_body]
pub struct ExIoError(std::io::Error);

/// Any error of the program.
#[derive(Debug)]
pub enum Error {
    Chunk(ChunkError),
    Processor(ProcessorError),
    Engine(EngineError),
}

/// `msg` is the text that describes `e`.
pub open spec fn error_text(e: Error, msg: Seq<char>) -> bool {
    match e {
        Error::Chunk(err) => exists|t: Seq<char>|
            chunk_error_text(err, t) && msg == "chunk error: "@ + t,
        Error::Processor(err) => exists|t: Seq<char>|
            processor_error_text(err, t) && msg == "processor error: "@ + t,
        Error::Engine(err) => exists|t: Seq<char>|
            engine_error_text(err, t) && msg == "engine error: "@ + t,
    }
}

impl Error {
    /// The text that describes this error.
    pub fn to_string(&self) -> (r: String)
        ensures
            error_text(*self, r@),
    {
        match self {
            Error::Chunk(err) => {
                let t = err.to_string();
                let r = String::from_str("chunk error: ").concat(t.as_str());
                assert(chunk_error_text(*err, t@) && r@ == "chunk error: "@ + t@);
                r
            },
            Error::Processor(err) => {
                let t = err.to_string();
                let r = String::from_str("processor error: ").concat(t.as_str());
                assert(processor_error_text(*err, t@) && r@ == "processor error: "@ + t@);
                r
            },
            Error::Engine(err) => {
                let t = err.to_string();
                let r = String::from_str("engine error: ").concat(t.as_str());
                assert(engine_error_text(*err, t@) && r@ == "engine error: "@ + t@);
                r
            },
        }
    }
}

impl From<ChunkError> for Error {
    fn from(err: ChunkError) -> Self {
        Error::Chunk(err)
    }
}

impl vstd::std_specs::convert::FromSpecImpl<ChunkError> for Error {
    open spec fn obeys_from_spec() -> bool {
        true
    }

    open spec fn from_spec(v: ChunkError) -> Self {
        Error::Chunk(v)
    }
}

impl From<ProcessorError> for Error {
    fn from(err: ProcessorError) -> Self {
        Error::Processor(err)
    }
}

impl vstd::std_specs::convert::FromSpecImpl<ProcessorError> for Error {
    open spec fn obeys_from_spec() -> bool {
        true
    }

    open spec fn from_spec(v: ProcessorError) -> Self {
        Error::Processor(v)
    }
}

impl From<EngineError> for Error {
    fn from(err: EngineError) -> Self {
        Error::Engine(err)
    }
}

impl vstd::std_specs::convert::FromSpecImpl<EngineError> for Error {
    open spec fn obeys_from_spec() -> bool {
        true
    }

    open spec fn from_spec(v: EngineError) -> Self {
        Error::Engine(v)
    }
}

} // verus!
