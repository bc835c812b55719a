//! Errors raised while processing a chunk.
use vstd::prelude::*;
use vstd::string::*;

verus! {

#[derive(Debug)]
pub enum ProcessorError {
    Io(std::io::Error),
}

/// `msg` is the text that describes `e`.
pub open spec fn processor_error_text(e: ProcessorError, msg: Seq<char>) -> bool {
    match e {
        ProcessorError::Io(err) => exists|t: String|
            to_string_from_display_ensures::<std::io::Error>(&err, t)
                && msg == "I/O error while processing chunk: "@ + t@,
    }
}

impl ProcessorError {
    /// The text that describes this error.
    pub fn to_string(&self) -> (r: String)
        ensures
            processor_error_text(*self, r@),
    {
        match self {
            ProcessorError::Io(err) => {
                let t = err.to_string();
                String::from_str("I/O error while processing chunk: ").concat(t.as_str())
            },
        }
    }
}

impl From<std::io::Error> for ProcessorError {
    fn from(err: std::io::Error) -> Self {
        ProcessorError::Io(err)
    }
}

impl vstd::std_specs::convert::FromSpecImpl<std::io::Error> for ProcessorError {
    open spec fn obeys_from_spec() -> bool {
        true
    }

    open spec fn from_spec(v: std::io::Error) -> Self {
        ProcessorError::Io(v)
    }
}

} // verus!
