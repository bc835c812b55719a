use par_csv::errors::{ChunkError, EngineError, Error, ProcessorError};

fn io_error() -> std::io::Error {
    std::io::Error::new(std::io::ErrorKind::Other, "disk gone")
}

#[test]
fn chunk_error_texts() {
    assert_eq!(
        ChunkError::InvalidChunkCount("too many".to_string()).to_string(),
        "invalid number of chunks: too many"
    );
    assert_eq!(
        ChunkError::Io(io_error()).to_string(),
        "I/O error while dividing chunks: disk gone"
    );
}

#[test]
fn processor_error_text() {
    assert_eq!(
        ProcessorError::Io(io_error()).to_string(),
        "I/O error while processing chunk: disk gone"
    );
}

#[test]
fn engine_error_texts() {
    assert_eq!(
        EngineError::InvalidArguments("x".to_string()).to_string(),
        "invalid arguments: x"
    );
    assert_eq!(
        EngineError::ThreadPool("y".to_string()).to_string(),
        "thread pool initialization failed: y"
    );
    assert_eq!(
        EngineError::Chunk(ChunkError::InvalidChunkCount("z".to_string())).to_string(),
        "chunk error: invalid number of chunks: z"
    );
    assert_eq!(
        EngineError::Processor(ProcessorError::Io(io_error())).to_string(),
        "processor error: I/O error while processing chunk: disk gone"
    );
}

#[test]
fn error_texts() {
    assert_eq!(
        Error::Engine(EngineError::InvalidArguments("x".to_string())).to_string(),
        "engine error: invalid arguments: x"
    );
    assert_eq!(
        Error::Chunk(ChunkError::InvalidChunkCount("n".to_string())).to_string(),
        "chunk error: invalid number of chunks: n"
    );
    assert_eq!(
        Error::Processor(ProcessorError::Io(io_error())).to_string(),
        "processor error: I/O error while processing chunk: disk gone"
    );
}

#[test]
fn conversions_wrap_the_error() {
    assert!(matches!(ChunkError::from(io_error()), ChunkError::Io(_)));
    assert!(matches!(ProcessorError::from(io_error()), ProcessorError::Io(_)));
    assert!(matches!(EngineError::from(io_error()), EngineError::Chunk(ChunkError::Io(_))));
    assert!(matches!(
        EngineError::from(ChunkError::InvalidChunkCount(String::new())),
        EngineError::Chunk(ChunkError::InvalidChunkCount(_))
    ));
    assert!(matches!(
        EngineError::from(ProcessorError::Io(io_error())),
        EngineError::Processor(ProcessorError::Io(_))
    ));
    assert!(matches!(
        Error::from(ChunkError::InvalidChunkCount(String::new())),
        Error::Chunk(_)
    ));
    assert!(matches!(Error::from(ProcessorError::Io(io_error())), Error::Processor(_)));
    assert!(matches!(
        Error::from(EngineError::ThreadPool(String::new())),
        Error::Engine(_)
    ));
}
