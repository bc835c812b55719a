//! The engine's configuration: which dataset it reads and how many workers
//! divide it.
use crate::errors::EngineError;
use crate::text::{
    decimal_digits, is_digit, lemma_padded_digits_value,
    lemma_parse_decimal_reads_numbers, parse_decimal, parse_decimal_bytes, zeros,
};
use crate::unicode::lemma_ascii_encoding;
use vstd::prelude::*;
use vstd::string::*;
use vstd::utf8::encode_utf8;

verus! {

/// `rayon::ThreadPoolBuildError`, carried unread.
#[verifier::external_type_specification]
#[verifier::external_body]
pub struct ExThreadPoolBuildError(rayon::ThreadPoolBuildError);

/// Calls `rayon::ThreadPoolBuilder::new().num_threads(num_threads).build_global()`,
/// which sets up rayon's global thread pool with `num_threads` threads (0 lets
/// rayon choose), and hands back on success the number of threads it asked
/// for. Whether it succeeds depends on the process (a global pool may already
/// exist, threads may fail to spawn), so that is left open.
#[verifier::external_body]
fn build_global_pool(num_threads: usize) -> (r: Result<usize, rayon::ThreadPoolBuildError>)
    ensures
        r matches Ok(k) ==> k == num_threads,
{
    rayon::ThreadPoolBuilder::new().num_threads(num_threads).build_global().map(|()| num_threads)
}

/// Orchestrates the parallel processing of the dataset.
pub struct Engine {
    path: String,
    workers: usize,
}

impl View for Engine {
    /// The dataset's path and the number of workers.
    type V = (Seq<char>, usize);

    closed spec fn view(&self) -> (Seq<char>, usize) {
        (self.path@, self.workers)
    }
}

/// The number of workers: the `WORKERS` setting when it is a decimal number
/// that fits in a `usize`, else the available parallelism, else 1.
pub open spec fn configured_workers(setting: Option<Seq<char>>, available: Option<usize>) -> nat {
    let fallback: nat = match available {
        Some(a) => a as nat,
        None => 1,
    };
    match setting {
        Some(s) => match parse_decimal(encode_utf8(s), usize::MAX as nat) {
            Some(v) => v,
            None => fallback,
        },
        None => fallback,
    }
}

/// The text of a `String` setting, if there is one.
pub open spec fn setting_text(setting: Option<String>) -> Option<Seq<char>> {
    match setting {
        Some(s) => Some(s@),
        None => None,
    }
}

/// The characters of ASCII bytes.
pub open spec fn ascii_chars(b: Seq<u8>) -> Seq<char> {
    Seq::new(b.len(), |i: int| b[i] as char)
}

/// A `WORKERS` setting that is a decimal number fitting in a `usize` is used
/// as it is, whatever parallelism is available; the available parallelism
/// (else 1) is used only where the setting is missing or is no such number.
pub proof fn lemma_setting_overrides_parallelism(
    s: Seq<char>,
    available: Option<usize>,
    other: Option<usize>,
)
    ensures
        parse_decimal(encode_utf8(s), usize::MAX as nat) is Some ==> configured_workers(
            Some(s),
            available,
        ) == configured_workers(Some(s), other),
        parse_decimal(encode_utf8(s), usize::MAX as nat) is None ==> configured_workers(
            Some(s),
            available,
        ) == configured_workers(None, available),
        configured_workers(None, available) == match available {
            Some(a) => a as nat,
            None => 1nat,
        },
{
}

/// A `WORKERS` setting written as the decimal digits of `v`, zero-padded or
/// not and with or without a leading `+` (such as `16` or `+016`), gives `v`
/// workers whenever `v` fits in a `usize`, for any available parallelism.
pub proof fn lemma_numeric_setting_is_used(z: nat, v: nat, available: Option<usize>)
    requires
        v <= usize::MAX,
    ensures
        configured_workers(Some(ascii_chars(zeros(z) + decimal_digits(v))), available) == v,
        configured_workers(
            Some(ascii_chars(seq![0x2bu8] + zeros(z) + decimal_digits(v))),
            available,
        ) == v,
{
    lemma_parse_decimal_reads_numbers(z, v, usize::MAX as nat);
    lemma_padded_digits_value(z, v);
    let d = zeros(z) + decimal_digits(v);
    let p = seq![0x2bu8] + zeros(z) + decimal_digits(v);
    assert forall|i: int| 0 <= i < d.len() implies #[trigger] d[i] < 0x80 by {
        assert(is_digit(d[i]));
    }
    assert forall|i: int| 0 <= i < p.len() implies #[trigger] p[i] < 0x80 by {
        if i > 0 {
            assert(p[i] == d[i - 1]);
            assert(is_digit(d[i - 1]));
        }
    }
    lemma_ascii_encoding(d);
    lemma_ascii_encoding(p);
}

impl Engine {
    /// The number of workers: the `WORKERS` setting when it is a decimal
    /// number that fits in a `usize`, else the available parallelism, else 1.
    pub fn workers_from(setting: &Option<String>, available: Option<usize>) -> (r: usize)
        ensures
            r as nat == configured_workers(setting_text(*setting), available),
    {
        let fallback: usize = match available {
            Some(a) => a,
            None => 1,
        };
        match setting {
            Some(s) => {
                let bytes = s.as_str().as_bytes();
                match parse_decimal_bytes(bytes, usize::MAX as u64) {
                    Some(v) => v as usize,
                    None => fallback,
                }
            },
            None => fallback,
        }
    }

    /// Completes the configuration once rayon's global pool has been asked
    /// for `workers` threads (or has failed to be set up): on success the
    /// engine with that requested number of workers, else the pool's error.
    pub fn from_pool_outcome(
        path: String,
        pool: Result<usize, rayon::ThreadPoolBuildError>,
    ) -> (r: Result<Engine, EngineError>)
        ensures
            pool matches Ok(workers) ==> (r matches Ok(e) && e@ == (path@, workers)),
            pool matches Err(err) ==> (r matches Err(EngineError::ThreadPool(m))
                && to_string_from_display_ensures::<rayon::ThreadPoolBuildError>(
                &err,
                m,
            )),
    {
        match pool {
            Ok(workers) => Ok(Engine { path, workers }),
            Err(e) => Err(EngineError::ThreadPool(e.to_string())),
        }
    }

    /// Configures the engine from its settings: the dataset's path, the
    /// `WORKERS` setting and the available parallelism. Asks rayon to set up
    /// its global thread pool with the engine's number of workers as its
    /// thread count (rayon reads 0 as its own default).
    ///
    /// Fails when the path is missing, or when rayon refuses the pool.
    pub fn from_settings(
        dataset_path: Option<String>,
        workers: Option<String>,
        available_parallelism: Option<usize>,
    ) -> (r: Result<Engine, EngineError>)
        ensures
            dataset_path is None ==> (r matches Err(EngineError::InvalidArguments(m)) && m@
                == "DATASET_PATH not set"@),
            dataset_path matches Some(p) ==> match r {
                Ok(e) => e@.0 == p@ && e@.1 as nat == configured_workers(
                    setting_text(workers),
                    available_parallelism,
                ),
                Err(EngineError::ThreadPool(m)) => exists|err: rayon::ThreadPoolBuildError|
                    to_string_from_display_ensures::<rayon::ThreadPoolBuildError>(&err, m),
                Err(_) => false,
            },
    {
        let path = match dataset_path {
            Some(p) => p,
            None => {
                return Err(EngineError::InvalidArguments(String::from_str("DATASET_PATH not set")));
            },
        };
        let n: usize = Self::workers_from(&workers, available_parallelism);
        let pool = build_global_pool(n);
        Self::from_pool_outcome(path, pool)
    }

    /// The path of the dataset.
    pub fn path(&self) -> (r: &str)
        ensures
            r@ == self@.0,
    {
        self.path.as_str()
    }

    /// The number of workers, which is also the number of chunks.
    pub fn workers(&self) -> (r: usize)
        ensures
            r == self@.1,
    {
        self.workers
    }
}

} // verus!
