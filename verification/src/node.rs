//! The boundary with the external benchmark binary: the exact command lines
//! it must be invoked with, and the validation of what an invocation
//! returned. Spawning the process itself is left to the caller.

use vstd::prelude::*;

use vstd::utf8::{encode_utf8, valid_utf8};

verus! {

/// Why discovery of the catalog failed.
#[derive(Clone, Copy, Debug, PartialEq, Eq, Structural)]
pub enum DiscoveryError {
    /// The listing invocation exited with a non-zero status.
    CommandFailed,
    /// The listing output was not valid UTF-8.
    InvalidUtf8,
}

impl DiscoveryError {
    /// The human-readable message for this failure.
    pub fn message(&self) -> (r: String)
        ensures
            *self is CommandFailed ==> r@ == "Command returned non zero status code"@,
            *self is InvalidUtf8 ==> r@ == "Invalid UTF-8 in output"@,
    {
        match self {
            DiscoveryError::CommandFailed => "Command returned non zero status code".to_owned(),
            DiscoveryError::InvalidUtf8 => "Invalid UTF-8 in output".to_owned(),
        }
    }
}

/// Relies on String::from_utf8: it succeeds exactly on valid UTF-8 input and
/// returns the string those bytes encode.
#[verifier::external_body]
fn utf8_string(bytes: Vec<u8>) -> (r: Option<String>)
    ensures
        r is Some <==> valid_utf8(bytes@),
        r matches Option::Some(s) ==> encode_utf8(s@) == bytes@,
{
    String::from_utf8(bytes).ok()
}

/// Extracts the listing text from what the listing invocation returned:
/// rejected when the invocation exited non-zero or its output is not UTF-8.
pub fn listing_text(status_ok: bool, stdout: Vec<u8>) -> (r: Result<String, DiscoveryError>)
    ensures
        !status_ok ==> r == Result::<String, DiscoveryError>::Err(DiscoveryError::CommandFailed),
        status_ok ==> {
            &&& r is Err <==> !valid_utf8(stdout@)
            &&& r matches Result::Err(e) ==> e == DiscoveryError::InvalidUtf8
            &&& r matches Result::Ok(s) ==> encode_utf8(s@) == stdout@
        },
{
    if !status_ok {
        return Err(DiscoveryError::CommandFailed);
    }
    match utf8_string(stdout) {
        Some(s) => Ok(s),
        None => Err(DiscoveryError::InvalidUtf8),
    }
}

/// The fixed flags that every invocation of the external binary passes.
pub open spec fn base_args_spec() -> Seq<Seq<char>> {
    seq![
        "benchmark"@,
        "--dev"@,
        "--execution=wasm"@,
        "--wasm-execution=compiled"@,
        "--heap-pages=4096"@,
    ]
}

/// The arguments of a listing invocation.
pub open spec fn list_args_spec() -> Seq<Seq<char>> {
    base_args_spec().push("--list"@)
}

/// The arguments of a single-unit execution invocation.
pub open spec fn execute_args_spec(pallet: Seq<char>, ext: Seq<char>) -> Seq<Seq<char>> {
    base_args_spec() + seq!["--pallet"@, pallet, "--extrinsic"@, ext, "--repeat=1"@]
}

/// The driver for the external benchmark binary found at a given path.
pub struct Node {
    pub path: String,
}

impl Node {
    pub fn new(path: String) -> (r: Node)
        ensures
            r.path == path,
    {
        Node { path }
    }

    /// The arguments for discovering the available units.
    pub fn list_args(&self) -> (r: Vec<String>)
        ensures
            r@.map_values(|s: String| s@) == list_args_spec(),
    {
        let mut args = base_args();
        args.push("--list".to_owned());
        proof {
            assert(args@.map_values(|s: String| s@) =~= list_args_spec());
        }
        args
    }

    /// The arguments for executing one unit, with a repeat count of one.
    pub fn execute_args(&self, pallet: &str, ext: &str) -> (r: Vec<String>)
        ensures
            r@.map_values(|s: String| s@) == execute_args_spec(pallet@, ext@),
    {
        let mut args = base_args();
        args.push("--pallet".to_owned());
        args.push(pallet.to_owned());
        args.push("--extrinsic".to_owned());
        args.push(ext.to_owned());
        args.push("--repeat=1".to_owned());
        proof {
            assert(args@.map_values(|s: String| s@) =~= execute_args_spec(pallet@, ext@));
        }
        args
    }
}

/// Builds the fixed flags shared by all invocations.
fn base_args() -> (r: Vec<String>)
    ensures
        r@.map_values(|s: String| s@) == base_args_spec(),
{
    let mut args: Vec<String> = Vec::new();
    args.push("benchmark".to_owned());
    args.push("--dev".to_owned());
    args.push("--execution=wasm".to_owned());
    args.push("--wasm-execution=compiled".to_owned());
    args.push("--heap-pages=4096".to_owned());
    proof {
        assert(args@.map_values(|s: String| s@) =~= base_args_spec());
    }
    args
}

/// Why the execution of a single unit was rejected.
#[derive(Clone, Copy, Debug, PartialEq, Eq, Structural)]
pub enum ExecFailure {
    /// The subprocess exited with a non-zero status.
    NonZeroStatus,
    /// The subprocess wrote to standard output, which must stay empty.
    UnexpectedStdout,
}

/// Judges what a single-unit execution returned: success demands a zero exit
/// status and an empty standard output.
pub fn judge_execution(status_ok: bool, stdout: &Vec<u8>) -> (r: Result<(), ExecFailure>)
    ensures
        r == if !status_ok {
            Result::<(), ExecFailure>::Err(ExecFailure::NonZeroStatus)
        } else if stdout@.len() != 0 {
            Result::<(), ExecFailure>::Err(ExecFailure::UnexpectedStdout)
        } else {
            Result::<(), ExecFailure>::Ok(())
        },
{
    if !status_ok {
        Err(ExecFailure::NonZeroStatus)
    } else if stdout.len() != 0 {
        Err(ExecFailure::UnexpectedStdout)
    } else {
        Ok(())
    }
}

} // verus!
