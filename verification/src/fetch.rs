//! One fetch of one address: what the bonds tool is asked, and what is made
//! of its answer.
//!
//! Running the tool and reading its output as a record happen outside this
//! module; the rules are here. A fetch fails where the tool cannot be run or
//! exits with a failure, where its output is no record, and where the record
//! is about another address than the one asked for.

use crate::record::BondData;
use vstd::prelude::*;
use vstd::string::StringExecFns;

verus! {

/// Why a fetch gave no record.
#[derive(Debug, Clone)]
pub enum FetchError {
    /// The tool could not be run; `detail` says why.
    NotStarted { detail: String },
    /// The tool ran and reported a failure. Both of its output streams are
    /// kept for the diagnosis.
    ToolFailed { stdout: String, stderr: String },
    /// The tool succeeded, but its output is no record.
    ParseFailed { detail: String, raw: String },
    /// The tool answered with the record of another address.
    IdentityMismatch { address: String },
}

/// The characters of a [`FetchError`].
pub enum FetchErrorView {
    NotStarted { detail: Seq<char> },
    ToolFailed { stdout: Seq<char>, stderr: Seq<char> },
    ParseFailed { detail: Seq<char>, raw: Seq<char> },
    IdentityMismatch { address: Seq<char> },
}

impl View for FetchError {
    type V = FetchErrorView;

    open spec fn view(&self) -> FetchErrorView {
        match *self {
            FetchError::NotStarted { detail } => FetchErrorView::NotStarted { detail: detail@ },
            FetchError::ToolFailed { stdout, stderr } => FetchErrorView::ToolFailed {
                stdout: stdout@,
                stderr: stderr@,
            },
            FetchError::ParseFailed { detail, raw } => FetchErrorView::ParseFailed {
                detail: detail@,
                raw: raw@,
            },
            FetchError::IdentityMismatch { address } => FetchErrorView::IdentityMismatch {
                address: address@,
            },
        }
    }
}

/// The arguments that ask the tool for the full detail of one address.
pub open spec fn tool_arguments(address: Seq<char>) -> Seq<Seq<char>> {
    seq!["show-bond"@, address, "--with-funding"@]
}

/// `result` with its error by its characters.
pub open spec fn viewed<T, E: View>(result: Result<T, E>) -> Result<T, E::V> {
    match result {
        Ok(value) => Ok(value),
        Err(error) => Err(error@),
    }
}

/// What is made of the tool's output once it was read: the record, where
/// there is one and it is about `address`.
pub open spec fn record_verdict(
    parsed: Result<BondData, Seq<char>>,
    raw: Seq<char>,
    address: Seq<char>,
) -> Result<BondData, FetchErrorView> {
    match parsed {
        Err(detail) => Err(FetchErrorView::ParseFailed { detail, raw }),
        Ok(record) => if record.describes(address) {
            Ok(record)
        } else {
            Err(FetchErrorView::IdentityMismatch { address })
        },
    }
}

/// The line that reports an error.
pub open spec fn message_of(error: FetchErrorView) -> Seq<char> {
    match error {
        FetchErrorView::NotStarted { detail } => detail,
        FetchErrorView::ToolFailed { stdout, stderr } => "Failed to run show-bond command: stdout: "@
            + stdout + ", stderr: "@ + stderr,
        FetchErrorView::ParseFailed { detail, raw } => "Failed to unmarshal bond data: "@ + detail
            + ". Raw output: "@ + raw,
        FetchErrorView::IdentityMismatch { address } =>
            "Bond data does not match the provided address: "@ + address
                + ". Did something change?"@,
    }
}

/// The arguments to run the tool with for `address`.
pub fn show_bond_args(address: &str) -> (args: Vec<String>)
    ensures
        args@.map_values(|arg: String| arg@) == tool_arguments(address@),
{
    let mut args: Vec<String> = Vec::new();
    args.push("show-bond".to_owned());
    args.push(address.to_owned());
    args.push("--with-funding".to_owned());
    assert(args@.map_values(|arg: String| arg@) =~= tool_arguments(address@));
    args
}

/// Judges the tool's exit: hands back its standard output where it
/// succeeded, and fails with [`FetchError::ToolFailed`] where it did not.
pub fn check_exit(success: bool, stdout: String, stderr: String) -> (verdict: Result<
    String,
    FetchError,
>)
    ensures
        verdict == if success {
            Ok::<String, FetchError>(stdout)
        } else {
            Err::<String, FetchError>(FetchError::ToolFailed { stdout, stderr })
        },
{
    if success {
        Ok(stdout)
    } else {
        Err(FetchError::ToolFailed { stdout, stderr })
    }
}

/// Judges what the tool's output was read as.
///
/// `parsed` is the record, or why the output `raw` is none. The record is
/// accepted only where it is about `address`; one about another address is
/// a stale or substituted answer and fails with
/// [`FetchError::IdentityMismatch`].
pub fn check_record(parsed: Result<BondData, String>, raw: String, address: &str) -> (verdict:
    Result<BondData, FetchError>)
    ensures
        viewed(verdict) == record_verdict(viewed(parsed), raw@, address@),
{
    match parsed {
        Err(detail) => Err(FetchError::ParseFailed { detail, raw }),
        Ok(record) => {
            let wanted = address.to_owned();
            if record.is_about(&wanted) {
                Ok(record)
            } else {
                Err(FetchError::IdentityMismatch { address: wanted })
            }
        },
    }
}

impl FetchError {
    /// The line that reports this error.
    pub fn message(&self) -> (line: String)
        ensures
            line@ == message_of(self@),
    {
        match self {
            FetchError::NotStarted { detail } => detail.clone(),
            FetchError::ToolFailed { stdout, stderr } => {
                let mut line = "Failed to run show-bond command: stdout: ".to_owned();
                line.append(stdout.as_str());
                line.append(", stderr: ");
                line.append(stderr.as_str());
                line
            },
            FetchError::ParseFailed { detail, raw } => {
                let mut line = "Failed to unmarshal bond data: ".to_owned();
                line.append(detail.as_str());
                line.append(". Raw output: ");
                line.append(raw.as_str());
                line
            },
            FetchError::IdentityMismatch { address } => {
                let mut line = "Bond data does not match the provided address: ".to_owned();
                line.append(address.as_str());
                line.append(". Did something change?");
                line
            },
        }
    }
}

} // verus!
