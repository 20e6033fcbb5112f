//! The errors of the library, each with the message it displays.
use crate::text::{decimal, push_decimal};
use vstd::prelude::*;
use vstd::string::StringExecFns;

verus! {

/// Errors met while reading a matrix file.
#[derive(Debug, Clone)]
pub enum ParseErr {
    File(String),
    Header(String),
    Shape(String),
    Value(String, usize),
    Index(String, usize),
    Thread(String),
    CSC,
}

/// The variant of a `ParseErr`, without its data.
#[derive(Debug, Clone, Copy, PartialEq, Eq, Structural)]
pub enum ParseErrKind {
    File,
    Header,
    Shape,
    Value,
    Index,
    Thread,
    CSC,
}

impl View for ParseErr {
    /// The variant, its text, and its line number (0 for the variants without one).
    type V = (ParseErrKind, Seq<char>, usize);

    open spec fn view(&self) -> (ParseErrKind, Seq<char>, usize) {
        match self {
            ParseErr::File(s) => (ParseErrKind::File, s@, 0),
            ParseErr::Header(s) => (ParseErrKind::Header, s@, 0),
            ParseErr::Shape(s) => (ParseErrKind::Shape, s@, 0),
            ParseErr::Value(s, l) => (ParseErrKind::Value, s@, *l),
            ParseErr::Index(s, l) => (ParseErrKind::Index, s@, *l),
            ParseErr::Thread(s) => (ParseErrKind::Thread, s@, 0),
            ParseErr::CSC => (ParseErrKind::CSC, Seq::<char>::empty(), 0),
        }
    }
}

/// A result whose error is taken by its view.
pub open spec fn err_view<T>(r: Result<T, ParseErr>) -> Result<T, (ParseErrKind, Seq<char>, usize)> {
    match r {
        Ok(v) => Ok(v),
        Err(e) => Err(e@),
    }
}

/// The view of a header error carrying the text `s`.
pub open spec fn header_err(s: Seq<char>) -> (ParseErrKind, Seq<char>, usize) {
    (ParseErrKind::Header, s, 0usize)
}

/// The message that a parse error displays.
pub open spec fn parse_err_message(e: (ParseErrKind, Seq<char>, usize)) -> Seq<char> {
    let (kind, s, line) = e;
    match kind {
        ParseErrKind::CSC => "Failed to construct the Compressed Sparse Column (CSC) matrix."@,
        ParseErrKind::File => "Failed to process the matrix file due to : ["@ + s + "]"@,
        ParseErrKind::Header => "Failed to parse Header due to : ["@ + s + "]"@,
        ParseErrKind::Index => "Failed to parse index due to ["@ + s + "] at line "@ + decimal(
            line as nat,
        ),
        ParseErrKind::Shape => "Failed to parse shape due to : ["@ + s + "]"@,
        ParseErrKind::Thread => "Encountered the following thread issue while parsing : ["@ + s
            + "]"@,
        ParseErrKind::Value => "Failed to parse value at line "@ + decimal(line as nat)
            + " due to : "@ + s,
    }
}

/// `prefix + s + suffix` as a new string.
fn framed(prefix: &str, s: &str, suffix: &str) -> (r: String)
    ensures
        r@ == prefix@ + s@ + suffix@,
{
    let mut r = String::from_str(prefix);
    r.append(s);
    r.append(suffix);
    r
}

impl ParseErr {
    /// The message that the error displays.
    pub fn message(&self) -> (r: String)
        ensures
            r@ == parse_err_message(self@),
    {
        match self {
            ParseErr::CSC => String::from_str(
                "Failed to construct the Compressed Sparse Column (CSC) matrix.",
            ),
            ParseErr::File(s) => framed(
                "Failed to process the matrix file due to : [",
                s.as_str(),
                "]",
            ),
            ParseErr::Header(s) => framed("Failed to parse Header due to : [", s.as_str(), "]"),
            ParseErr::Index(s, line) => {
                let mut r = framed("Failed to parse index due to [", s.as_str(), "] at line ");
                push_decimal(&mut r, *line as u64);
                r
            },
            ParseErr::Shape(s) => framed("Failed to parse shape due to : [", s.as_str(), "]"),
            ParseErr::Thread(s) => framed(
                "Encountered the following thread issue while parsing : [",
                s.as_str(),
                "]",
            ),
            ParseErr::Value(s, line) => {
                let mut r = String::from_str("Failed to parse value at line ");
                push_decimal(&mut r, *line as u64);
                r.append(" due to : ");
                r.append(s.as_str());
                r
            },
        }
    }
}

/// Errors of the thread pool.
#[derive(Debug)]
pub enum ThreadPoolErr {
    ShutdownTimeout,
    ThreadExec(String),
    ThreadJoin(String),
    JobSignal(String),
}

impl ThreadPoolErr {
    /// The message that the error displays.
    pub fn message(&self) -> (r: String)
        ensures
            r@ == match self {
                ThreadPoolErr::JobSignal(s) => "Job signal issue : ["@ + s@ + "]"@,
                ThreadPoolErr::ShutdownTimeout => "Failed to Shutdown the ThreadPool before the end of the timeout."@,
                ThreadPoolErr::ThreadExec(s) => "Thread execution error : ["@ + s@ + "]"@,
                ThreadPoolErr::ThreadJoin(s) => "Thread join issue : ["@ + s@ + "]"@,
            },
    {
        match self {
            ThreadPoolErr::JobSignal(s) => framed("Job signal issue : [", s.as_str(), "]"),
            ThreadPoolErr::ShutdownTimeout => String::from_str(
                "Failed to Shutdown the ThreadPool before the end of the timeout.",
            ),
            ThreadPoolErr::ThreadExec(s) => framed("Thread execution error : [", s.as_str(), "]"),
            ThreadPoolErr::ThreadJoin(s) => framed("Thread join issue : [", s.as_str(), "]"),
        }
    }
}

/// Errors in the command line and the configuration.
#[derive(Debug, Clone)]
pub enum CLIErr {
    Alpha(String),
    Epsilon(String),
    File(String),
    Treshold(String),
    Config(String),
    Unknown(String),
    MatrixPath(String),
    OutputDir(String),
    EnvPath(String),
}

impl CLIErr {
    /// The message that the error displays: the text it carries, framed as a
    /// file error for `File`.
    pub fn message(&self) -> (r: String)
        ensures
            r@ == match self {
                CLIErr::File(s) => "File error : ["@ + s@ + "]"@,
                CLIErr::Alpha(s) => s@,
                CLIErr::Epsilon(s) => s@,
                CLIErr::Treshold(s) => s@,
                CLIErr::Config(s) => s@,
                CLIErr::Unknown(s) => s@,
                CLIErr::MatrixPath(s) => s@,
                CLIErr::OutputDir(s) => s@,
                CLIErr::EnvPath(s) => s@,
            },
    {
        match self {
            CLIErr::File(s) => framed("File error : [", s.as_str(), "]"),
            CLIErr::Alpha(s) => s.clone(),
            CLIErr::Epsilon(s) => s.clone(),
            CLIErr::Treshold(s) => s.clone(),
            CLIErr::Config(s) => s.clone(),
            CLIErr::Unknown(s) => s.clone(),
            CLIErr::MatrixPath(s) => s.clone(),
            CLIErr::OutputDir(s) => s.clone(),
            CLIErr::EnvPath(s) => s.clone(),
        }
    }
}

} // verus!
