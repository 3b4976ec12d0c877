//! The error type of every fallible operation.
//!
//! | Situation                     | Exit code |
//! |-------------------------------|-----------|
//! | matches were found            | 0         |
//! | no matches found              | 1         |
//! | any error (usage, I/O, ...)   | 2         |

use vstd::prelude::*;

verus! {

/// Convenience alias used throughout the crate.
pub type SearchResult<T> = Result<T, SearchError>;

/// The I/O failures that get wording of their own; every other kind is
/// [`IoErrorKind::Other`].
#[derive(Debug, Clone, Copy, PartialEq, Eq, Structural)]
pub enum IoErrorKind {
    /// A path does not exist.
    NotFound,
    /// The operating system refused access.
    PermissionDenied,
    /// The reader of a pipe went away.
    BrokenPipe,
    /// Anything else.
    Other,
}

/// A filesystem or pipe failure: its kind and the text the system gave for it.
#[derive(Debug)]
pub struct IoError {
    /// What kind of failure it was.
    pub kind: IoErrorKind,
    /// The system's own description.
    pub message: String,
}

/// The default description of an I/O error that carries nothing but its kind.
pub open spec fn kind_text(kind: IoErrorKind) -> Seq<char> {
    match kind {
        IoErrorKind::NotFound => "entity not found"@,
        IoErrorKind::PermissionDenied => "permission denied"@,
        IoErrorKind::BrokenPipe => "broken pipe"@,
        IoErrorKind::Other => "other error"@,
    }
}

impl IoError {
    /// An error of the given kind with a description of its own.
    pub fn new(kind: IoErrorKind, message: &str) -> (err: IoError)
        ensures
            err.kind == kind,
            err.message@ == message@,
    {
        IoError { kind, message: message.to_owned() }
    }

    /// An error that carries nothing but its kind.
    pub fn of_kind(kind: IoErrorKind) -> (err: IoError)
        ensures
            err.kind == kind,
            err.message@ == kind_text(kind),
    {
        let message = match kind {
            IoErrorKind::NotFound => "entity not found",
            IoErrorKind::PermissionDenied => "permission denied",
            IoErrorKind::BrokenPipe => "broken pipe",
            IoErrorKind::Other => "other error",
        };
        IoError::new(kind, message)
    }
}

/// The single error type for every fallible operation.
#[derive(Debug)]
pub enum SearchError {
    /// A filesystem or pipe failure, with its kind preserved so that callers
    /// can tell, for example, a broken pipe from a missing file.
    Io(IoError),
    /// The command line could not be parsed or validated.
    Arg(String),
    /// The search pattern (or a glob derived from one) could not be compiled.
    Pattern(String),
    /// An internal invariant failed at runtime.
    Runtime(String),
}

/// What a [`SearchError`] says, as a mathematical value.
pub enum Failure {
    /// An I/O failure and its description.
    Io(IoErrorKind, Seq<char>),
    /// A command line problem.
    Arg(Seq<char>),
    /// A malformed pattern.
    Pattern(Seq<char>),
    /// A broken invariant.
    Runtime(Seq<char>),
}

impl View for SearchError {
    type V = Failure;

    open spec fn view(&self) -> Failure {
        match self {
            SearchError::Io(err) => Failure::Io(err.kind, err.message@),
            SearchError::Arg(message) => Failure::Arg(message@),
            SearchError::Pattern(message) => Failure::Pattern(message@),
            SearchError::Runtime(message) => Failure::Runtime(message@),
        }
    }
}

/// The text shown for an error: its class, then its message.
pub open spec fn display(failure: Failure) -> Seq<char> {
    match failure {
        Failure::Io(_, message) => "i/o error: "@ + message,
        Failure::Arg(message) => "argument error: "@ + message,
        Failure::Pattern(message) => "pattern error: "@ + message,
        Failure::Runtime(message) => "runtime error: "@ + message,
    }
}

impl SearchError {
    /// Build a [`SearchError::Arg`].
    pub fn arg(message: &str) -> (err: SearchError)
        ensures
            err@ == Failure::Arg(message@),
    {
        SearchError::Arg(message.to_owned())
    }

    /// Build a [`SearchError::Pattern`].
    pub fn pattern(message: &str) -> (err: SearchError)
        ensures
            err@ == Failure::Pattern(message@),
    {
        SearchError::Pattern(message.to_owned())
    }

    /// Build a [`SearchError::Runtime`].
    pub fn runtime(message: &str) -> (err: SearchError)
        ensures
            err@ == Failure::Runtime(message@),
    {
        SearchError::Runtime(message.to_owned())
    }

    /// The process exit code for this error: `2` for every class.
    pub fn exit_code(&self) -> (code: i32)
        ensures
            code == 2,
    {
        match self {
            SearchError::Io(_) => 2,
            SearchError::Arg(_) => 2,
            SearchError::Pattern(_) => 2,
            SearchError::Runtime(_) => 2,
        }
    }

    /// `true` when the error is a broken pipe, which the command line tool
    /// treats as success.
    pub fn is_broken_pipe(&self) -> (yes: bool)
        ensures
            yes == (self@ matches Failure::Io(kind, _) && kind == IoErrorKind::BrokenPipe),
    {
        match self {
            SearchError::Io(err) => err.kind == IoErrorKind::BrokenPipe,
            _ => false,
        }
    }

    /// `true` when the underlying I/O failure is a missing path.
    pub fn is_not_found(&self) -> (yes: bool)
        ensures
            yes == (self@ matches Failure::Io(kind, _) && kind == IoErrorKind::NotFound),
    {
        match self {
            SearchError::Io(err) => err.kind == IoErrorKind::NotFound,
            _ => false,
        }
    }

    /// A short class label: `"i/o"`, `"argument"`, `"pattern"` or `"runtime"`.
    pub fn kind_label(&self) -> (label: &'static str)
        ensures
            label@ == (match self@ {
                Failure::Io(..) => "i/o"@,
                Failure::Arg(_) => "argument"@,
                Failure::Pattern(_) => "pattern"@,
                Failure::Runtime(_) => "runtime"@,
            }),
    {
        match self {
            SearchError::Io(_) => "i/o",
            SearchError::Arg(_) => "argument",
            SearchError::Pattern(_) => "pattern",
            SearchError::Runtime(_) => "runtime",
        }
    }

    /// The text shown to the user: the class of the error, then its message.
    pub fn to_string(&self) -> (out: String)
        ensures
            out@ == display(self@),
    {
        let mut out = String::new();
        match self {
            SearchError::Io(err) => {
                out.push_str("i/o error: ");
                out.push_str(err.message.as_str());
            },
            SearchError::Arg(message) => {
                out.push_str("argument error: ");
                out.push_str(message.as_str());
            },
            SearchError::Pattern(message) => {
                out.push_str("pattern error: ");
                out.push_str(message.as_str());
            },
            SearchError::Runtime(message) => {
                out.push_str("runtime error: ");
                out.push_str(message.as_str());
            },
        }
        proof {
            assert(out@ =~= display(self@));
        }
        out
    }

    /// The I/O failure behind this error, if there is one.
    pub fn source(&self) -> (cause: Option<&IoError>)
        ensures
            match cause {
                Some(err) => *self == SearchError::Io(*err),
                None => !(self is Io),
            },
    {
        match self {
            SearchError::Io(err) => Some(err),
            _ => None,
        }
    }
}

/// The phrase shown for an I/O failure: stable wording for the most frequent
/// kinds, the system's own text for all others.
pub open spec fn io_phrase(kind: IoErrorKind, message: Seq<char>) -> Seq<char> {
    match kind {
        IoErrorKind::NotFound => "no such file or directory"@,
        IoErrorKind::PermissionDenied => "permission denied"@,
        IoErrorKind::BrokenPipe => "broken pipe"@,
        IoErrorKind::Other => message,
    }
}

/// Translate an I/O failure into a short, lowercase phrase.
pub fn io_message(err: &IoError) -> (out: String)
    ensures
        out@ == io_phrase(err.kind, err.message@),
{
    match err.kind {
        IoErrorKind::NotFound => "no such file or directory".to_owned(),
        IoErrorKind::PermissionDenied => "permission denied".to_owned(),
        IoErrorKind::BrokenPipe => "broken pipe".to_owned(),
        IoErrorKind::Other => err.message.clone(),
    }
}

impl From<IoError> for SearchError {
    fn from(err: IoError) -> (out: SearchError) {
        SearchError::Io(err)
    }
}

impl vstd::std_specs::convert::FromSpecImpl<IoError> for SearchError {
    open spec fn obeys_from_spec() -> bool {
        true
    }

    open spec fn from_spec(err: IoError) -> SearchError {
        SearchError::Io(err)
    }
}

impl From<IoErrorKind> for SearchError {
    fn from(kind: IoErrorKind) -> (out: SearchError)
        ensures
            out@ == Failure::Io(kind, kind_text(kind)),
    {
        SearchError::Io(IoError::of_kind(kind))
    }
}

impl vstd::std_specs::convert::FromSpecImpl<IoErrorKind> for SearchError {
    open spec fn obeys_from_spec() -> bool {
        false
    }

    open spec fn from_spec(kind: IoErrorKind) -> SearchError {
        arbitrary()
    }
}

/// Errors are shown under the name of their class, and frequent failures of the
/// system in words of their own.
pub proof fn law_errors_are_shown_by_class(kind: IoErrorKind, message: Seq<char>)
    ensures
        display(Failure::Io(kind, message)) == "i/o error: "@ + message,
        display(Failure::Arg(message)) == "argument error: "@ + message,
        display(Failure::Pattern(message)) == "pattern error: "@ + message,
        display(Failure::Runtime(message)) == "runtime error: "@ + message,
        io_phrase(IoErrorKind::NotFound, message) == "no such file or directory"@,
        io_phrase(IoErrorKind::PermissionDenied, message) == "permission denied"@,
        io_phrase(IoErrorKind::BrokenPipe, message) == "broken pipe"@,
        io_phrase(IoErrorKind::Other, message) == message,
        kind_text(IoErrorKind::NotFound) == "entity not found"@,
        kind_text(IoErrorKind::PermissionDenied) == "permission denied"@,
        kind_text(IoErrorKind::BrokenPipe) == "broken pipe"@,
        kind_text(IoErrorKind::Other) == "other error"@,
{
}

} // verus!
