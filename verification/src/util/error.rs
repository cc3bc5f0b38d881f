use vstd::prelude::*;
use vstd::string::*;

verus! {

/// The kinds of failure that the playground reports on its own account.
#[derive(Debug, Clone, Copy, PartialEq, Eq, Structural)]
pub enum ErrorKind {
    UnknownError,
}

/// The description of a kind.
pub open spec fn kind_text(k: ErrorKind) -> Seq<char> {
    match k {
        ErrorKind::UnknownError => "unknown error"@,
    }
}

impl ErrorKind {
    /// The numeric error code of the kind.
    pub fn code(&self) -> (c: u8)
        ensures
            match self {
                ErrorKind::UnknownError => c == 1,
            },
    {
        match self {
            ErrorKind::UnknownError => 1,
        }
    }

    /// A short human-readable description of the kind.
    pub fn as_str(&self) -> (s: &'static str)
        ensures
            s@ == kind_text(*self),
    {
        match self {
            ErrorKind::UnknownError => "unknown error",
        }
    }
}

/// The errors of the playground: one of its own kinds, or an error of the
/// standard library's I/O.
#[derive(Debug)]
pub enum PlaygroundError {
    Custom(ErrorKind),
    IoError(std::io::Error),
}

/// Results whose error is a `PlaygroundError`.
pub type Result<T> = std::result::Result<T, PlaygroundError>;

impl ErrorKind {
    /// The message of the kind: `error_code ` and its description.
    pub fn message(&self) -> (m: String)
        ensures
            m@ == "error_code "@ + kind_text(*self),
    {
        let mut m = String::from_str("error_code ");
        m.append(self.as_str());
        m
    }
}

impl From<std::io::Error> for PlaygroundError {
    fn from(e: std::io::Error) -> (r: PlaygroundError) {
        PlaygroundError::IoError(e)
    }
}

impl vstd::std_specs::convert::FromSpecImpl<std::io::Error> for PlaygroundError {
    open spec fn obeys_from_spec() -> bool {
        true
    }

    open spec fn from_spec(e: std::io::Error) -> PlaygroundError {
        PlaygroundError::IoError(e)
    }
}

impl PlaygroundError {
    /// The message of a playground error of one of its own kinds:
    /// `playground error: ` and the kind's message. The message of an I/O
    /// error is the standard library's and is not made here.
    pub fn custom_message(kind: ErrorKind) -> (m: String)
        ensures
            m@ == "playground error: "@ + "error_code "@ + kind_text(kind),
    {
        let mut m = String::from_str("playground error: ");
        let k = kind.message();
        m.append(k.as_str());
        proof {
            assert(m@ =~= "playground error: "@ + "error_code "@ + kind_text(kind));
        }
        m
    }
}

} // verus!
