//! Errors reported by the board operations.
use vstd::prelude::*;

use crate::text::append_str;

verus! {

/// An error of the application: a short kind (`"input"`, `"auth"`,
/// `"forbidden"`, ...) and a message.
#[derive(Debug)]
pub struct AppErr(pub &'static str, pub String);

impl AppErr {
    /// The text of the error as it is shown: `"<kind>: <message>"`.
    pub open spec fn text(&self) -> Seq<char> {
        self.0@ + ": "@ + self.1@
    }

    /// The error as text: `"<kind>: <message>"`.
    pub fn to_string(&self) -> (s: String)
        ensures
            s@ == self.text(),
    {
        let mut s = String::new();
        append_str(&mut s, self.0);
        append_str(&mut s, ": ");
        append_str(&mut s, self.1.as_str());
        s
    }
}

/// An error of a board operation: one of the application's own errors, or
/// an error of the stored tables (a violated unique name or foreign key, a
/// row that a query needs and does not find), with the text the storage
/// engine gives it.
#[derive(Debug)]
pub enum CmdError {
    App(AppErr),
    Store(String),
}

impl CmdError {
    /// The text of the error as it is shown.
    pub open spec fn text(&self) -> Seq<char> {
        match self {
            CmdError::App(e) => e.text(),
            CmdError::Store(m) => m@,
        }
    }

    /// The error as text.
    pub fn to_string(&self) -> (s: String)
        ensures
            s@ == self.text(),
    {
        match self {
            CmdError::App(e) => e.to_string(),
            CmdError::Store(m) => m.clone(),
        }
    }

    /// Whether this is the application error of the given kind and message.
    pub open spec fn is_app(&self, kind: Seq<char>, msg: Seq<char>) -> bool {
        &&& self is App
        &&& self->App_0.0@ == kind
        &&& self->App_0.1@ == msg
    }
}

/// `r` is the application error of the given kind and message.
pub open spec fn fails_with<T>(r: Result<T, CmdError>, kind: Seq<char>, msg: Seq<char>) -> bool {
    match r {
        Err(e) => e.is_app(kind, msg),
        Ok(_) => false,
    }
}

/// `r` is an error with the given text.
pub open spec fn fails_with_text<T>(r: Result<T, CmdError>, text: Seq<char>) -> bool {
    match r {
        Err(e) => e.text() == text,
        Ok(_) => false,
    }
}

/// An application error with the given kind and message.
pub fn app_err(kind: &'static str, msg: String) -> (e: CmdError)
    ensures
        e.is_app(kind@, msg@),
{
    CmdError::App(AppErr(kind, msg))
}

/// An application error whose message is a string slice.
pub fn app_err_str(kind: &'static str, msg: &str) -> (e: CmdError)
    ensures
        e.is_app(kind@, msg@),
{
    let mut m = String::new();
    append_str(&mut m, msg);
    CmdError::App(AppErr(kind, m))
}

} // verus!
