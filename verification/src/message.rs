//! Notices for the user.

use vstd::prelude::*;

verus! {

/// A notice, by how grave it is.
#[derive(Debug, PartialEq, Eq)]
pub enum Message {
    Info(String),
    Warning(String),
    Error(String),
    LoadError(String),
}

impl Clone for Message {
    fn clone(&self) -> (copy: Self)
        ensures
            copy == *self,
    {
        match self {
            Message::Info(m) => Message::Info(m.clone()),
            Message::Warning(m) => Message::Warning(m.clone()),
            Message::Error(m) => Message::Error(m.clone()),
            Message::LoadError(m) => Message::LoadError(m.clone()),
        }
    }
}

impl Message {
    /// The text of the notice.
    pub open spec fn text(self) -> Seq<char> {
        match self {
            Message::Info(m) => m@,
            Message::Warning(m) => m@,
            Message::Error(m) => m@,
            Message::LoadError(m) => m@,
        }
    }

    /// A notice that only informs.
    pub fn info(m: &str) -> (message: Self)
        ensures
            message is Info,
            message.text() == m@,
    {
        Message::Info(m.to_owned())
    }

    /// A notice that warns.
    pub fn warn(m: &str) -> (message: Self)
        ensures
            message is Warning,
            message.text() == m@,
    {
        Message::Warning(m.to_owned())
    }

    /// A notice of an error.
    pub fn err(m: &str) -> (message: Self)
        ensures
            message is Error,
            message.text() == m@,
    {
        Message::Error(m.to_owned())
    }
}

} // verus!
