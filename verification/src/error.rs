//! What the reader reports when it refuses a text.

use vstd::prelude::*;
use vstd::string::StringExecFns;
use crate::lexer::span::FilePosition;
use crate::text::{decimal, push_decimal};

verus! {

/// What an [`Error`] says: a message, and where in the source it arose, if
/// that is known.
pub struct Failure {
    pub msg: Seq<char>,
    pub pos: Option<FilePosition>,
}

impl Failure {
    /// A failure with a message and no position.
    pub open spec fn plain(msg: Seq<char>) -> Failure {
        Failure { msg, pos: None }
    }

    /// A failure with a message and a position.
    pub open spec fn at(msg: Seq<char>, pos: FilePosition) -> Failure {
        Failure { msg, pos: Some(pos) }
    }

    /// The message as it is shown: behind the line and column at which the
    /// position starts, where there is one.
    pub open spec fn display(self) -> Seq<char> {
        match self.pos {
            Some(p) => seq!['['] + decimal(p.start_line as nat) + seq![':'] + decimal(
                p.start_col as nat,
            ) + seq![']', ':', ' '] + self.msg,
            None => self.msg,
        }
    }
}

/// An error of the lexer or the parser.
#[derive(Debug)]
pub struct Error {
    msg: String,
    fpos: Option<FilePosition>,
}

impl View for Error {
    type V = Failure;

    closed spec fn view(&self) -> Failure {
        Failure { msg: self.msg@, pos: self.fpos }
    }
}

impl Error {
    /// An error with the given message and no position.
    pub fn new(msg: String) -> (e: Error)
        ensures
            e@ == Failure::plain(msg@),
    {
        Error { msg, fpos: None }
    }

    /// Notes where in the source the error arose.
    pub fn set_file_pos(&mut self, fpos: FilePosition)
        ensures
            final(self)@ == Failure::at(old(self)@.msg, fpos),
    {
        self.fpos = Some(fpos);
    }

    /// The message, without the position.
    pub fn get_message(&self) -> (r: &str)
        ensures
            r@ == self@.msg,
    {
        self.msg.as_str()
    }

    /// Where in the source the error arose, if that is known.
    pub fn file_pos(&self) -> (r: Option<FilePosition>)
        ensures
            r == self@.pos,
    {
        self.fpos
    }

    /// The error as it is shown to a reader: `[line:col]: message`, or the
    /// message alone where no position is known.
    pub fn to_string(&self) -> (r: String)
        ensures
            r@ == self@.display(),
    {
        let mut out = String::new();
        match self.fpos {
            Some(p) => {
                out.push('[');
                push_decimal(&mut out, p.start_line as u64);
                out.push(':');
                push_decimal(&mut out, p.start_col as u64);
                out.push(']');
                out.push(':');
                out.push(' ');
                out.append(self.msg.as_str());
                proof {
                    assert(out@ =~= self@.display());
                }
            },
            None => {
                out.append(self.msg.as_str());
                proof {
                    assert(out@ =~= self@.display());
                }
            },
        }
        out
    }
}

impl From<String> for Error {
    fn from(value: String) -> (e: Error)
        ensures
            e@ == Failure::plain(value@),
    {
        Error { msg: value, fpos: None }
    }
}

impl vstd::std_specs::convert::FromSpecImpl<String> for Error {
    open spec fn obeys_from_spec() -> bool {
        true
    }

    closed spec fn from_spec(value: String) -> Error {
        Error { msg: value, fpos: None }
    }
}

/// The error with the message `value` and no position.  The result is known
/// by what it stands for, which `from` states.
impl<'a> From<&'a str> for Error {
    fn from(value: &'a str) -> (e: Error)
        ensures
            e@ == Failure::plain(value@),
    {
        Error::new(value.to_owned())
    }
}

impl<'a> vstd::std_specs::convert::FromSpecImpl<&'a str> for Error {
    open spec fn obeys_from_spec() -> bool {
        false
    }

    open spec fn from_spec(value: &'a str) -> Error {
        choose|e: Error| e@ == Failure::plain(value@)
    }
}

} // verus!
