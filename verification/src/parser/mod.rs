//! Argument parsers: one implementation per kind of argument.

use vstd::prelude::*;
use crate::input::CommandInput;
use crate::sender::Sender;

pub mod integer;
pub mod string;

verus! {

/// The value of a parsed argument.
#[derive(Debug, PartialEq, Eq)]
pub enum ArgumentValue {
    /// An unsigned 32-bit integer.
    Integer(u32),
    /// A piece of text.
    Text(String),
}

/// An argument value as plain data.
pub enum ArgumentValueView {
    Integer(u32),
    Text(Seq<char>),
}

impl View for ArgumentValue {
    type V = ArgumentValueView;

    open spec fn view(&self) -> ArgumentValueView {
        match self {
            ArgumentValue::Integer(v) => ArgumentValueView::Integer(*v),
            ArgumentValue::Text(t) => ArgumentValueView::Text(t@),
        }
    }
}

/// What a parser returns: the value, or the text of a failure.
pub type ParserResult = Result<ArgumentValue, String>;

/// What an executor returns: feedback text, for success or for failure.
pub type CommandResult = Result<String, String>;

/// A parser result as plain data.
pub open spec fn parser_result_view(r: ParserResult) -> Result<ArgumentValueView, Seq<char>> {
    match r {
        Ok(v) => Ok(v@),
        Err(e) => Err(e@),
    }
}

/// What parsing at some cursor yields: the result, and where the cursor is
/// left, whether or not parsing succeeded.
pub struct Parsed {
    pub result: Result<ArgumentValueView, Seq<char>>,
    pub cursor: int,
}

impl ArgumentValue {
    /// The integer held, or a failure text if this is not an integer.
    pub fn as_integer(&self) -> (r: Result<u32, String>)
        ensures
            *self matches ArgumentValue::Integer(v) ==> r == Ok::<u32, String>(v),
            *self is Text ==> r is Err && r->Err_0@ == "expected an integer argument, found text"@,
    {
        match self {
            ArgumentValue::Integer(v) => Ok(*v),
            ArgumentValue::Text(_) => Err(
                String::from_str("expected an integer argument, found text"),
            ),
        }
    }

    /// The text held, or a failure text if this is not text.
    pub fn as_text(&self) -> (r: Result<String, String>)
        ensures
            *self matches ArgumentValue::Text(t) ==> r is Ok && r->Ok_0@ == t@,
            *self is Integer ==> r is Err && r->Err_0@
                == "expected a text argument, found an integer"@,
    {
        match self {
            ArgumentValue::Text(t) => Ok(t.clone()),
            ArgumentValue::Integer(_) => Err(
                String::from_str("expected a text argument, found an integer"),
            ),
        }
    }
}

/// A parser for one kind of argument.
///
/// A parser reads from the shared input at its cursor and may look at the
/// sender. It never changes the text and never moves the cursor backwards,
/// not even when it fails. What it does is a function of the sender, the text
/// and the cursor, which each implementation states as `parsed`.
pub trait ArgumentParser: Send + Sync {
    /// The result of parsing `input` at `cursor` for `sender`, and the cursor
    /// afterwards.
    spec fn parsed(&self, sender: Sender, input: Seq<char>, cursor: int) -> Parsed;

    /// Parses one argument from `input`, advancing its cursor.
    fn parse(&self, sender: Sender, input: &mut CommandInput) -> (r: ParserResult)
        requires
            old(input).wf(),
        ensures
            final(input).wf(),
            final(input).input@ == old(input).input@,
            old(input).cursor <= final(input).cursor,
            final(input).cursor == self.parsed(
                sender,
                old(input).input@,
                old(input).cursor as int,
            ).cursor,
            parser_result_view(r) == self.parsed(
                sender,
                old(input).input@,
                old(input).cursor as int,
            ).result,
    ;

    /// A parser of this kind.
    fn new() -> Self where Self: Sized;
}

} // verus!
