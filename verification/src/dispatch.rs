//! The last stage of dispatch: arguments are validated before anything runs,
//! and what an executor returns becomes feedback for the sender.

use vstd::prelude::*;
use crate::command::validated;
use crate::parser::CommandResult;
use crate::resolver::{Feedback, ResolvedCommandDispatched};
use crate::sender::Sender;

verus! {

/// What to do with a resolved command.
pub enum Execution<E> {
    /// Every argument is valid: run the executor on this invocation.
    Run(ResolvedCommandDispatched<E>),
    /// An argument is invalid: tell the sender, and run nothing.
    Rejected(Feedback),
}

/// Validates the arguments of a resolved command, in order, before anything
/// runs. Validation reads a copy of the input, so the executor finds the
/// cursor where the resolver left it. The first argument that fails rejects
/// the invocation with that argument's failure as feedback.
pub fn screen<E>(resolved: ResolvedCommandDispatched<E>) -> (r: Execution<E>)
    requires
        resolved.ctx.input.wf(),
    ensures
        match validated(
            resolved.command.args@,
            resolved.ctx.sender,
            resolved.ctx.input.input@,
            resolved.ctx.input.cursor as int,
            0,
        ).result {
            Ok(_) => r == Execution::Run(resolved),
            Err(e) => {
                &&& r is Rejected
                &&& r->Rejected_0.sender == resolved.sender
                &&& r->Rejected_0.message@ == e
            },
        },
{
    let mut input = resolved.ctx.input.clone();
    match resolved.command.validate(&resolved.ctx, &mut input) {
        Ok(_) => Execution::Run(resolved),
        Err(message) => Execution::Rejected(Feedback { sender: resolved.sender, message }),
    }
}

/// The feedback for what an executor returned: its text, for success and for
/// failure alike, addressed to the sender of the command.
pub fn report(sender: Sender, result: CommandResult) -> (r: Feedback)
    ensures
        r.sender == sender,
        match result {
            Ok(text) => r.message == text,
            Err(text) => r.message == text,
        },
{
    match result {
        Ok(text) => Feedback { sender, message: text },
        Err(text) => Feedback { sender, message: text },
    }
}

} // verus!
