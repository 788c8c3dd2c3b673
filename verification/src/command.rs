//! Commands, their arguments and the context of one invocation.

use vstd::prelude::*;
use std::sync::Arc;
use crate::input::CommandInput;
use crate::parser::{parser_result_view, ArgumentParser, ArgumentValue, ArgumentValueView};
use crate::sender::Sender;
use crate::suggestion::{ArgumentSuggester, NoSuggestions};

verus! {

/// One declared argument of a command. Arguments are consumed strictly from
/// left to right.
pub struct CommandArgument {
    pub name: String,
    pub required: bool,
    pub parser: Box<dyn ArgumentParser>,
    pub suggester: Box<dyn ArgumentSuggester>,
}

impl CommandArgument {
    /// An argument with the given name, requiredness and parser, and without
    /// completion candidates.
    pub fn new(name: String, required: bool, parser: Box<dyn ArgumentParser>) -> (r: Self)
        ensures
            r.name == name,
            r.required == required,
            r == (CommandArgument { name, required, parser, suggester: Box::new(NoSuggestions) }),
    {
        CommandArgument { name, required, parser, suggester: Box::new(NoSuggestions) }
    }

    /// This argument with `suggester` to propose its completion candidates.
    pub fn with_suggester(self, suggester: Box<dyn ArgumentSuggester>) -> (r: Self)
        ensures
            r.name == self.name,
            r.required == self.required,
            r == (CommandArgument {
                name: self.name,
                required: self.required,
                parser: self.parser,
                suggester,
            }),
    {
        CommandArgument {
            name: self.name,
            required: self.required,
            parser: self.parser,
            suggester,
        }
    }
}

/// What runs a command. The library hands the executor the context of the
/// invocation and passes on whatever it returns.
pub trait CommandExecutor: Sized {
    /// What running the command yields.
    type Output;

    /// Runs the command in `context`.
    fn execute(&self, context: CommandContext<Self>) -> Self::Output;
}

/// A command: a name of one or more literal words, the arguments that follow
/// them, and what runs it.
pub struct Command<E> {
    pub name: String,
    pub args: Vec<CommandArgument>,
    pub executor: E,
}

/// The binding of one invocation: the argument text with its cursor, the
/// command that was resolved, and who sent it.
pub struct CommandContext<E> {
    pub input: CommandInput,
    pub command: Arc<Command<E>>,
    pub sender: Sender,
}

/// What validating arguments yields: success or the first failure, and where
/// the cursor is left.
pub struct Validated {
    pub result: Result<(), Seq<char>>,
    pub cursor: int,
}

/// Validation of the arguments from index `from` on, each parsed where the
/// one before it left the cursor. The first failure ends it.
pub open spec fn validated(
    args: Seq<CommandArgument>,
    sender: Sender,
    input: Seq<char>,
    cursor: int,
    from: int,
) -> Validated
    decreases args.len() - from,
{
    if 0 <= from < args.len() {
        let parsed = args[from].parser.parsed(sender, input, cursor);
        match parsed.result {
            Ok(_) => validated(args, sender, input, parsed.cursor, from + 1),
            Err(e) => Validated { result: Err(e), cursor: parsed.cursor },
        }
    } else {
        Validated { result: Ok(()), cursor }
    }
}

/// Index of the first argument at or after `from` that is called `name`.
pub open spec fn argument_position(args: Seq<CommandArgument>, name: Seq<char>, from: int) -> Option<
    int,
>
    decreases args.len() - from,
{
    if 0 <= from < args.len() {
        if args[from].name@ == name {
            Some(from)
        } else {
            argument_position(args, name, from + 1)
        }
    } else {
        None
    }
}

/// The text of the failure for an argument that the command does not declare.
pub open spec fn argument_not_found(name: Seq<char>) -> Seq<char> {
    "Argument '"@ + name + "' not found."@
}

/// `argument_position` finds the first argument of that name, if there is one.
pub proof fn lemma_argument_position(args: Seq<CommandArgument>, name: Seq<char>, from: int)
    requires
        0 <= from <= args.len(),
    ensures
        match argument_position(args, name, from) {
            Some(i) => {
                &&& from <= i < args.len()
                &&& args[i].name@ == name
                &&& forall|j: int| from <= j < i ==> (#[trigger] args[j]).name@ != name
            },
            None => forall|j: int| from <= j < args.len() ==> (#[trigger] args[j]).name@ != name,
        },
    decreases args.len() - from,
{
    if from < args.len() && args[from].name@ != name {
        lemma_argument_position(args, name, from + 1);
    }
}

impl<E> Command<E> {
    /// Runs the command in `c` and passes on what its executor returns: the
    /// result is an outcome of this command's executor on exactly this
    /// context.
    pub fn execute(&self, c: CommandContext<E>) -> (r: E::Output) where E: CommandExecutor
        ensures
            E::execute.ensures((&self.executor, c), r),
    {
        self.executor.execute(c)
    }

    /// Validates the declared arguments in order against `input`, each with
    /// its own parser. Stops at the first argument that fails and returns its
    /// failure; the cursor is left where that parser left it.
    pub fn validate(&self, c: &CommandContext<E>, input: &mut CommandInput) -> (r: Result<
        (),
        String,
    >)
        requires
            old(input).wf(),
        ensures
            final(input).wf(),
            final(input).input@ == old(input).input@,
            old(input).cursor <= final(input).cursor,
            final(input).cursor == validated(
                self.args@,
                c.sender,
                old(input).input@,
                old(input).cursor as int,
                0,
            ).cursor,
            r is Ok <==> validated(
                self.args@,
                c.sender,
                old(input).input@,
                old(input).cursor as int,
                0,
            ).result is Ok,
            r matches Err(e) ==> validated(
                self.args@,
                c.sender,
                old(input).input@,
                old(input).cursor as int,
                0,
            ).result == Err::<(), Seq<char>>(e@),
    {
        let mut i: usize = 0;
        while i < self.args.len()
            invariant
                i <= self.args.len(),
                input.wf(),
                input.input@ == old(input).input@,
                old(input).cursor <= input.cursor,
                validated(self.args@, c.sender, input.input@, input.cursor as int, i as int)
                    == validated(
                    self.args@,
                    c.sender,
                    old(input).input@,
                    old(input).cursor as int,
                    0,
                ),
            decreases self.args.len() - i,
        {
            match self.args[i].parser.parse(c.sender, input) {
                Ok(_) => {},
                Err(e) => {
                    return Err(e);
                },
            }
            i += 1;
        }
        Ok(())
    }
}

impl<E> CommandContext<E> {
    /// The context of one invocation.
    pub fn new(input: CommandInput, command: Arc<Command<E>>, sender: Sender) -> (r: Self)
        ensures
            r.input == input,
            r.command == command,
            r.sender == sender,
    {
        CommandContext { input, command, sender }
    }

    /// Parses the argument called `name` from the input at its cursor, with
    /// the parser that the command declares for it. Fails without reading
    /// anything if the command declares no such argument.
    pub fn arg(&mut self, name: &str) -> (r: Result<ArgumentValue, String>)
        requires
            old(self).input.wf(),
        ensures
            final(self).input.wf(),
            final(self).input.input@ == old(self).input.input@,
            final(self).command == old(self).command,
            final(self).sender == old(self).sender,
            match argument_position(old(self).command.args@, name@, 0) {
                Some(i) => {
                    let parsed = old(self).command.args@[i].parser.parsed(
                        old(self).sender,
                        old(self).input.input@,
                        old(self).input.cursor as int,
                    );
                    &&& final(self).input.cursor == parsed.cursor
                    &&& parser_result_view(r) == parsed.result
                },
                None => {
                    &&& final(self).input.cursor == old(self).input.cursor
                    &&& r is Err
                    &&& r->Err_0@ == argument_not_found(name@)
                },
            },
    {
        let command = self.command.clone();
        let wanted = String::from_str(name);
        let mut i: usize = 0;
        while i < command.args.len()
            invariant
                i <= command.args.len(),
                wanted@ == name@,
                *self == *old(self),
                command == self.command,
                self.input.wf(),
                argument_position(command.args@, name@, i as int) == argument_position(
                    command.args@,
                    name@,
                    0,
                ),
            decreases command.args.len() - i,
        {
            if command.args[i].name == wanted {
                return command.args[i].parser.parse(self.sender, &mut self.input);
            }
            i += 1;
        }
        proof {
            lemma_argument_position(command.args@, name@, 0);
        }
        let mut message = String::from_str("Argument '");
        message.append(name);
        message.append("' not found.");
        Err(message)
    }
}

} // verus!
