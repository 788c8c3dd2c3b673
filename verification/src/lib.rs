//! Command dispatch and tab completion for a game server.
//!
//! Players and the operator at the console submit lines of text. A line is
//! resolved against the registered commands, its arguments are parsed and
//! validated, the command runs, and its feedback goes back to the sender. The
//! same grammar backs completion: as a line is typed, the engine proposes the
//! next keyword or argument value.
//!
//! - [`text`]: whitespace, tokens and the other lexical notions, as
//!   specifications over sequences of characters, with the functions on
//!   strings that compute them.
//! - [`input`]: the cursor-based tokenizer.
//! - [`parser`]: the argument parsers.
//! - [`suggestion`]: completion candidates and the suggesters of arguments.
//! - [`command`]: commands, arguments and the context of an invocation.
//! - [`graph`]: the graph of literal and argument nodes.
//! - [`registry`]: the registry of commands and its lookups.
//! - [`resolver`]: from a line to a command and its context.
//! - [`dispatch`]: validation before execution, and feedback after it.
//! - [`suggest`]: the suggestion engine.
//! - [`sender`]: who sent a command.

pub mod command;
pub mod dispatch;
pub mod graph;
pub mod input;
pub mod parser;
pub mod registry;
pub mod resolver;
pub mod sender;
pub mod suggest;
pub mod suggestion;
pub mod text;

pub use command::{Command, CommandArgument, CommandContext, CommandExecutor};
pub use input::CommandInput;
pub use parser::{ArgumentParser, ArgumentValue, CommandResult, ParserResult};
pub use resolver::{CommandDispatched, ResolvedCommandDispatched};
pub use sender::Sender;
pub use suggestion::{ArgumentSuggester, Suggestion};
