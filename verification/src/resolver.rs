//! From raw text to a command and the context of its invocation.

use vstd::prelude::*;
use std::sync::Arc;
use crate::command::{Command, CommandContext};
use crate::input::CommandInput;
use crate::registry::Registry;
use crate::sender::Sender;
use crate::text::{
    after_words, lemma_after_words, lemma_after_words_step, lemma_skip_whitespace_from, lemma_tokens_from_skip,
    lemma_tokens_from_unfold, lemma_tokens_of_suffix, same_text, skip_whitespace_from,
    split_tokens, strip_slash, texts, tokens, tokens_from, whitespace_end, word_end,
};

verus! {

/// A line of text that a sender submitted as a command.
pub struct CommandDispatched {
    pub command: String,
    pub sender: Sender,
}

/// A submitted line that was resolved to a command.
pub struct ResolvedCommandDispatched<E> {
    pub command: Arc<Command<E>>,
    pub ctx: CommandContext<E>,
    pub sender: Sender,
}

/// Feedback for a sender.
pub struct Feedback {
    pub sender: Sender,
    pub message: String,
}

/// What became of one submitted line.
pub enum Resolution<E> {
    /// The line names a command: it goes on to execution.
    Resolved(ResolvedCommandDispatched<E>),
    /// The line names no command: the sender is told so, and the line is
    /// dropped.
    Failed(Feedback),
}

/// The text that a sender is told when a line names no command.
pub open spec fn unknown_command() -> Seq<char> {
    "Unknown command"@
}

/// Number of words at the front of `line` that are the words of `name`: all
/// words of `name` where `line` begins with them, none otherwise.
pub open spec fn name_words(line: Seq<char>, name: Seq<char>) -> nat {
    if tokens(name).is_prefix_of(tokens(line)) {
        tokens(name).len()
    } else {
        0
    }
}

/// The argument text of a line for a command called `name`: the line without
/// its leading slash, without the words of the command's name at its front,
/// and without the whitespace that follows them. A line that does not begin
/// with the words of the name loses its leading whitespace only.
pub open spec fn argument_text(text: Seq<char>, name: Seq<char>) -> Seq<char> {
    let line = strip_slash(text);
    line.subrange(
        skip_whitespace_from(line, after_words(line, 0, name_words(line, name))),
        line.len() as int,
    )
}

/// The argument text of a line that begins with the words of the command's
/// name holds the other words of the line and nothing else: a parser never
/// sees the words that selected the command.
pub proof fn lemma_argument_text(text: Seq<char>, name: Seq<char>)
    requires
        tokens(name).is_prefix_of(tokens(strip_slash(text))),
    ensures
        tokens(argument_text(text, name)) == tokens(strip_slash(text)).subrange(
            tokens(name).len() as int,
            tokens(strip_slash(text)).len() as int,
        ),
{
    let line = strip_slash(text);
    let n = tokens(name).len();
    lemma_after_words(line, 0, n);
    let behind = after_words(line, 0, n);
    lemma_skip_whitespace_from(line, behind);
    lemma_tokens_from_skip(line, behind);
    lemma_tokens_of_suffix(line, skip_whitespace_from(line, behind));
}

/// `text` without one leading slash.
pub fn without_slash(text: &str) -> (r: &str)
    ensures
        r@ == strip_slash(text@),
{
    let len = text.unicode_len();
    if len > 0 && text.get_char(0) == '/' {
        text.substring_char(1, len)
    } else {
        text
    }
}

/// The context in which `command` runs on the line `text` for `sender`: the
/// command, the sender, and an input over the argument text with the cursor
/// at its start.
pub fn create_ctx<E>(text: &str, command: Arc<Command<E>>, sender: Sender) -> (r: CommandContext<E>)
    requires
        text@.len() <= u32::MAX,
    ensures
        r.command == command,
        r.sender == sender,
        r.input.wf(),
        r.input.cursor == 0,
        r.input.input@ == argument_text(text@, command.name@),
{
    let line = without_slash(text);
    let len = line.unicode_len();
    let words = split_tokens(command.name.as_str());
    let ghost path = tokens(command.name@);
    let ghost all = tokens(line@);
    // Read the words of the name off the front of the line.
    let mut behind: usize = 0;
    let mut k: usize = 0;
    let mut named = true;
    proof {
        assert(all.subrange(0, all.len() as int) == all);
    }
    while k < words.len()
        invariant_except_break
            named,
        invariant
            len == line@.len(),
            path == texts(words@),
            all == tokens(line@),
            k <= words@.len(),
            behind <= len,
            named ==> {
                &&& k <= all.len()
                &&& behind == after_words(line@, 0, k as nat)
                &&& tokens_from(line@, behind as int) == all.subrange(k as int, all.len() as int)
                &&& all.subrange(0, k as int) == path.subrange(0, k as int)
            },
            !named ==> !path.is_prefix_of(all),
        ensures
            named ==> k == words@.len(),
        decreases words@.len() - k,
    {
        proof {
            lemma_tokens_from_unfold(line@, behind as int);
            lemma_after_words(line@, 0, k as nat);
        }
        let start = whitespace_end(line, behind, len);
        let end = word_end(line, start, len);
        if start == end || !same_text(line.substring_char(start, end), words[k].as_str()) {
            proof {
                if path.is_prefix_of(all) {
                    assert(all.subrange(0, path.len() as int)[k as int] == path[k as int]);
                    if start < end {
                        assert(all.subrange(k as int, all.len() as int)[0] == all[k as int]);
                    }
                }
            }
            named = false;
            break ;
        }
        proof {
            let rest = all.subrange(k as int, all.len() as int);
            let word = line@.subrange(start as int, end as int);
            assert(rest == seq![word] + tokens_from(line@, end as int));
            assert(rest.len() >= 1);
            assert(rest[0] == all[k as int]);
            assert(tokens_from(line@, end as int) == rest.subrange(1, rest.len() as int));
            assert(tokens_from(line@, end as int) == all.subrange(k + 1, all.len() as int));
            assert(all.subrange(0, k + 1) == all.subrange(0, k as int).push(all[k as int]));
            assert(path.subrange(0, k + 1) == path.subrange(0, k as int).push(path[k as int]));
            assert(after_words(line@, 0, (k + 1) as nat) == end) by {
                lemma_after_words_step(line@, 0, k as nat);
            }
        }
        behind = end;
        k += 1;
    }
    proof {
        if named {
            assert(path.subrange(0, path.len() as int) == path);
        }
    }
    let from = if named {
        behind
    } else {
        0
    };
    let start = whitespace_end(line, from, len);
    let arguments = String::from_str(line.substring_char(start, len));
    CommandContext::new(CommandInput::of(arguments), command, sender)
}

/// What resolving the line `text` of `sender` yields, given the command that
/// the lookup found.
pub open spec fn resolved<E>(
    registry: &Registry<E>,
    text: Seq<char>,
    sender: Sender,
    r: Result<(Arc<Command<E>>, CommandContext<E>), String>,
) -> bool {
    match registry.lookup(tokens(strip_slash(text))) {
        Some(k) => {
            &&& r is Ok
            &&& r->Ok_0.0 == registry.commands@[k]
            &&& r->Ok_0.1.command == registry.commands@[k]
            &&& r->Ok_0.1.sender == sender
            &&& r->Ok_0.1.input.wf()
            &&& r->Ok_0.1.input.cursor == 0
            &&& r->Ok_0.1.input.input@ == argument_text(text, registry.commands@[k].name@)
            &&& tokens(r->Ok_0.1.input.input@) == tokens(strip_slash(text)).subrange(
                registry.literal_path(k).len() as int,
                tokens(strip_slash(text)).len() as int,
            )
        },
        None => {
            &&& r is Err
            &&& r->Err_0@ == unknown_command()
        },
    }
}

/// Resolves a line of text to a command and the context of its invocation.
///
/// A leading slash is dropped. The command is the most specific one whose
/// literal path is a prefix of the line's tokens. The context holds an input
/// over the argument text alone: its tokens are the tokens of the line behind
/// the literal path. A line that names no command fails with the text of
/// [`unknown_command`].
pub fn resolve<E>(registry: &Registry<E>, text: &str, sender: Sender) -> (r: Result<
    (Arc<Command<E>>, CommandContext<E>),
    String,
>)
    requires
        registry.wf(),
        text@.len() <= u32::MAX,
    ensures
        resolved(registry, text@, sender, r),
{
    match registry.find_command(without_slash(text)) {
        None => Err(String::from_str("Unknown command")),
        Some(command) => {
            proof {
                registry.lemma_lookup_found(tokens(strip_slash(text@)));
                lemma_argument_text(text@, command.name@);
            }
            let ctx = create_ctx(text, command.clone(), sender);
            Ok((command, ctx))
        },
    }
}

/// What became of the message `m`: resolved with its own sender, or failed
/// with feedback for its own sender.
pub open spec fn resolution_of<E>(
    registry: &Registry<E>,
    m: CommandDispatched,
    r: Resolution<E>,
) -> bool {
    match r {
        Resolution::Resolved(done) => {
            &&& done.sender == m.sender
            &&& resolved(registry, m.command@, m.sender, Ok((done.command, done.ctx)))
        },
        Resolution::Failed(feedback) => {
            &&& feedback.sender == m.sender
            &&& resolved(registry, m.command@, m.sender, Err(feedback.message))
        },
    }
}

/// Resolves every submitted line, in the order of submission. The result
/// holds one entry per line, in the same order.
pub fn command_resolver<E>(registry: &Registry<E>, dispatched: &Vec<CommandDispatched>) -> (r: Vec<
    Resolution<E>,
>)
    requires
        registry.wf(),
        forall|i: int|
            0 <= i < dispatched@.len() ==> (#[trigger] dispatched@[i]).command@.len() <= u32::MAX,
    ensures
        r@.len() == dispatched@.len(),
        forall|i: int|
            0 <= i < r@.len() ==> resolution_of(registry, dispatched@[i], #[trigger] r@[i]),
{
    let mut out: Vec<Resolution<E>> = Vec::new();
    let mut i: usize = 0;
    while i < dispatched.len()
        invariant
            registry.wf(),
            i <= dispatched@.len(),
            out@.len() == i,
            forall|j: int|
                0 <= j < dispatched@.len() ==> (#[trigger] dispatched@[j]).command@.len()
                    <= u32::MAX,
            forall|j: int| 0 <= j < i ==> resolution_of(registry, dispatched@[j], #[trigger] out@[j]),
        decreases dispatched@.len() - i,
    {
        let sender = dispatched[i].sender;
        let outcome = match resolve(registry, dispatched[i].command.as_str(), sender) {
            Err(message) => Resolution::Failed(Feedback { sender, message }),
            Ok((command, ctx)) => Resolution::Resolved(
                ResolvedCommandDispatched { command, ctx, sender },
            ),
        };
        out.push(outcome);
        i += 1;
    }
    out
}

} // verus!
