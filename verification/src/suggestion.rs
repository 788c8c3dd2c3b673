//! Completion candidates and the suggesters that propose them.

use vstd::prelude::*;
use crate::input::CommandInput;
use crate::sender::Sender;
use crate::text::{skip_whitespace_from, token_end};

verus! {

/// One completion candidate: the text to insert and an optional tooltip.
#[derive(Debug, PartialEq, Eq)]
pub struct Suggestion {
    pub content: String,
    pub tooltip: Option<String>,
}

/// A suggestion as plain text.
pub struct SuggestionView {
    pub content: Seq<char>,
    pub tooltip: Option<Seq<char>>,
}

impl View for Suggestion {
    type V = SuggestionView;

    open spec fn view(&self) -> SuggestionView {
        SuggestionView {
            content: self.content@,
            tooltip: match self.tooltip {
                Some(t) => Some(t@),
                None => None,
            },
        }
    }
}

/// The plain-text form of a list of suggestions, in order.
pub open spec fn suggestion_views(list: Seq<Suggestion>) -> Seq<SuggestionView> {
    Seq::new(list.len(), |i: int| list[i]@)
}

impl Suggestion {
    /// A suggestion with the given content and no tooltip.
    pub fn of(content: String) -> (r: Self)
        ensures
            r@ == (SuggestionView { content: content@, tooltip: None }),
    {
        Suggestion { content, tooltip: None }
    }
}

impl Clone for Suggestion {
    /// A copy with the same content and tooltip.
    fn clone(&self) -> (r: Self)
        ensures
            r@ == self@,
    {
        let tooltip = match &self.tooltip {
            Some(t) => Some(t.clone()),
            None => None,
        };
        Suggestion { content: self.content.clone(), tooltip }
    }
}

/// What a suggester yields: the candidates for its argument, and where the
/// cursor is left after the argument's text.
pub struct Suggested {
    pub candidates: Seq<SuggestionView>,
    pub cursor: int,
}

/// The suggester of one argument: it proposes completion candidates for the
/// position of its argument.
///
/// A suggester reads its argument's text from the shared input and may look
/// at the sender. Like a parser it never changes the text and never moves
/// the cursor backwards. What it does is a function of the sender, the text
/// and the cursor, which each implementation states as `suggested`.
pub trait ArgumentSuggester: Send + Sync {
    /// The candidates for this argument when `input` is read at `cursor` for
    /// `sender`, and the cursor after the argument's text.
    spec fn suggested(&self, sender: Sender, input: Seq<char>, cursor: int) -> Suggested;

    /// Reads this argument's text from `input` and proposes completions for it.
    fn suggest(&self, sender: Sender, input: &mut CommandInput) -> (r: Vec<Suggestion>)
        requires
            old(input).wf(),
        ensures
            final(input).wf(),
            final(input).input@ == old(input).input@,
            old(input).cursor <= final(input).cursor,
            final(input).cursor == self.suggested(
                sender,
                old(input).input@,
                old(input).cursor as int,
            ).cursor,
            suggestion_views(r@) == self.suggested(
                sender,
                old(input).input@,
                old(input).cursor as int,
            ).candidates,
    ;
}

/// The suggester of an argument without candidates: it reads the argument's
/// token and proposes nothing.
pub struct NoSuggestions;

impl ArgumentSuggester for NoSuggestions {
    /// No candidates; the cursor ends after the next token.
    open spec fn suggested(&self, sender: Sender, input: Seq<char>, cursor: int) -> Suggested {
        Suggested {
            candidates: Seq::empty(),
            cursor: token_end(input, skip_whitespace_from(input, cursor)),
        }
    }

    fn suggest(&self, sender: Sender, input: &mut CommandInput) -> (r: Vec<Suggestion>) {
        let _ = input.read_string();
        Vec::new()
    }
}

/// The suggester of an argument with a fixed set of values: it reads the
/// argument's token and proposes every value, whatever was typed. The engine
/// keeps the ones that fit.
pub struct FixedSuggestions {
    pub candidates: Vec<Suggestion>,
}

impl ArgumentSuggester for FixedSuggestions {
    /// The fixed candidates, in order; the cursor ends after the next token.
    open spec fn suggested(&self, sender: Sender, input: Seq<char>, cursor: int) -> Suggested {
        Suggested {
            candidates: suggestion_views(self.candidates@),
            cursor: token_end(input, skip_whitespace_from(input, cursor)),
        }
    }

    fn suggest(&self, sender: Sender, input: &mut CommandInput) -> (r: Vec<Suggestion>) {
        let _ = input.read_string();
        let mut out: Vec<Suggestion> = Vec::new();
        let mut i: usize = 0;
        while i < self.candidates.len()
            invariant
                i <= self.candidates@.len(),
                out@.len() == i,
                forall|j: int| 0 <= j < i ==> (#[trigger] out@[j])@ == self.candidates@[j]@,
            decreases self.candidates@.len() - i,
        {
            out.push(self.candidates[i].clone());
            i += 1;
        }
        proof {
            assert(suggestion_views(out@) =~= suggestion_views(self.candidates@));
        }
        out
    }
}

} // verus!
