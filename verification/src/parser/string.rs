//! The text arguments: one token, or everything that is left.

use vstd::prelude::*;
use crate::input::CommandInput;
use crate::parser::{ArgumentParser, ArgumentValue, ArgumentValueView, Parsed, ParserResult};
use crate::sender::Sender;
use crate::text::{
    join_tokens, lemma_skip_whitespace_from, lemma_tokens_from_are_words, lemma_tokens_from_skip,
    lemma_tokens_from_unfold, skip_whitespace_from, token_end, tokens_from,
};

verus! {

/// Parses one raw token as text, whatever it holds.
pub struct SingleStringParser;

impl ArgumentParser for SingleStringParser {
    /// The next token as it stands; the cursor ends after it.
    open spec fn parsed(&self, sender: Sender, input: Seq<char>, cursor: int) -> Parsed {
        let start = skip_whitespace_from(input, cursor);
        let end = token_end(input, start);
        Parsed { result: Ok(ArgumentValueView::Text(input.subrange(start, end))), cursor: end }
    }

    fn parse(&self, sender: Sender, input: &mut CommandInput) -> (r: ParserResult) {
        Ok(ArgumentValue::Text(input.read_string()))
    }

    fn new() -> Self {
        SingleStringParser
    }
}

/// Reads every remaining token of `input` and joins them with single spaces.
/// Nothing is left to read afterwards.
pub fn read_greedy(input: &mut CommandInput) -> (r: String)
    requires
        old(input).wf(),
    ensures
        final(input).wf(),
        final(input).input@ == old(input).input@,
        final(input).cursor == old(input).input@.len(),
        r@ == join_tokens(tokens_from(old(input).input@, old(input).cursor as int)),
{
    let mut result = String::new();
    let ghost s = input.input@;
    let ghost all = tokens_from(s, input.cursor as int);
    let ghost mut taken: Seq<Seq<char>> = Seq::empty();
    proof {
        lemma_tokens_from_are_words(s, input.cursor as int);
        assert(taken + tokens_from(s, input.cursor as int) == all);
    }
    loop
        invariant
            input.wf(),
            input.input@ == s,
            s == old(input).input@,
            old(input).cursor <= input.cursor,
            all == tokens_from(s, old(input).cursor as int),
            taken + tokens_from(s, input.cursor as int) == all,
            result@ == join_tokens(taken),
            result@.len() > 0 <==> taken.len() > 0,
            forall|k: int| 0 <= k < all.len() ==> (#[trigger] all[k]).len() > 0,
        ensures
            input.wf(),
            input.input@ == s,
            input.cursor == s.len(),
            result@ == join_tokens(all),
        decreases s.len() - input.cursor, all.len() - taken.len(),
    {
        let ghost before = input.cursor as int;
        proof {
            lemma_tokens_from_unfold(s, before);
            lemma_skip_whitespace_from(s, token_end(s, skip_whitespace_from(s, before)));
            lemma_tokens_from_skip(s, token_end(s, skip_whitespace_from(s, before)));
        }
        let token = input.read_string_skip_whitespace(false);
        if token.as_str().unicode_len() == 0 {
            proof {
                assert(taken + Seq::<Seq<char>>::empty() == taken);
            }
            break ;
        }
        if result.as_str().unicode_len() != 0 {
            proof {
                reveal_strlit(" ");
            }
            result.append(" ");
            proof {
                assert(" "@ == seq![' ']);
            }
        }
        result.append(token.as_str());
        proof {
            let next = taken.push(token@);
            assert(next.drop_last() == taken);
            assert(next.last() == token@);
            assert(next + tokens_from(s, input.cursor as int) == all) by {
                assert(taken + (seq![token@] + tokens_from(s, input.cursor as int)) == next
                    + tokens_from(s, input.cursor as int));
            }
            if taken.len() == 0 {
                assert(join_tokens(next) == token@);
                assert(result@ == token@);
            } else {
                assert(join_tokens(next) == join_tokens(taken) + seq![' '] + token@);
            }
            taken = next;
        }
    }
    result
}

/// Consumes every remaining token and rejoins them with single spaces. Meant
/// for a trailing argument of free text.
pub struct GreedyStringParser;

impl ArgumentParser for GreedyStringParser {
    /// All remaining tokens joined by single spaces; the cursor ends at the
    /// end of the text.
    open spec fn parsed(&self, sender: Sender, input: Seq<char>, cursor: int) -> Parsed {
        Parsed {
            result: Ok(ArgumentValueView::Text(join_tokens(tokens_from(input, cursor)))),
            cursor: input.len() as int,
        }
    }

    fn parse(&self, sender: Sender, input: &mut CommandInput) -> (r: ParserResult) {
        Ok(ArgumentValue::Text(read_greedy(input)))
    }

    fn new() -> Self {
        GreedyStringParser
    }
}

} // verus!
