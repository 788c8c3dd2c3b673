//! The cursor-based tokenizer shared by argument parsing and completion.

use vstd::prelude::*;
use crate::text::{
    whitespace, lemma_separator_index_unique, lemma_skip_whitespace_from,
    lemma_skip_whitespace_from_unique, lemma_token_end, lemma_token_end_unique, separator_index,
    skip_whitespace_from, token_end, tokens_from,
};

verus! {

/// A source text and a cursor into it. The cursor is a character offset; every
/// read starts at the cursor and the cursor never moves backwards.
#[derive(Debug)]
pub struct CommandInput {
    pub input: String,
    pub cursor: u32,
}

impl Clone for CommandInput {
    /// A copy with the same text and the same cursor.
    fn clone(&self) -> (r: Self)
        ensures
            r.input@ == self.input@,
            r.cursor == self.cursor,
    {
        Self { input: self.input.clone(), cursor: self.cursor }
    }
}

/// Where `skip_whitespace` leaves a cursor that stands at `cursor` in `s`.
///
/// A lone trailing space is left unread when `preserve_single` is set;
/// otherwise the cursor moves over at most `max_spaces` whitespace characters.
pub open spec fn whitespace_skipped(
    s: Seq<char>,
    cursor: int,
    max_spaces: int,
    preserve_single: bool,
) -> int {
    if preserve_single && s.len() - cursor == 1 && s[cursor] == ' ' {
        cursor
    } else if skip_whitespace_from(s, cursor) <= cursor + max_spaces {
        skip_whitespace_from(s, cursor)
    } else {
        cursor + max_spaces
    }
}

/// Number of tokens still to be read from position `cursor` of `s`: the
/// whitespace-delimited tokens of the unread suffix, and one more for the
/// empty token that a trailing separator opens.
pub open spec fn pending_tokens(s: Seq<char>, cursor: int) -> nat {
    if cursor < s.len() && whitespace(s.last()) {
        tokens_from(s, cursor).len() + 1
    } else {
        tokens_from(s, cursor).len()
    }
}

impl CommandInput {
    /// The cursor lies within the text, and the text is short enough for
    /// every offset into it to fit the cursor.
    pub open spec fn wf(&self) -> bool {
        self.cursor <= self.input@.len() <= u32::MAX
    }

    /// The unread suffix: everything from the cursor on.
    pub open spec fn remaining(&self) -> Seq<char> {
        self.input@.subrange(self.cursor as int, self.input@.len() as int)
    }

    /// Start of the next token: the first non-whitespace position at or after
    /// the cursor.
    pub open spec fn token_start(&self) -> int {
        skip_whitespace_from(self.input@, self.cursor as int)
    }

    /// End of the next token: the first whitespace position after its start.
    pub open spec fn token_stop(&self) -> int {
        token_end(self.input@, self.token_start())
    }

    /// The next token: the maximal run of non-whitespace after any leading
    /// whitespace. Empty when only whitespace is left.
    pub open spec fn next_token(&self) -> Seq<char> {
        self.input@.subrange(self.token_start(), self.token_stop())
    }

    /// An input over `string` with the cursor at its start.
    pub fn of(string: String) -> (r: Self)
        requires
            string@.len() <= u32::MAX,
        ensures
            r.wf(),
            r.input@ == string@,
            r.cursor == 0,
    {
        Self { input: string, cursor: 0 }
    }

    /// Appends `string` to the text. The cursor stays where it is.
    pub fn append_string(&mut self, string: String)
        requires
            old(self).wf(),
            old(self).input@.len() + string@.len() <= u32::MAX,
        ensures
            final(self).wf(),
            final(self).input@ == old(self).input@ + string@,
            final(self).cursor == old(self).cursor,
    {
        self.input.append(string.as_str());
    }

    /// Number of characters in the text.
    fn length(&self) -> (r: u32)
        requires
            self.wf(),
        ensures
            r == self.input@.len(),
    {
        self.input.as_str().unicode_len() as u32
    }

    /// Advances the cursor by `chars`, or leaves it alone if that would move
    /// it past the end of the text.
    pub fn move_cursor(&mut self, chars: u32)
        requires
            old(self).wf(),
        ensures
            final(self).wf(),
            final(self).input@ == old(self).input@,
            final(self).cursor == if old(self).cursor + chars <= old(self).input@.len() {
                old(self).cursor + chars
            } else {
                old(self).cursor as int
            },
    {
        if chars > self.remaining_length() {
            return ;
        }
        self.cursor += chars;
    }

    /// Number of unread characters.
    pub fn remaining_length(&self) -> (r: u32)
        requires
            self.wf(),
        ensures
            r == self.input@.len() - self.cursor,
            r == self.remaining().len(),
    {
        self.length() - self.cursor
    }

    /// The character under the cursor, if any.
    pub fn peek(&self) -> (r: Option<char>)
        requires
            self.wf(),
        ensures
            r == if self.cursor < self.input@.len() {
                Some(self.input@[self.cursor as int])
            } else {
                None
            },
    {
        if self.cursor < self.length() {
            Some(self.input.as_str().get_char(self.cursor as usize))
        } else {
            None
        }
    }

    /// Whether anything is left to read.
    pub fn has_remaining_input(&self) -> (r: bool)
        requires
            self.wf(),
        ensures
            r == (self.cursor < self.input@.len()),
    {
        self.cursor < self.length()
    }

    /// Advances over up to `max_spaces` consecutive whitespace characters.
    ///
    /// With `preserve_single` set, a single space that is all that remains is
    /// left unread: it marks the boundary of the argument being completed.
    pub fn skip_whitespace(&mut self, max_spaces: u32, preserve_single: bool)
        requires
            old(self).wf(),
        ensures
            final(self).wf(),
            final(self).input@ == old(self).input@,
            final(self).cursor == whitespace_skipped(
                old(self).input@,
                old(self).cursor as int,
                max_spaces as int,
                preserve_single,
            ),
            old(self).cursor <= final(self).cursor <= old(self).cursor + max_spaces,
            preserve_single && old(self).remaining() == seq![' '] ==> final(self).cursor == old(
                self,
            ).cursor,
    {
        proof {
            lemma_skip_whitespace_from(self.input@, self.cursor as int);
            if self.remaining() == seq![' '] {
                assert(self.remaining().len() == 1);
                assert(self.remaining()[0] == ' ');
            }
        }
        if preserve_single && self.remaining_length() == 1 && self.peek() == Some(' ') {
            return ;
        }
        let len = self.length();
        let mut i: u32 = 0;
        while i < max_spaces && self.cursor < len && self.input.as_str().get_char(
            self.cursor as usize,
        ).is_whitespace()
            invariant
                self.wf(),
                self.input@ == old(self).input@,
                len == self.input@.len(),
                self.cursor == old(self).cursor + i,
                i <= max_spaces,
                forall|j: int| old(self).cursor <= j < self.cursor ==> whitespace(
                    #[trigger] self.input@[j],
                ),
            decreases len - self.cursor,
        {
            self.cursor += 1;
            i += 1;
        }
        proof {
            let s = self.input@;
            let c = old(self).cursor as int;
            let target = skip_whitespace_from(s, c);
            if self.cursor < len && whitespace(s[self.cursor as int]) {
                // Stopped by the bound: the run of whitespace goes on.
                assert(i == max_spaces);
                if target < self.cursor {
                    assert(whitespace(s[target]));
                }
            } else {
                lemma_skip_whitespace_from_unique(s, c, self.cursor as int);
            }
        }
    }

    /// The unread suffix, as a string of its own.
    pub fn remaining_input(&self) -> (r: String)
        requires
            self.wf(),
        ensures
            r@ == self.remaining(),
    {
        let len = self.length();
        String::from_str(self.input.as_str().substring_char(self.cursor as usize, len as usize))
    }

    /// The next `chars` unread characters, or the empty string if fewer are
    /// left. The cursor does not move.
    pub fn peek_string_chars(&self, chars: u32) -> (r: String)
        requires
            self.wf(),
        ensures
            r@ == if self.cursor + chars <= self.input@.len() {
                self.input@.subrange(self.cursor as int, self.cursor + chars)
            } else {
                Seq::<char>::empty()
            },
    {
        if chars > self.remaining_length() {
            return String::new();
        }
        String::from_str(
            self.input.as_str().substring_char(
                self.cursor as usize,
                (self.cursor + chars) as usize,
            ),
        )
    }

    /// Reads the next `chars` characters and advances past them. If fewer are
    /// left, nothing is read: the result is empty and the cursor stays.
    pub fn read(&mut self, chars: u32) -> (r: String)
        requires
            old(self).wf(),
        ensures
            final(self).wf(),
            final(self).input@ == old(self).input@,
            old(self).cursor + chars <= old(self).input@.len() ==> {
                &&& r@ == old(self).input@.subrange(
                    old(self).cursor as int,
                    old(self).cursor + chars,
                )
                &&& final(self).cursor == old(self).cursor + chars
            },
            old(self).cursor + chars > old(self).input@.len() ==> {
                &&& r@ == Seq::<char>::empty()
                &&& final(self).cursor == old(self).cursor
            },
    {
        let read_string = self.peek_string_chars(chars);
        self.move_cursor(chars);
        read_string
    }

    /// Reads the next token: skips leading whitespace, then reads the maximal
    /// run of non-whitespace characters. The cursor ends just after the run.
    pub fn read_string(&mut self) -> (r: String)
        requires
            old(self).wf(),
        ensures
            final(self).wf(),
            final(self).input@ == old(self).input@,
            r@ == old(self).next_token(),
            final(self).cursor == old(self).token_stop(),
            old(self).cursor <= old(self).token_start() <= final(self).cursor,
            forall|j: int| 0 <= j < r@.len() ==> !whitespace(#[trigger] r@[j]),
    {
        proof {
            lemma_skip_whitespace_from(self.input@, self.cursor as int);
            lemma_token_end(self.input@, self.token_start());
        }
        self.skip_whitespace(u32::MAX, false);
        let start = self.cursor;
        let len = self.length();
        while self.cursor < len && !self.input.as_str().get_char(
            self.cursor as usize,
        ).is_whitespace()
            invariant
                self.wf(),
                self.input@ == old(self).input@,
                len == self.input@.len(),
                start <= self.cursor,
                forall|j: int| start <= j < self.cursor ==> !whitespace(
                    #[trigger] self.input@[j],
                ),
            decreases len - self.cursor,
        {
            self.cursor += 1;
        }
        proof {
            lemma_token_end_unique(self.input@, start as int, self.cursor as int);
        }
        String::from_str(self.input.as_str().substring_char(start as usize, self.cursor as usize))
    }

    /// The next token, without moving the cursor.
    pub fn peek_string(&self) -> (r: String)
        requires
            self.wf(),
        ensures
            r@ == self.next_token(),
    {
        let mut ahead = self.clone();
        ahead.read_string()
    }

    /// Number of tokens still to be read: the whitespace-delimited tokens of
    /// the unread suffix, plus one if the suffix ends in whitespace, where an
    /// empty token is pending.
    pub fn remaining_tokens(&self) -> (r: u32)
        requires
            self.wf(),
        ensures
            r == pending_tokens(self.input@, self.cursor as int),
    {
        let len = self.length();
        let mut ahead = self.clone();
        let mut count: u32 = 0;
        loop
            invariant
                ahead.wf(),
                ahead.input@ == self.input@,
                len == self.input@.len(),
                self.cursor <= ahead.cursor,
                count + tokens_from(self.input@, ahead.cursor as int).len() == tokens_from(
                    self.input@,
                    self.cursor as int,
                ).len(),
                2 * count <= ahead.cursor - self.cursor + 1,
                count > 0 && ahead.cursor < len ==> whitespace(self.input@[ahead.cursor as int]),
            ensures
                count == tokens_from(self.input@, self.cursor as int).len(),
                2 * count <= len + 1,
            decreases len - ahead.cursor,
        {
            proof {
                lemma_skip_whitespace_from(ahead.input@, ahead.cursor as int);
                lemma_token_end(ahead.input@, ahead.token_start());
            }
            let token = ahead.read_string();
            if token.as_str().unicode_len() == 0 {
                break ;
            }
            count += 1;
        }
        if self.cursor < len && self.input.as_str().get_char((len - 1) as usize).is_whitespace() {
            count + 1
        } else {
            count
        }
    }

    /// Reads up to `separator`: skips leading whitespace, then reads every
    /// character before the first occurrence of the separator. The separator
    /// itself is consumed but not returned. Without a separator, reads to the
    /// end of the text.
    pub fn read_until(&mut self, separator: char) -> (r: String)
        requires
            old(self).wf(),
        ensures
            final(self).wf(),
            final(self).input@ == old(self).input@,
            r@ == old(self).input@.subrange(
                old(self).token_start(),
                separator_index(old(self).input@, old(self).token_start(), separator),
            ),
            final(self).cursor == if separator_index(
                old(self).input@,
                old(self).token_start(),
                separator,
            ) < old(self).input@.len() {
                separator_index(old(self).input@, old(self).token_start(), separator) + 1
            } else {
                old(self).input@.len() as int
            },
            old(self).cursor <= final(self).cursor,
    {
        proof {
            lemma_skip_whitespace_from(self.input@, self.cursor as int);
        }
        self.skip_whitespace(u32::MAX, false);
        let start = self.cursor;
        let len = self.length();
        while self.cursor < len && self.input.as_str().get_char(self.cursor as usize) != separator
            invariant
                self.wf(),
                self.input@ == old(self).input@,
                len == self.input@.len(),
                start <= self.cursor,
                forall|j: int| start <= j < self.cursor ==> #[trigger] self.input@[j] != separator,
            decreases len - self.cursor,
        {
            self.cursor += 1;
        }
        proof {
            lemma_separator_index_unique(
                self.input@,
                start as int,
                separator,
                self.cursor as int,
            );
        }
        let result = String::from_str(
            self.input.as_str().substring_char(start as usize, self.cursor as usize),
        );
        if self.cursor < len {
            self.cursor += 1;
        }
        result
    }

    /// Reads the next token and then skips the whitespace that follows it,
    /// keeping a lone trailing space if `preserve_single` is set.
    pub fn read_string_skip_whitespace(&mut self, preserve_single: bool) -> (r: String)
        requires
            old(self).wf(),
        ensures
            final(self).wf(),
            final(self).input@ == old(self).input@,
            r@ == old(self).next_token(),
            final(self).cursor == whitespace_skipped(
                old(self).input@,
                old(self).token_stop(),
                u32::MAX as int,
                preserve_single,
            ),
            old(self).cursor <= final(self).cursor,
    {
        let read_string = self.read_string();
        self.skip_whitespace(u32::MAX, preserve_single);
        read_string
    }
}

} // verus!
