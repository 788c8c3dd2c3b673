//! Lexical model of command text: whitespace, scanning and tokens.
//!
//! Text is modelled as a sequence of characters. Positions are character
//! offsets into that sequence.

use vstd::prelude::*;

verus! {

/// Whether a character other than the plain space has the Unicode
/// `White_Space` property. The property table is large, so it is left
/// uninterpreted here.
pub uninterp spec fn unicode_white_space(c: char) -> bool;

/// Whether `c` separates tokens: the plain space, or any other character
/// with the Unicode `White_Space` property.
pub open spec fn whitespace(c: char) -> bool {
    c == ' ' || unicode_white_space(c)
}

/// `char::is_whitespace` of the standard library. It reports the Unicode
/// `White_Space` property; the plain space has it, and for every other
/// character the answer is the one named by [`unicode_white_space`].
pub assume_specification[ char::is_whitespace ](c: char) -> (r: bool)
    ensures
        r == (c == ' ' || unicode_white_space(c)),
;

/// Position of the first character at or after `i` that is not whitespace;
/// the length of `s` if there is none.
pub open spec fn skip_whitespace_from(s: Seq<char>, i: int) -> int
    decreases s.len() - i,
{
    if 0 <= i < s.len() && whitespace(s[i]) {
        skip_whitespace_from(s, i + 1)
    } else {
        i
    }
}

/// Position of the first whitespace character at or after `i`; the length of
/// `s` if there is none.
pub open spec fn token_end(s: Seq<char>, i: int) -> int
    decreases s.len() - i,
{
    if 0 <= i < s.len() && !whitespace(s[i]) {
        token_end(s, i + 1)
    } else {
        i
    }
}

/// Position of the first occurrence of `separator` at or after `i`; the
/// length of `s` if there is none.
pub open spec fn separator_index(s: Seq<char>, i: int, separator: char) -> int
    decreases s.len() - i,
{
    if 0 <= i < s.len() && s[i] != separator {
        separator_index(s, i + 1, separator)
    } else {
        i
    }
}

/// `skip_whitespace_from` stops at the first non-whitespace character.
pub proof fn lemma_skip_whitespace_from(s: Seq<char>, i: int)
    requires
        0 <= i <= s.len(),
    ensures
        i <= skip_whitespace_from(s, i) <= s.len(),
        forall|j: int| i <= j < skip_whitespace_from(s, i) ==> whitespace(#[trigger] s[j]),
        skip_whitespace_from(s, i) < s.len() ==> !whitespace(s[skip_whitespace_from(s, i)]),
    decreases s.len() - i,
{
    if i < s.len() && whitespace(s[i]) {
        lemma_skip_whitespace_from(s, i + 1);
    }
}

/// Any position that bounds a run of whitespace the way the scan does is the
/// position the scan returns.
pub proof fn lemma_skip_whitespace_from_unique(s: Seq<char>, i: int, r: int)
    requires
        0 <= i <= r <= s.len(),
        forall|j: int| i <= j < r ==> whitespace(#[trigger] s[j]),
        r < s.len() ==> !whitespace(s[r]),
    ensures
        skip_whitespace_from(s, i) == r,
    decreases r - i,
{
    if i < r {
        assert(whitespace(s[i]));
        lemma_skip_whitespace_from_unique(s, i + 1, r);
    }
}

/// `token_end` stops at the first whitespace character.
pub proof fn lemma_token_end(s: Seq<char>, i: int)
    requires
        0 <= i <= s.len(),
    ensures
        i <= token_end(s, i) <= s.len(),
        forall|j: int| i <= j < token_end(s, i) ==> !whitespace(#[trigger] s[j]),
        token_end(s, i) < s.len() ==> whitespace(s[token_end(s, i)]),
    decreases s.len() - i,
{
    if i < s.len() && !whitespace(s[i]) {
        lemma_token_end(s, i + 1);
    }
}

/// Any position that bounds a run of non-whitespace the way the scan does is
/// the position the scan returns.
pub proof fn lemma_token_end_unique(s: Seq<char>, i: int, r: int)
    requires
        0 <= i <= r <= s.len(),
        forall|j: int| i <= j < r ==> !whitespace(#[trigger] s[j]),
        r < s.len() ==> whitespace(s[r]),
    ensures
        token_end(s, i) == r,
    decreases r - i,
{
    if i < r {
        assert(!whitespace(s[i]));
        lemma_token_end_unique(s, i + 1, r);
    }
}

/// `separator_index` stops at the first occurrence of the separator.
pub proof fn lemma_separator_index(s: Seq<char>, i: int, separator: char)
    requires
        0 <= i <= s.len(),
    ensures
        i <= separator_index(s, i, separator) <= s.len(),
        forall|j: int| i <= j < separator_index(s, i, separator) ==> #[trigger] s[j] != separator,
        separator_index(s, i, separator) < s.len() ==> s[separator_index(s, i, separator)]
            == separator,
    decreases s.len() - i,
{
    if i < s.len() && s[i] != separator {
        lemma_separator_index(s, i + 1, separator);
    }
}

/// Any position that bounds a separator-free run the way the scan does is
/// the position the scan returns.
pub proof fn lemma_separator_index_unique(s: Seq<char>, i: int, separator: char, r: int)
    requires
        0 <= i <= r <= s.len(),
        forall|j: int| i <= j < r ==> #[trigger] s[j] != separator,
        r < s.len() ==> s[r] == separator,
    ensures
        separator_index(s, i, separator) == r,
    decreases r - i,
{
    if i < r {
        assert(s[i] != separator);
        lemma_separator_index_unique(s, i + 1, separator, r);
    }
}

/// The whitespace-delimited tokens of `s` that start at or after position `i`,
/// in order. No token is empty.
pub open spec fn tokens_from(s: Seq<char>, i: int) -> Seq<Seq<char>>
    decreases s.len() - i,
{
    let start = skip_whitespace_from(s, i);
    let end = token_end(s, start);
    if 0 <= i <= start < end <= s.len() {
        seq![s.subrange(start, end)] + tokens_from(s, end)
    } else {
        Seq::empty()
    }
}

/// The whitespace-delimited tokens of `s`, in order.
pub open spec fn tokens(s: Seq<char>) -> Seq<Seq<char>> {
    tokens_from(s, 0)
}

/// Whether `s` begins with `prefix`.
pub open spec fn starts_with(s: Seq<char>, prefix: Seq<char>) -> bool {
    prefix.len() <= s.len() && s.subrange(0, prefix.len() as int) == prefix
}

/// The tokens joined by single spaces.
pub open spec fn join_tokens(parts: Seq<Seq<char>>) -> Seq<char>
    decreases parts.len(),
{
    if parts.len() == 0 {
        Seq::empty()
    } else if parts.len() == 1 {
        parts[0]
    } else {
        join_tokens(parts.drop_last()) + seq![' '] + parts.last()
    }
}

/// Skipping whitespace twice is skipping it once.
pub proof fn lemma_skip_whitespace_from_idempotent(s: Seq<char>, i: int)
    requires
        0 <= i <= s.len(),
    ensures
        skip_whitespace_from(s, skip_whitespace_from(s, i)) == skip_whitespace_from(s, i),
{
    lemma_skip_whitespace_from(s, i);
    lemma_skip_whitespace_from_unique(
        s,
        skip_whitespace_from(s, i),
        skip_whitespace_from(s, i),
    );
}

/// Leading whitespace does not change the tokens that follow it.
pub proof fn lemma_tokens_from_skip(s: Seq<char>, i: int)
    requires
        0 <= i <= s.len(),
    ensures
        tokens_from(s, skip_whitespace_from(s, i)) == tokens_from(s, i),
{
    lemma_skip_whitespace_from(s, i);
    lemma_skip_whitespace_from_idempotent(s, i);
}

/// The tokens from `i` are the next token followed by the tokens after it;
/// there are none exactly when only whitespace is left.
pub proof fn lemma_tokens_from_unfold(s: Seq<char>, i: int)
    requires
        0 <= i <= s.len(),
    ensures
        ({
            let start = skip_whitespace_from(s, i);
            let end = token_end(s, start);
            &&& i <= start <= end <= s.len()
            &&& start == end ==> start == s.len() && tokens_from(s, i) == Seq::<Seq<char>>::empty()
            &&& start < end ==> tokens_from(s, i) == seq![s.subrange(start, end)] + tokens_from(
                s,
                end,
            )
        }),
{
    lemma_skip_whitespace_from(s, i);
    lemma_token_end(s, skip_whitespace_from(s, i));
}

/// No token is empty and no token holds whitespace.
pub proof fn lemma_tokens_from_are_words(s: Seq<char>, i: int)
    requires
        0 <= i <= s.len(),
    ensures
        forall|k: int|
            0 <= k < tokens_from(s, i).len() ==> {
                &&& (#[trigger] tokens_from(s, i)[k]).len() > 0
                &&& forall|j: int|
                    0 <= j < tokens_from(s, i)[k].len() ==> !whitespace(
                        #[trigger] tokens_from(s, i)[k][j],
                    )
            },
    decreases s.len() - i,
{
    lemma_tokens_from_unfold(s, i);
    let start = skip_whitespace_from(s, i);
    let end = token_end(s, start);
    if start < end {
        lemma_token_end(s, start);
        lemma_tokens_from_are_words(s, end);
        assert forall|k: int| 0 <= k < tokens_from(s, i).len() implies {
            &&& (#[trigger] tokens_from(s, i)[k]).len() > 0
            &&& forall|j: int|
                0 <= j < tokens_from(s, i)[k].len() ==> !whitespace(
                    #[trigger] tokens_from(s, i)[k][j],
                )
        } by {
            if k == 0 {
                assert(tokens_from(s, i)[0] == s.subrange(start, end));
                assert forall|j: int| 0 <= j < tokens_from(s, i)[0].len() implies !whitespace(
                    #[trigger] tokens_from(s, i)[0][j],
                ) by {
                    assert(s.subrange(start, end)[j] == s[start + j]);
                }
            } else {
                assert(tokens_from(s, i)[k] == tokens_from(s, end)[k - 1]);
            }
        }
    }
}

/// Whitespace before position `m` is skipped on the way: scanning from `i`
/// and scanning from `m` stop at the same place.
pub proof fn lemma_skip_whitespace_run(s: Seq<char>, i: int, m: int)
    requires
        0 <= i <= m <= s.len(),
        forall|j: int| i <= j < m ==> whitespace(#[trigger] s[j]),
    ensures
        skip_whitespace_from(s, i) == skip_whitespace_from(s, m),
    decreases m - i,
{
    if i < m {
        assert(whitespace(s[i]));
        lemma_skip_whitespace_run(s, i + 1, m);
    }
}

/// Scanning a text that follows a prefix is scanning the text alone, moved by
/// the length of the prefix.
pub proof fn lemma_scan_shift(p: Seq<char>, b: Seq<char>, j: int)
    requires
        0 <= j <= b.len(),
    ensures
        skip_whitespace_from(p + b, p.len() + j) == p.len() + skip_whitespace_from(b, j),
        token_end(p + b, p.len() + j) == p.len() + token_end(b, j),
    decreases b.len() - j,
{
    let s = p + b;
    if j < b.len() {
        assert(s[p.len() + j] == b[j]);
        lemma_scan_shift(p, b, j + 1);
    }
}

/// The tokens of a text that follows a prefix are the tokens of the text
/// alone.
pub proof fn lemma_tokens_shift(p: Seq<char>, b: Seq<char>, j: int)
    requires
        0 <= j <= b.len(),
    ensures
        tokens_from(p + b, p.len() + j) == tokens_from(b, j),
    decreases b.len() - j,
{
    let s = p + b;
    lemma_scan_shift(p, b, j);
    lemma_skip_whitespace_from(b, j);
    let start = skip_whitespace_from(b, j);
    lemma_scan_shift(p, b, start);
    lemma_token_end(b, start);
    let end = token_end(b, start);
    if start < end {
        lemma_tokens_shift(p, b, end);
        assert(s.subrange(p.len() + start, p.len() + end) == b.subrange(start, end));
    }
}

/// The tokens of two texts joined by a whitespace character are the tokens of
/// the first followed by the tokens of the second, from any position in the
/// first.
pub proof fn lemma_tokens_from_concat(a: Seq<char>, c: char, b: Seq<char>, i: int)
    requires
        whitespace(c),
        0 <= i <= a.len(),
    ensures
        tokens_from(a + seq![c] + b, i) == tokens_from(a, i) + tokens(b),
    decreases a.len() - i,
{
    let s = a + seq![c] + b;
    lemma_skip_whitespace_from(a, i);
    let start = skip_whitespace_from(a, i);
    lemma_token_end(a, start);
    let end = token_end(a, start);
    assert forall|j: int| 0 <= j < a.len() implies s[j] == a[j] by {}
    assert(s[a.len() as int] == c);
    if start < a.len() {
        lemma_skip_whitespace_from_unique(s, i, start);
        lemma_token_end_unique(s, start, end);
        lemma_tokens_from_concat(a, c, b, end);
        assert(s.subrange(start, end) == a.subrange(start, end));
        assert(seq![a.subrange(start, end)] + (tokens_from(a, end) + tokens(b)) == (seq![
            a.subrange(start, end),
        ] + tokens_from(a, end)) + tokens(b));
    } else {
        assert(tokens_from(a, i) == Seq::<Seq<char>>::empty());
        assert(Seq::<Seq<char>>::empty() + tokens(b) == tokens(b));
        assert forall|j: int| i <= j < a.len() as int + 1 implies whitespace(#[trigger] s[j]) by {}
        let m = a.len() as int + 1;
        lemma_skip_whitespace_run(s, i, m);
        lemma_tokens_from_skip(s, i);
        lemma_tokens_from_skip(s, m);
        assert(s == (a + seq![c]) + b);
        lemma_tokens_shift(a + seq![c], b, 0);
    }
}

/// The tokens of two texts joined by a whitespace character are the tokens of
/// the first followed by the tokens of the second.
pub proof fn lemma_tokens_concat(a: Seq<char>, c: char, b: Seq<char>)
    requires
        whitespace(c),
    ensures
        tokens(a + seq![c] + b) == tokens(a) + tokens(b),
{
    lemma_tokens_from_concat(a, c, b, 0);
}

/// Cutting a text at a whitespace character keeps the tokens before the cut:
/// they are a prefix of the tokens of the whole text.
pub proof fn lemma_tokens_cut(s: Seq<char>, pos: int)
    requires
        0 <= pos < s.len(),
        whitespace(s[pos]),
    ensures
        tokens(s.subrange(0, pos)).is_prefix_of(tokens(s)),
{
    let a = s.subrange(0, pos);
    let b = s.subrange(pos + 1, s.len() as int);
    assert(s == a + seq![s[pos]] + b);
    lemma_tokens_concat(a, s[pos], b);
    assert((tokens(a) + tokens(b)).subrange(0, tokens(a).len() as int) == tokens(a));
}

/// Position just behind the `n`-th token that starts at or after `i`: where a
/// reader stands that has read `n` tokens from `i`.
pub open spec fn after_words(s: Seq<char>, i: int, n: nat) -> int
    decreases n,
{
    if n == 0 {
        i
    } else {
        after_words(s, token_end(s, skip_whitespace_from(s, i)), (n - 1) as nat)
    }
}

/// Reading `n` tokens leaves the rest: where there are at least `n` tokens
/// from `i`, the position behind them lies within the text, and the tokens
/// from there are the tokens from `i` without the first `n`.
pub proof fn lemma_after_words(s: Seq<char>, i: int, n: nat)
    requires
        0 <= i <= s.len(),
        n <= tokens_from(s, i).len(),
    ensures
        i <= after_words(s, i, n) <= s.len(),
        tokens_from(s, after_words(s, i, n)) == tokens_from(s, i).subrange(
            n as int,
            tokens_from(s, i).len() as int,
        ),
    decreases n,
{
    let all = tokens_from(s, i);
    if n == 0 {
        assert(all.subrange(0, all.len() as int) == all);
    } else {
        lemma_tokens_from_unfold(s, i);
        let end = token_end(s, skip_whitespace_from(s, i));
        lemma_after_words(s, end, (n - 1) as nat);
        let rest = tokens_from(s, end);
        assert(rest.subrange(n - 1, rest.len() as int) == all.subrange(n as int, all.len() as int));
    }
}

/// Reading one more token: the position behind `n + 1` tokens is the end of
/// the token that follows the position behind `n` tokens.
pub proof fn lemma_after_words_step(s: Seq<char>, i: int, n: nat)
    ensures
        after_words(s, i, n + 1) == token_end(
            s,
            skip_whitespace_from(s, after_words(s, i, n)),
        ),
    decreases n,
{
    if n > 0 {
        lemma_after_words_step(s, token_end(s, skip_whitespace_from(s, i)), (n - 1) as nat);
    } else {
        assert(after_words(s, token_end(s, skip_whitespace_from(s, i)), 0) == token_end(
            s,
            skip_whitespace_from(s, i),
        ));
    }
}

/// The tokens of the text from position `p` on, taken as a text of its own,
/// are the tokens of the whole text from `p`.
pub proof fn lemma_tokens_of_suffix(s: Seq<char>, p: int)
    requires
        0 <= p <= s.len(),
    ensures
        tokens(s.subrange(p, s.len() as int)) == tokens_from(s, p),
{
    let front = s.subrange(0, p);
    let back = s.subrange(p, s.len() as int);
    assert(s == front + back);
    lemma_tokens_shift(front, back, 0);
}

/// The texts that a list of strings holds, in order.
pub open spec fn texts(list: Seq<String>) -> Seq<Seq<char>> {
    Seq::new(list.len(), |i: int| list[i]@)
}

/// Whether two strings hold the same text.
pub fn same_text(a: &str, b: &str) -> (r: bool)
    ensures
        r == (a@ == b@),
{
    let x = String::from_str(a);
    let y = String::from_str(b);
    x == y
}

/// Position of the first character of `text` at or after `from` that is not
/// whitespace. `len` is the length of `text` in characters.
pub fn whitespace_end(text: &str, from: usize, len: usize) -> (r: usize)
    requires
        from <= len == text@.len(),
    ensures
        r == skip_whitespace_from(text@, from as int),
        from <= r <= len,
{
    let mut pos = from;
    while pos < len && text.get_char(pos).is_whitespace()
        invariant
            from <= pos <= len == text@.len(),
            forall|j: int| from <= j < pos ==> whitespace(#[trigger] text@[j]),
        decreases len - pos,
    {
        pos += 1;
    }
    proof {
        lemma_skip_whitespace_from_unique(text@, from as int, pos as int);
    }
    pos
}

/// Position of the first whitespace character of `text` at or after `from`.
/// `len` is the length of `text` in characters.
pub fn word_end(text: &str, from: usize, len: usize) -> (r: usize)
    requires
        from <= len == text@.len(),
    ensures
        r == token_end(text@, from as int),
        from <= r <= len,
{
    let mut pos = from;
    while pos < len && !text.get_char(pos).is_whitespace()
        invariant
            from <= pos <= len == text@.len(),
            forall|j: int| from <= j < pos ==> !whitespace(#[trigger] text@[j]),
        decreases len - pos,
    {
        pos += 1;
    }
    proof {
        lemma_token_end_unique(text@, from as int, pos as int);
    }
    pos
}

/// The whitespace-delimited tokens of `text`, in order.
pub fn split_tokens(text: &str) -> (r: Vec<String>)
    ensures
        texts(r@) == tokens(text@),
{
    let len = text.unicode_len();
    let mut out: Vec<String> = Vec::new();
    let mut pos: usize = 0;
    proof {
        assert(texts(out@) + tokens_from(text@, 0) == tokens(text@));
    }
    loop
        invariant
            pos <= len == text@.len(),
            texts(out@) + tokens_from(text@, pos as int) == tokens(text@),
        ensures
            texts(out@) == tokens(text@),
        decreases len - pos,
    {
        proof {
            lemma_tokens_from_unfold(text@, pos as int);
        }
        let start = whitespace_end(text, pos, len);
        let end = word_end(text, start, len);
        if start == end {
            proof {
                assert(texts(out@) + Seq::<Seq<char>>::empty() == texts(out@));
            }
            break ;
        }
        let ghost before = out@;
        out.push(String::from_str(text.substring_char(start, end)));
        proof {
            assert(texts(out@) == texts(before).push(text@.subrange(start as int, end as int)));
            assert(texts(out@) + tokens_from(text@, end as int) == texts(before) + (seq![
                text@.subrange(start as int, end as int),
            ] + tokens_from(text@, end as int)));
        }
        pos = end;
    }
    out
}

/// `text` without one leading slash, if it has one.
pub open spec fn strip_slash(text: Seq<char>) -> Seq<char> {
    if text.len() > 0 && text[0] == '/' {
        text.subrange(1, text.len() as int)
    } else {
        text
    }
}

/// `text` without `prefix` at its front; `text` itself if it does not begin
/// with `prefix`.
pub open spec fn strip_prefix(text: Seq<char>, prefix: Seq<char>) -> Seq<char> {
    if starts_with(text, prefix) {
        text.subrange(prefix.len() as int, text.len() as int)
    } else {
        text
    }
}

/// Position at which the last token of `s` starts: just after the last
/// whitespace character, or 0 if there is none.
pub open spec fn last_token_start(s: Seq<char>) -> int
    decreases s.len(),
{
    if s.len() == 0 {
        0
    } else if whitespace(s.last()) {
        s.len() as int
    } else {
        last_token_start(s.drop_last())
    }
}

/// The last token of `s`: the text after its last whitespace character, all
/// of `s` if it has none. Empty when `s` ends in whitespace.
pub open spec fn last_token(s: Seq<char>) -> Seq<char> {
    s.subrange(last_token_start(s), s.len() as int)
}

/// The last token starts within the text, no whitespace follows its start,
/// and whitespace precedes it unless it starts the text.
pub proof fn lemma_last_token_start(s: Seq<char>)
    ensures
        0 <= last_token_start(s) <= s.len(),
        forall|j: int| last_token_start(s) <= j < s.len() ==> !whitespace(#[trigger] s[j]),
        last_token_start(s) > 0 ==> whitespace(s[last_token_start(s) - 1]),
    decreases s.len(),
{
    if s.len() > 0 && !whitespace(s.last()) {
        lemma_last_token_start(s.drop_last());
        assert forall|j: int| last_token_start(s) <= j < s.len() implies !whitespace(
            #[trigger] s[j],
        ) by {
            if j < s.len() - 1 {
                assert(s.drop_last()[j] == s[j]);
            }
        }
        if last_token_start(s) > 0 {
            assert(s.drop_last()[last_token_start(s) - 1] == s[last_token_start(s) - 1]);
        }
    }
}

/// Any position that bounds the last token the way `last_token_start` does
/// is the position it returns.
pub proof fn lemma_last_token_start_unique(s: Seq<char>, r: int)
    requires
        0 <= r <= s.len(),
        forall|j: int| r <= j < s.len() ==> !whitespace(#[trigger] s[j]),
        r > 0 ==> whitespace(s[r - 1]),
    ensures
        last_token_start(s) == r,
    decreases s.len(),
{
    if s.len() > 0 {
        if whitespace(s.last()) {
            if r < s.len() {
                assert(!whitespace(s[s.len() - 1]));
            }
        } else {
            assert(r < s.len());
            let t = s.drop_last();
            assert forall|j: int| r <= j < t.len() implies !whitespace(#[trigger] t[j]) by {
                assert(t[j] == s[j]);
            }
            if r > 0 {
                assert(t[r - 1] == s[r - 1]);
            }
            lemma_last_token_start_unique(t, r);
        }
    }
}

/// What precedes a whitespace character does not change the last token: the
/// last token of a text behind a prefix that ends in whitespace is the last
/// token of the text alone.
pub proof fn lemma_last_token_behind(p: Seq<char>, b: Seq<char>)
    requires
        p.len() > 0,
        whitespace(p.last()),
    ensures
        last_token(p + b) == last_token(b),
{
    let s = p + b;
    lemma_last_token_start(b);
    let r = p.len() + last_token_start(b);
    assert forall|j: int| r <= j < s.len() implies !whitespace(#[trigger] s[j]) by {
        assert(s[j] == b[j - p.len()]);
    }
    if last_token_start(b) > 0 {
        assert(s[r - 1] == b[last_token_start(b) - 1]);
    } else {
        assert(s[r - 1] == p.last());
    }
    lemma_last_token_start_unique(s, r);
    assert(s.subrange(r, s.len() as int) == b.subrange(last_token_start(b), b.len() as int));
}

/// Whether `text` begins with `prefix`.
pub fn has_prefix(text: &str, prefix: &str) -> (r: bool)
    ensures
        r == starts_with(text@, prefix@),
{
    let n = prefix.unicode_len();
    if n > text.unicode_len() {
        false
    } else {
        same_text(text.substring_char(0, n), prefix)
    }
}

/// The last token of `text`: what follows its last whitespace character.
pub fn current_token(text: &str) -> (r: String)
    ensures
        r@ == last_token(text@),
{
    let len = text.unicode_len();
    let mut pos = len;
    while pos > 0 && !text.get_char(pos - 1).is_whitespace()
        invariant
            pos <= len == text@.len(),
            forall|j: int| pos <= j < len ==> !whitespace(#[trigger] text@[j]),
        decreases pos,
    {
        pos -= 1;
    }
    proof {
        lemma_last_token_start_unique(text@, pos as int);
    }
    String::from_str(text.substring_char(pos, len))
}

} // verus!
