use ferrumc_commands::input::CommandInput;

fn input(text: &str) -> CommandInput {
    CommandInput::of(text.to_string())
}

#[test]
fn of_starts_at_the_beginning() {
    let i = input("hello world");
    assert_eq!(i.input, "hello world");
    assert_eq!(i.cursor, 0);
    assert_eq!(i.remaining_length(), 11);
    assert!(i.has_remaining_input());
    assert_eq!(i.peek(), Some('h'));
}

#[test]
fn empty_input_has_nothing_to_read() {
    let mut i = input("");
    assert_eq!(i.peek(), None);
    assert!(!i.has_remaining_input());
    assert_eq!(i.remaining_length(), 0);
    assert_eq!(i.read_string(), "");
    assert_eq!(i.cursor, 0);
    assert_eq!(i.remaining_tokens(), 0);
}

#[test]
fn append_string_extends_the_text_and_keeps_the_cursor() {
    let mut i = input("ab");
    i.move_cursor(1);
    i.append_string("cd".to_string());
    assert_eq!(i.input, "abcd");
    assert_eq!(i.cursor, 1);
    assert_eq!(i.remaining_input(), "bcd");
}

#[test]
fn move_cursor_advances_within_the_text() {
    let mut i = input("abc");
    i.move_cursor(2);
    assert_eq!(i.cursor, 2);
    i.move_cursor(1);
    assert_eq!(i.cursor, 3);
    assert_eq!(i.peek(), None);
}

#[test]
fn move_cursor_past_the_end_does_nothing() {
    let mut i = input("abc");
    i.move_cursor(4);
    assert_eq!(i.cursor, 0);
    i.move_cursor(2);
    i.move_cursor(2);
    assert_eq!(i.cursor, 2);
    i.move_cursor(u32::MAX);
    assert_eq!(i.cursor, 2);
}

#[test]
fn read_returns_the_characters_and_advances() {
    let mut i = input("hello world");
    assert_eq!(i.read(5), "hello");
    assert_eq!(i.cursor, 5);
    assert_eq!(i.read(0), "");
    assert_eq!(i.cursor, 5);
    assert_eq!(i.read(6), " world");
    assert_eq!(i.cursor, 11);
}

#[test]
fn read_past_the_end_reads_nothing() {
    let mut i = input("hello");
    i.move_cursor(3);
    assert_eq!(i.read(3), "");
    assert_eq!(i.cursor, 3);
    assert_eq!(i.read(2), "lo");
    assert_eq!(i.cursor, 5);
}

#[test]
fn peek_string_chars_does_not_move() {
    let mut i = input("hello");
    assert_eq!(i.peek_string_chars(3), "hel");
    assert_eq!(i.peek_string_chars(5), "hello");
    assert_eq!(i.peek_string_chars(6), "");
    assert_eq!(i.cursor, 0);
    i.move_cursor(2);
    assert_eq!(i.peek_string_chars(2), "ll");
    assert_eq!(i.cursor, 2);
}

#[test]
fn remaining_input_is_the_unread_suffix() {
    let mut i = input("hello world");
    assert_eq!(i.remaining_input(), "hello world");
    i.move_cursor(5);
    assert_eq!(i.remaining_input(), " world");
    i.move_cursor(6);
    assert_eq!(i.remaining_input(), "");
}

#[test]
fn skip_whitespace_stops_at_the_first_other_character() {
    let mut i = input("   x  ");
    i.skip_whitespace(u32::MAX, false);
    assert_eq!(i.cursor, 3);
    i.skip_whitespace(u32::MAX, false);
    assert_eq!(i.cursor, 3);
}

#[test]
fn skip_whitespace_respects_the_bound() {
    let mut i = input("     x");
    i.skip_whitespace(2, false);
    assert_eq!(i.cursor, 2);
    i.skip_whitespace(0, false);
    assert_eq!(i.cursor, 2);
    i.skip_whitespace(10, false);
    assert_eq!(i.cursor, 5);
}

#[test]
fn skip_whitespace_skips_tabs_and_other_unicode_whitespace() {
    let mut i = input("\t\u{a0}\u{2003} x");
    i.skip_whitespace(u32::MAX, false);
    assert_eq!(i.cursor, 4);
    assert_eq!(i.peek(), Some('x'));
}

#[test]
fn skip_whitespace_preserves_a_single_trailing_space() {
    let mut i = input(" ");
    i.skip_whitespace(u32::MAX, true);
    assert_eq!(i.cursor, 0);

    let mut i = input("ab ");
    i.move_cursor(2);
    i.skip_whitespace(u32::MAX, true);
    assert_eq!(i.cursor, 2);
    assert!(i.has_remaining_input());
}

#[test]
fn skip_whitespace_without_preserving_reads_the_trailing_space() {
    let mut i = input(" ");
    i.skip_whitespace(u32::MAX, false);
    assert_eq!(i.cursor, 1);
    assert!(!i.has_remaining_input());
}

#[test]
fn skip_whitespace_preserves_only_a_lone_plain_space() {
    // Two spaces left: not a single trailing one.
    let mut i = input("  ");
    i.skip_whitespace(u32::MAX, true);
    assert_eq!(i.cursor, 2);
    // A lone tab is no plain space.
    let mut i = input("\t");
    i.skip_whitespace(u32::MAX, true);
    assert_eq!(i.cursor, 1);
    // A space followed by more text.
    let mut i = input(" x");
    i.skip_whitespace(u32::MAX, true);
    assert_eq!(i.cursor, 1);
}

#[test]
fn read_string_reads_token_after_token() {
    let mut i = input("  hello world");
    assert_eq!(i.read_string(), "hello");
    assert_eq!(i.cursor, 7);
    assert_eq!(i.read_string(), "world");
    assert_eq!(i.cursor, 13);
    assert_eq!(i.read_string(), "");
    assert_eq!(i.cursor, 13);
}

#[test]
fn read_string_on_whitespace_only_reads_to_the_end() {
    let mut i = input("a   ");
    assert_eq!(i.read_string(), "a");
    assert_eq!(i.cursor, 1);
    assert_eq!(i.read_string(), "");
    assert_eq!(i.cursor, 4);
}

#[test]
fn read_string_counts_characters_not_bytes() {
    let mut i = input("héllo wörld");
    assert_eq!(i.read_string(), "héllo");
    assert_eq!(i.cursor, 5);
    assert_eq!(i.peek(), Some(' '));
    assert_eq!(i.read_string(), "wörld");
    assert_eq!(i.cursor, 11);
    assert!(!i.has_remaining_input());
}

#[test]
fn peek_string_returns_the_next_token_without_moving() {
    let mut i = input(" one two");
    assert_eq!(i.peek_string(), "one");
    assert_eq!(i.cursor, 0);
    i.read_string();
    assert_eq!(i.peek_string(), "two");
    assert_eq!(i.cursor, 4);
    i.read_string();
    assert_eq!(i.peek_string(), "");
}

#[test]
fn read_until_stops_at_and_consumes_the_separator() {
    let mut i = input("  a b,c");
    assert_eq!(i.read_until(','), "a b");
    assert_eq!(i.cursor, 6);
    assert_eq!(i.read_until(','), "c");
    assert_eq!(i.cursor, 7);
    assert_eq!(i.read_until(','), "");
    assert_eq!(i.cursor, 7);
}

#[test]
fn read_until_with_the_separator_first_reads_nothing() {
    let mut i = input(";rest");
    assert_eq!(i.read_until(';'), "");
    assert_eq!(i.cursor, 1);
    assert_eq!(i.read_until(';'), "rest");
}

#[test]
fn read_string_skip_whitespace_skips_what_follows() {
    let mut i = input("ab   cd ");
    assert_eq!(i.read_string_skip_whitespace(false), "ab");
    assert_eq!(i.cursor, 5);
    assert_eq!(i.read_string_skip_whitespace(true), "cd");
    assert_eq!(i.cursor, 7);
    let mut j = input("cd ");
    assert_eq!(j.read_string_skip_whitespace(false), "cd");
    assert_eq!(j.cursor, 3);
}

#[test]
fn remaining_tokens_counts_tokens_and_a_pending_empty_one() {
    assert_eq!(input("").remaining_tokens(), 0);
    assert_eq!(input("a").remaining_tokens(), 1);
    assert_eq!(input("a b c").remaining_tokens(), 3);
    assert_eq!(input("a  b").remaining_tokens(), 2);
    assert_eq!(input("a b ").remaining_tokens(), 3);
    assert_eq!(input(" ").remaining_tokens(), 1);
    assert_eq!(input("  a").remaining_tokens(), 1);
}

#[test]
fn remaining_tokens_counts_from_the_cursor() {
    let mut i = input("a b c");
    i.read_string();
    assert_eq!(i.remaining_tokens(), 2);
    i.read_string();
    i.read_string();
    assert_eq!(i.remaining_tokens(), 0);
    assert_eq!(i.cursor, 5);
}

#[test]
fn clone_copies_text_and_cursor() {
    let mut i = input("a b");
    i.read_string();
    let mut j = i.clone();
    assert_eq!(j.cursor, 1);
    assert_eq!(j.read_string(), "b");
    assert_eq!(i.cursor, 1);
}
