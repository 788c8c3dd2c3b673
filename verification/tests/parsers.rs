use ferrumc_commands::input::CommandInput;
use ferrumc_commands::parser::integer::{parse_integer, IntParser, IntegerFailure};
use ferrumc_commands::parser::string::{read_greedy, GreedyStringParser, SingleStringParser};
use ferrumc_commands::parser::{ArgumentParser, ArgumentValue};
use ferrumc_commands::sender::Sender;
use ferrumc_commands::suggestion::{ArgumentSuggester, FixedSuggestions, NoSuggestions, Suggestion};

fn input(text: &str) -> CommandInput {
    CommandInput::of(text.to_string())
}

#[test]
fn integer_parser_reads_one_token() {
    let mut i = input("  42 rest");
    assert_eq!(IntParser::new().parse(Sender::Server, &mut i), Ok(ArgumentValue::Integer(42)));
    assert_eq!(i.cursor, 4);
}

#[test]
fn integer_parser_accepts_a_plus_sign_and_leading_zeros() {
    assert_eq!(parse_integer("+7"), Ok(ArgumentValue::Integer(7)));
    assert_eq!(parse_integer("007"), Ok(ArgumentValue::Integer(7)));
    assert_eq!(parse_integer("0"), Ok(ArgumentValue::Integer(0)));
    assert_eq!(parse_integer("4294967295"), Ok(ArgumentValue::Integer(u32::MAX)));
}

#[test]
fn integer_parser_rejects_words() {
    let mut i = input("ten 20");
    assert_eq!(
        IntParser.parse(Sender::Server, &mut i),
        Err("invalid digit found in string".to_string())
    );
    // The cursor is not rewound on failure.
    assert_eq!(i.cursor, 3);
}

#[test]
fn integer_parser_rejects_signs_and_mixed_tokens() {
    let invalid = Err("invalid digit found in string".to_string());
    assert_eq!(parse_integer("-1"), invalid);
    assert_eq!(parse_integer("+"), invalid);
    assert_eq!(parse_integer("1_000"), invalid);
    assert_eq!(parse_integer("12a"), invalid);
    assert_eq!(parse_integer("1.5"), invalid);
}

#[test]
fn integer_parser_rejects_the_empty_token() {
    let mut i = input("   ");
    assert_eq!(
        IntParser.parse(Sender::Server, &mut i),
        Err("cannot parse integer from empty string".to_string())
    );
    assert_eq!(i.cursor, 3);
}

#[test]
fn integer_parser_rejects_numbers_that_do_not_fit() {
    assert_eq!(
        parse_integer("4294967296"),
        Err("number too large to fit in target type".to_string())
    );
    assert_eq!(
        parse_integer("99999999999999999999"),
        Err("number too large to fit in target type".to_string())
    );
}

#[test]
fn integer_failures_describe_themselves() {
    assert_eq!(IntegerFailure::Empty.describe(), "cannot parse integer from empty string");
    assert_eq!(IntegerFailure::InvalidDigit.describe(), "invalid digit found in string");
    assert_eq!(IntegerFailure::TooLarge.describe(), "number too large to fit in target type");
    assert_eq!(IntegerFailure::Other.describe(), "invalid integer");
}

#[test]
fn single_string_parser_reads_one_raw_token() {
    let mut i = input("  wo/rd! rest");
    assert_eq!(
        SingleStringParser::new().parse(Sender::Server, &mut i),
        Ok(ArgumentValue::Text("wo/rd!".to_string()))
    );
    assert_eq!(i.cursor, 8);
}

#[test]
fn single_string_parser_on_nothing_gives_the_empty_text() {
    let mut i = input("");
    assert_eq!(
        SingleStringParser.parse(Sender::Server, &mut i),
        Ok(ArgumentValue::Text(String::new()))
    );
}

#[test]
fn greedy_string_parser_rejoins_with_single_spaces() {
    let mut i = input("a  b   c");
    assert_eq!(
        GreedyStringParser::new().parse(Sender::Server, &mut i),
        Ok(ArgumentValue::Text("a b c".to_string()))
    );
    assert!(!i.has_remaining_input());
    assert_eq!(i.cursor, 8);
}

#[test]
fn greedy_string_parser_trims_both_ends() {
    let mut i = input("   hello   world \t ");
    assert_eq!(read_greedy(&mut i), "hello world");
    assert!(!i.has_remaining_input());
}

#[test]
fn greedy_string_parser_starts_at_the_cursor() {
    let mut i = input("say hello there");
    i.read_string();
    assert_eq!(
        GreedyStringParser.parse(Sender::Server, &mut i),
        Ok(ArgumentValue::Text("hello there".to_string()))
    );
    assert_eq!(i.cursor, 15);
}

#[test]
fn greedy_string_parser_on_nothing_gives_the_empty_text() {
    let mut i = input("   ");
    assert_eq!(read_greedy(&mut i), "");
    assert_eq!(i.cursor, 3);
}

#[test]
fn no_suggestions_reads_a_token_and_proposes_nothing() {
    let mut i = input("12 word");
    assert!(NoSuggestions.suggest(Sender::Server, &mut i).is_empty());
    assert_eq!(i.cursor, 2);
    assert!(NoSuggestions.suggest(Sender::Server, &mut i).is_empty());
    assert_eq!(i.cursor, 7);
    assert!(NoSuggestions.suggest(Sender::Server, &mut i).is_empty());
    assert_eq!(i.cursor, 7);
}

#[test]
fn fixed_suggestions_reads_a_token_and_proposes_every_candidate() {
    let fixed = FixedSuggestions {
        candidates: vec![
            Suggestion::of("survival".to_string()),
            Suggestion { content: "creative".to_string(), tooltip: Some("fly".to_string()) },
        ],
    };
    let mut i = input("  cre next");
    let proposed = fixed.suggest(Sender::Server, &mut i);
    assert_eq!(i.cursor, 5);
    assert_eq!(proposed, fixed.candidates);
    assert_eq!(proposed[1].tooltip, Some("fly".to_string()));
    // The same again at the end of the text.
    let mut i = input("");
    assert_eq!(fixed.suggest(Sender::Server, &mut i), fixed.candidates);
    assert_eq!(i.cursor, 0);
}

#[test]
fn argument_values_are_extracted_by_kind() {
    assert_eq!(ArgumentValue::Integer(5).as_integer(), Ok(5));
    assert_eq!(ArgumentValue::Text("x".to_string()).as_text(), Ok("x".to_string()));
    assert_eq!(
        ArgumentValue::Text("x".to_string()).as_integer(),
        Err("expected an integer argument, found text".to_string())
    );
    assert_eq!(
        ArgumentValue::Integer(5).as_text(),
        Err("expected a text argument, found an integer".to_string())
    );
}
