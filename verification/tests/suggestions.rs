use std::sync::Arc;

use ferrumc_commands::command::{Command, CommandArgument, CommandContext, CommandExecutor};
use ferrumc_commands::parser::integer::IntParser;
use ferrumc_commands::parser::string::SingleStringParser;
use ferrumc_commands::parser::CommandResult;
use ferrumc_commands::registry::Registry;
use ferrumc_commands::sender::Sender;
use ferrumc_commands::suggest::{
    command_suggestions, completion_response, console_hint, filter_matching, find_command,
    sort_by_length, suggestions_of,
};
use ferrumc_commands::suggestion::{FixedSuggestions, Suggestion};
use ferrumc_commands::text::{current_token, has_prefix, same_text};

struct Quiet;

impl CommandExecutor for Quiet {
    type Output = CommandResult;

    fn execute(&self, _context: CommandContext<Self>) -> CommandResult {
        Ok(String::new())
    }
}

fn fixed(contents: &[&str]) -> Box<FixedSuggestions> {
    Box::new(FixedSuggestions {
        candidates: contents.iter().map(|c| Suggestion::of(c.to_string())).collect(),
    })
}

fn registry_of(names: &[&str]) -> Registry<Quiet> {
    let mut r = Registry::new();
    for name in names {
        let args = match *name {
            "teleport" => vec![
                CommandArgument::new("x".to_string(), true, Box::new(IntParser)),
                CommandArgument::new("who".to_string(), false, Box::new(SingleStringParser))
                    .with_suggester(fixed(&["steve", "alex"])),
            ],
            "gamemode" => vec![
                CommandArgument::new("mode".to_string(), true, Box::new(SingleStringParser))
                    .with_suggester(fixed(&["survival", "creative", "spectator"])),
            ],
            _ => vec![],
        };
        let command = Arc::new(Command { name: name.to_string(), args, executor: Quiet });
        assert!(r.register(command).is_ok());
    }
    r
}

fn registry() -> Registry<Quiet> {
    registry_of(&["help", "home", "home set", "home delete", "hi", "teleport", "gamemode"])
}

fn strings(list: &[&str]) -> Vec<String> {
    list.iter().map(|s| s.to_string()).collect()
}

fn contents(list: &[Suggestion]) -> Vec<&str> {
    list.iter().map(|s| s.content.as_str()).collect()
}

fn suggest(r: &Registry<Quiet>, line: &str) -> (Vec<String>, String) {
    let (list, token) = command_suggestions(r, line, Sender::Server);
    for s in &list {
        assert_eq!(s.tooltip, None);
    }
    (list.into_iter().map(|s| s.content).collect(), token)
}

#[test]
fn text_helpers_compare_and_split() {
    assert!(same_text("abc", "abc"));
    assert!(!same_text("abc", "abd"));
    assert!(has_prefix("hello", "he"));
    assert!(has_prefix("hello", ""));
    assert!(has_prefix("hello", "hello"));
    assert!(!has_prefix("he", "hello"));
    assert!(!has_prefix("hello", "lo"));
    assert_eq!(current_token("home se"), "se");
    assert_eq!(current_token("home "), "");
    assert_eq!(current_token("home"), "home");
    assert_eq!(current_token("a\tb"), "b");
    assert_eq!(current_token(""), "");
}

#[test]
fn sort_by_length_is_ascending_and_stable() {
    let names = vec!["ccc", "a", "bb", "dd", "", "e"].into_iter().map(String::from).collect();
    assert_eq!(sort_by_length(names), vec!["", "a", "e", "bb", "dd", "ccc"]);
    assert!(sort_by_length(Vec::new()).is_empty());
}

#[test]
fn sort_by_length_counts_characters() {
    let names = vec!["éé", "abc"].into_iter().map(String::from).collect();
    assert_eq!(sort_by_length(names), vec!["éé", "abc"]);
}

#[test]
fn suggestions_of_names_have_no_tooltip() {
    let list = suggestions_of(vec!["a".to_string(), "b".to_string()]);
    assert_eq!(list, vec![Suggestion::of("a".to_string()), Suggestion::of("b".to_string())]);
    assert_eq!(list[0].tooltip, None);
}

#[test]
fn filter_matching_keeps_order_and_tooltips() {
    let list = vec![
        Suggestion { content: "set".to_string(), tooltip: Some("sets".to_string()) },
        Suggestion::of("delete".to_string()),
        Suggestion::of("show".to_string()),
    ];
    let kept = filter_matching(&list, "s");
    assert_eq!(contents(&kept), vec!["set", "show"]);
    assert_eq!(kept[0].tooltip, Some("sets".to_string()));
    assert_eq!(contents(&filter_matching(&list, "")), vec!["set", "delete", "show"]);
    assert!(filter_matching(&list, "x").is_empty());
}

#[test]
fn suggest_on_an_empty_line_is_empty() {
    let r = registry();
    assert_eq!(suggest(&r, ""), (vec![], String::new()));
}

#[test]
fn suggest_on_a_prefix_lists_literals_by_length() {
    let r = registry_of(&["help", "home"]);
    assert_eq!(suggest(&r, "h"), (vec!["help".to_string(), "home".to_string()], "h".to_string()));
    let r = registry();
    assert_eq!(
        suggest(&r, "h"),
        (vec!["hi".to_string(), "help".to_string(), "home".to_string()], "h".to_string())
    );
    assert_eq!(suggest(&r, "/h").0, Vec::<String>::new());
    assert_eq!(suggest(&r, "/h").1, "/h");
    assert_eq!(suggest(&r, "te"), (vec!["teleport".to_string()], "te".to_string()));
}

#[test]
fn suggest_without_a_match_lists_every_literal_that_fits() {
    let r = registry();
    // Literals of every depth are candidates.
    assert_eq!(suggest(&r, "s"), (vec!["set".to_string()], "s".to_string()));
    assert_eq!(suggest(&r, "d"), (vec!["delete".to_string()], "d".to_string()));
    assert_eq!(suggest(&r, "x"), (vec![], "x".to_string()));
}

#[test]
fn suggest_on_a_command_lists_its_subcommands() {
    let r = registry();
    // The token is the command itself: no subcommand begins with it.
    assert_eq!(suggest(&r, "home"), (vec![], "home".to_string()));
    assert_eq!(
        suggest(&r, "home "),
        (vec!["set".to_string(), "delete".to_string()], String::new())
    );
    assert_eq!(suggest(&r, "home s"), (vec!["set".to_string()], "s".to_string()));
    assert_eq!(suggest(&r, "/home d"), (vec!["delete".to_string()], "d".to_string()));
    // Not the top-level commands.
    assert_eq!(suggest(&r, "home h"), (vec![], "h".to_string()));
}

#[test]
fn suggest_on_an_argument_asks_its_suggester() {
    let r = registry();
    assert_eq!(
        suggest(&r, "gamemode "),
        (strings(&["survival", "creative", "spectator"]), String::new())
    );
    assert_eq!(suggest(&r, "gamemode s"), (strings(&["survival", "spectator"]), "s".to_string()));
    assert_eq!(suggest(&r, "/gamemode cr"), (strings(&["creative"]), "cr".to_string()));
    assert_eq!(suggest(&r, "gamemode x"), (vec![], "x".to_string()));
}

#[test]
fn suggest_walks_the_arguments_in_order() {
    let r = registry();
    // The first argument has no candidates of its own.
    assert_eq!(suggest(&r, "teleport "), (vec![], String::new()));
    assert_eq!(suggest(&r, "teleport 1"), (vec![], "1".to_string()));
    // Behind the first argument and a space the second one is asked.
    assert_eq!(suggest(&r, "teleport 1 "), (strings(&["steve", "alex"]), String::new()));
    assert_eq!(suggest(&r, "teleport 1 a"), (strings(&["alex"]), "a".to_string()));
    assert_eq!(suggest(&r, "/teleport   1   st"), (strings(&["steve"]), "st".to_string()));
}

#[test]
fn suggest_behind_the_last_argument_proposes_nothing() {
    let r = registry();
    assert_eq!(suggest(&r, "gamemode creative "), (vec![], String::new()));
    assert_eq!(suggest(&r, "teleport 1 steve more"), (vec![], "more".to_string()));
    assert_eq!(suggest(&r, "help "), (vec![], String::new()));
    assert_eq!(suggest(&r, "help me"), (vec![], "me".to_string()));
}

#[test]
fn suggest_twice_gives_the_same_result() {
    let r = registry();
    for line in ["", "h", "home ", "home s", "teleport 1 ", "gamemode s", "/x y"] {
        let first = command_suggestions(&r, line, Sender::Server);
        let second = command_suggestions(&r, line, Sender::Server);
        assert_eq!(first, second);
    }
}

#[test]
fn replacement_starts_where_the_token_starts() {
    let r = registry();
    let line = "home se";
    let (_, token) = suggest(&r, line);
    assert_eq!(line.len() - token.len(), 5);
    let response = completion_response(&r, line, Sender::Server);
    assert_eq!(contents(&response.matches), vec!["set"]);
    assert_eq!(response.start, 5);
    assert_eq!(response.length, 7);
}

#[test]
fn completion_response_spans_the_last_token() {
    let r = registry();
    let response = completion_response(&r, "/home ", Sender::Server);
    assert_eq!(contents(&response.matches), vec!["set", "delete"]);
    assert_eq!((response.start, response.length), (6, 6));
    let response = completion_response(&r, "h", Sender::Server);
    assert_eq!(contents(&response.matches), vec!["hi", "help", "home"]);
    assert_eq!((response.start, response.length), (0, 1));
    let response = completion_response(&r, "", Sender::Server);
    assert!(response.matches.is_empty());
    assert_eq!((response.start, response.length), (0, 0));
    // Offsets count characters.
    let response = completion_response(&r, "héllo wö", Sender::Server);
    assert!(response.matches.is_empty());
    assert_eq!((response.start, response.length), (6, 8));
}

#[test]
fn find_command_backs_off_to_the_command() {
    let r = registry();
    assert_eq!(find_command(&r, "/home set now"), Some(2));
    assert_eq!(find_command(&r, "home set"), Some(2));
    assert_eq!(find_command(&r, "home se"), Some(1));
    assert_eq!(find_command(&r, "teleport 1 2"), Some(5));
    assert_eq!(find_command(&r, "gamemode"), Some(6));
    assert_eq!(find_command(&r, "hom"), None);
    assert_eq!(find_command(&r, "nothing at all"), None);
    assert_eq!(find_command(&r, "   "), None);
    assert_eq!(find_command(&r, ""), None);
}

#[test]
fn console_hint_completes_the_token() {
    let r = registry();
    assert_eq!(console_hint(&r, "he"), Some("lp".to_string()));
    assert_eq!(console_hint(&r, "h"), Some("i".to_string()));
    assert_eq!(console_hint(&r, "home s"), Some("et".to_string()));
    assert_eq!(console_hint(&r, "home "), Some("set".to_string()));
    assert_eq!(console_hint(&r, "gamemode sp"), Some("ectator".to_string()));
    assert_eq!(console_hint(&r, "zzz"), None);
    assert_eq!(console_hint(&r, ""), None);
}
