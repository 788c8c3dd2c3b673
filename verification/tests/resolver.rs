use std::sync::atomic::{AtomicUsize, Ordering};
use std::sync::Arc;

use bevy_ecs::entity::Entity;
use ferrumc_commands::command::{Command, CommandArgument, CommandContext, CommandExecutor};
use ferrumc_commands::dispatch::{report, screen, Execution};
use ferrumc_commands::parser::integer::IntParser;
use ferrumc_commands::parser::CommandResult;
use ferrumc_commands::registry::Registry;
use ferrumc_commands::resolver::{
    command_resolver, create_ctx, resolve, without_slash, CommandDispatched, Resolution,
};
use ferrumc_commands::sender::Sender;

static RUNS: AtomicUsize = AtomicUsize::new(0);

struct Teleport;

impl CommandExecutor for Teleport {
    type Output = CommandResult;

    fn execute(&self, mut context: CommandContext<Self>) -> CommandResult {
        RUNS.fetch_add(1, Ordering::SeqCst);
        if context.command.args.is_empty() {
            return Ok(context.command.name.clone());
        }
        let x = context.arg("x")?.as_integer()?;
        let y = context.arg("y")?.as_integer()?;
        Ok(format!("teleported to ({x},{y})"))
    }
}

fn integer(name: &str) -> CommandArgument {
    CommandArgument::new(name.to_string(), true, Box::new(IntParser))
}

fn registry() -> Registry<Teleport> {
    let mut r = Registry::new();
    for (name, args) in [
        ("teleport", vec![integer("x"), integer("y")]),
        ("help", vec![]),
        ("home set", vec![]),
    ] {
        let command = Arc::new(Command { name: name.to_string(), args, executor: Teleport });
        assert!(r.register(command).is_ok());
    }
    r
}

fn player() -> Sender {
    Sender::Player(Entity::from_raw_u32(7).unwrap())
}

#[test]
fn without_slash_drops_one_leading_slash() {
    assert_eq!(without_slash("/help"), "help");
    assert_eq!(without_slash("help"), "help");
    assert_eq!(without_slash("//help"), "/help");
    assert_eq!(without_slash(""), "");
    assert_eq!(without_slash("/"), "");
}

#[test]
fn resolve_unknown_command_fails_with_the_fixed_message() {
    let r = registry();
    match resolve(&r, "/unknown args", Sender::Server) {
        Err(message) => assert_eq!(message, "Unknown command"),
        Ok(_) => panic!("an unknown command was resolved"),
    }
    assert!(resolve(&r, "", Sender::Server).is_err());
    assert!(resolve(&r, "/", Sender::Server).is_err());
    assert!(resolve(&r, "home", Sender::Server).is_err());
}

#[test]
fn resolve_isolates_the_argument_text() {
    let r = registry();
    let (command, ctx) = resolve(&r, "/teleport 10 20", player()).ok().unwrap();
    assert_eq!(command.name, "teleport");
    assert_eq!(ctx.command.name, "teleport");
    assert!(ctx.sender == player());
    assert_eq!(ctx.input.input, "10 20");
    assert_eq!(ctx.input.cursor, 0);
}

#[test]
fn resolve_works_without_a_slash_and_without_arguments() {
    let r = registry();
    let (command, ctx) = resolve(&r, "teleport", Sender::Server).ok().unwrap();
    assert_eq!(command.name, "teleport");
    assert_eq!(ctx.input.input, "");
    let (command, ctx) = resolve(&r, "home set   here  now ", Sender::Server).ok().unwrap();
    assert_eq!(command.name, "home set");
    assert_eq!(ctx.input.input, "here  now ");
}

#[test]
fn resolve_never_shows_the_words_of_the_command() {
    let r = registry();
    // The spacing of the line need not be that of the name.
    let (command, ctx) = resolve(&r, "  home \t  set   x  y", Sender::Server).ok().unwrap();
    assert_eq!(command.name, "home set");
    assert_eq!(ctx.input.input, "x  y");
    let (command, ctx) = resolve(&r, "/  teleport 1 2", Sender::Server).ok().unwrap();
    assert_eq!(command.name, "teleport");
    assert_eq!(ctx.input.input, "1 2");
}

#[test]
fn create_ctx_strips_slash_name_and_leading_whitespace() {
    let r = registry();
    let teleport = r.get_command_by_name("teleport").unwrap();
    let ctx = create_ctx("/teleport   1 2", teleport.clone(), Sender::Server);
    assert_eq!(ctx.input.input, "1 2");
    // Without the name at the front only the whitespace goes.
    let ctx = create_ctx("  1 2", teleport.clone(), Sender::Server);
    assert_eq!(ctx.input.input, "1 2");
    let ctx = create_ctx("teleporter 1 2", teleport.clone(), Sender::Server);
    assert_eq!(ctx.input.input, "teleporter 1 2");
    let home_set = r.get_command_by_name("home set").unwrap();
    let ctx = create_ctx("home", home_set.clone(), Sender::Server);
    assert_eq!(ctx.input.input, "home");
    let ctx = create_ctx("/home  set  now", home_set, Sender::Server);
    assert_eq!(ctx.input.input, "now");
    let ctx = create_ctx("teleport", teleport, Sender::Server);
    assert_eq!(ctx.input.input, "");
    assert_eq!(ctx.input.cursor, 0);
}

#[test]
fn command_resolver_keeps_the_order_of_submission() {
    let r = registry();
    let dispatched = vec![
        CommandDispatched { command: "help".to_string(), sender: Sender::Server },
        CommandDispatched { command: "/unknown args".to_string(), sender: player() },
        CommandDispatched { command: "/teleport 1 2".to_string(), sender: player() },
    ];
    let out = command_resolver(&r, &dispatched);
    assert_eq!(out.len(), 3);
    match &out[0] {
        Resolution::Resolved(done) => {
            assert_eq!(done.command.name, "help");
            assert!(done.sender == Sender::Server);
        }
        Resolution::Failed(_) => panic!("help was not resolved"),
    }
    match &out[1] {
        Resolution::Failed(feedback) => {
            assert_eq!(feedback.message, "Unknown command");
            assert!(feedback.sender == player());
        }
        Resolution::Resolved(_) => panic!("an unknown command was resolved"),
    }
    match &out[2] {
        Resolution::Resolved(done) => {
            assert_eq!(done.command.name, "teleport");
            assert_eq!(done.ctx.input.input, "1 2");
            assert!(done.sender == player());
        }
        Resolution::Failed(_) => panic!("teleport was not resolved"),
    }
}

#[test]
fn command_resolver_on_nothing_yields_nothing() {
    let r = registry();
    assert!(command_resolver(&r, &Vec::new()).is_empty());
}

#[test]
fn teleport_dispatches_with_both_arguments() {
    let r = registry();
    let dispatched =
        vec![CommandDispatched { command: "teleport 10 20".to_string(), sender: player() }];
    let mut out = command_resolver(&r, &dispatched);
    let resolved = match out.pop() {
        Some(Resolution::Resolved(done)) => done,
        _ => panic!("teleport was not resolved"),
    };
    match screen(resolved) {
        Execution::Run(run) => {
            // Validation left the cursor where the resolver put it.
            assert_eq!(run.ctx.input.cursor, 0);
            let result = run.command.execute(run.ctx);
            assert_eq!(result, Ok("teleported to (10,20)".to_string()));
            let feedback = report(run.sender, result);
            assert_eq!(feedback.message, "teleported to (10,20)");
            assert!(feedback.sender == player());
        }
        Execution::Rejected(_) => panic!("valid arguments were rejected"),
    }
}

#[test]
fn teleport_with_a_word_fails_before_execution() {
    let r = registry();
    let before = RUNS.load(Ordering::SeqCst);
    let (command, ctx) = resolve(&r, "teleport ten 20", player()).ok().unwrap();
    let resolved = ferrumc_commands::resolver::ResolvedCommandDispatched {
        command,
        ctx,
        sender: player(),
    };
    match screen(resolved) {
        Execution::Rejected(feedback) => {
            assert_eq!(feedback.message, "invalid digit found in string");
            assert!(feedback.sender == player());
        }
        Execution::Run(_) => panic!("an invalid argument was accepted"),
    }
    // Nothing in this test ran an executor.
    let _ = before;
}

#[test]
fn screen_rejects_a_missing_argument() {
    let r = registry();
    let (command, ctx) = resolve(&r, "/teleport 10", Sender::Server).ok().unwrap();
    let resolved = ferrumc_commands::resolver::ResolvedCommandDispatched {
        command,
        ctx,
        sender: Sender::Server,
    };
    match screen(resolved) {
        Execution::Rejected(feedback) => {
            assert_eq!(feedback.message, "cannot parse integer from empty string");
            assert!(feedback.sender == Sender::Server);
        }
        Execution::Run(_) => panic!("a missing argument was accepted"),
    }
}

#[test]
fn report_delivers_success_and_failure_text() {
    let ok = report(Sender::Server, Ok("done".to_string()));
    assert_eq!(ok.message, "done");
    assert!(ok.sender == Sender::Server);
    let err = report(player(), Err("no permission".to_string()));
    assert_eq!(err.message, "no permission");
    assert!(err.sender == player());
}

#[test]
fn senders_compare_by_variant_and_entity() {
    let a = Sender::Player(Entity::from_raw_u32(1).unwrap());
    let b = Sender::Player(Entity::from_raw_u32(2).unwrap());
    assert!(a == a);
    assert!(a != b);
    assert!(a != Sender::Server);
    assert!(a < Sender::Server);
    let copy = a;
    assert!(copy == a);
}
