use ayed::command::{parse_command, CommandQueue, CommandRegistry};

#[test]
fn commands_come_out_in_order() {
    let mut q = CommandQueue::new();
    q.push("first".to_string());
    q.push("second".to_string());
    assert_eq!(q.pop(), Some("first".to_string()));
    assert_eq!(q.pop(), Some("second".to_string()));
    assert_eq!(q.pop(), None);
    assert!(q.is_empty());
}

#[test]
fn commands_of_an_inner_scope_run_first() {
    let mut q = CommandQueue::new();
    q.push("a".to_string());
    q.push("b".to_string());
    assert_eq!(q.pop(), Some("a".to_string()));
    q.start_scope();
    q.push("a1".to_string());
    q.push("a2".to_string());
    assert_eq!(q.pop(), Some("a1".to_string()));
    assert_eq!(q.pop(), Some("a2".to_string()));
    assert_eq!(q.pop(), Some("b".to_string()));
}

#[test]
fn emit_and_set_state_build_commands() {
    let mut q = CommandQueue::new();
    q.emit("message".to_string(), "hello there");
    q.set_state("mode", "edit");
    assert_eq!(q.pop(), Some("message hello there".to_string()));
    assert_eq!(q.pop(), Some("state-set mode edit".to_string()));
}

#[test]
fn parse_command_splits_at_first_space() {
    assert_eq!(parse_command("edit src/lib.rs now"), ("edit", "src/lib.rs now"));
    assert_eq!(parse_command("quit"), ("quit", ""));
}

#[test]
fn registry_resolves_commands() {
    let mut r: CommandRegistry<u8> = CommandRegistry::new();
    r.register("quit".to_string(), 1);
    r.register("edit".to_string(), 2);
    r.register("edit".to_string(), 3);
    r.register_event("buffer-saved".to_string());
    assert_eq!(r.execute_command("edit a b"), Ok(Some((&3, "a b"))));
    assert_eq!(r.execute_command("quit"), Ok(Some((&1, ""))));
    assert_eq!(r.execute_command("buffer-saved x"), Ok(None));
    assert_eq!(r.execute_command("state-modified:mode edit"), Ok(None));
    assert_eq!(r.execute_command("nope now"), Err("unknown command 'nope'".to_string()));
}

#[test]
fn builtin_events_run_nothing() {
    let mut r: CommandRegistry<u8> = CommandRegistry::new();
    ayed::command::register_builtin_events(&mut r);
    assert_eq!(r.execute_command("buffer-opened /x"), Ok(None));
    assert_eq!(r.execute_command("time-tick"), Ok(None));
    assert!(r.execute_command("buffer-reopened").is_err());
}
