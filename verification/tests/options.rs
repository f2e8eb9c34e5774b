use ayed::command::options::parsers::take_while1;
use ayed::command::options::Options;

#[test]
fn test_take_while1() {
    assert!(matches!(
        take_while1(&char::is_alphabetic, "hello2"),
        Some(("2", "hello"))
    ));
    assert!(matches!(take_while1(&char::is_alphabetic, "!wow"), None));
}

#[test]
fn test_options_parse() {
    let opts = Options::new()
        .flag("hello")
        .flag("there")
        .flag("friend")
        .parse("--there --hello yippee!")
        .unwrap();
    assert_eq!(opts.contains("hello"), true);
    assert_eq!(opts.contains("there"), true);
    assert_eq!(opts.contains("friend"), false);
    assert_eq!(opts.contains("pal"), false);
    assert_eq!(opts.remainder(), "yippee!");
}
