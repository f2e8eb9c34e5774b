use ayed::input::{Input, Key, Modifiers};

#[test]
#[allow(non_snake_case)]
fn input_eq__normalized_comparison() {
    let not_uppercase_but_shift_wtf = Input {
        key: Key::Char('s'),
        modifiers: Modifiers::default().with_shift(),
    };
    let uppercase_without_shift = Input {
        key: Key::Char('S'),
        modifiers: Modifiers::default(),
    };
    assert_eq!(not_uppercase_but_shift_wtf, uppercase_without_shift)
}

#[test]
#[allow(non_snake_case)]
fn try_parse_input__one_modifier_and_uppercase_letter() {
    let result = Input::parse("<c-M>").unwrap();
    assert_eq!(
        result,
        Input::from_char_mods('m', Modifiers::default().with_ctrl().with_shift())
    )
}

#[test]
#[allow(non_snake_case)]
fn try_parse_input__two_modifiers() {
    let result = Input::parse("<ca-l>").unwrap();
    assert_eq!(
        result,
        Input::from_char_mods('l', Modifiers::default().with_ctrl().with_alt())
    )
}

#[test]
#[allow(non_snake_case)]
fn try_parse_input__three_modifiers() {
    let result = Input::parse("<sac-space>").unwrap();
    assert_eq!(
        result,
        Input::from_char_mods(' ', Modifiers::default().with_shift().with_alt().with_ctrl())
    )
}

#[test]
#[allow(non_snake_case)]
fn try_parse_input__named_key() {
    let result = Input::parse("<left>").unwrap();
    assert_eq!(
        result,
        Input {
            key: Key::Left,
            modifiers: Modifiers::default()
        }
    )
}

#[test]
fn key_text_reads_back_as_the_key() {
    let keys = [
        Key::Char('a'), Key::Char(' '), Key::Char('\n'), Key::Char('\t'), Key::Char('<'), Key::Char('>'),
        Key::Char('é'), Key::BackTab, Key::Backspace, Key::Delete, Key::Up, Key::Down, Key::Left, Key::Right,
        Key::Home, Key::End, Key::PageUp, Key::PageDown, Key::Escape,
    ];
    for k in keys {
        let mut buf = String::new();
        let word = k.serialize(&mut buf);
        assert_eq!(Key::from_string(&buf), Some(k));
        assert_eq!(word, buf.chars().count() > 1);
    }
}
