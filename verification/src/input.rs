//! Key inputs: a key and its modifiers, and their text form (`a`, `<c-k>`,
//! `<sa-left>`).

use vstd::prelude::*;

use crate::pattern::{captures_view, regex_captures, regex_captures_of};
use crate::text::{chars_of, push_char, push_str, str_eq};
use crate::unicode::{char_is_uppercase, char_lowercase, is_uppercase_of, lowercase_of};

verus! {

/// Matches an input with modifiers, such as `<ca-k>`.
pub const RE_MOD: &'static str = "<([^-]+)-([^>]+)>";

/// Matches a named key, such as `<space>`.
pub const RE_KEY: &'static str = "<([^>]+)>";

/// Whether `c` is one of the ASCII letters `A` to `Z`.
pub open spec fn is_ascii_uppercase_spec(c: char) -> bool {
    65 <= (c as u32) <= 90
}

/// `c` with the ASCII letters `a` to `z` made uppercase.
pub open spec fn to_ascii_uppercase_spec(c: char) -> char {
    if 97 <= (c as u32) <= 122 {
        ((c as u32) - 32) as char
    } else {
        c
    }
}

fn to_ascii_uppercase(c: char) -> (r: char)
    ensures
        r == to_ascii_uppercase_spec(c),
{
    if 'a' <= c && c <= 'z' {
        let b: u8 = c as u8;
        (b - 32) as char
    } else {
        c
    }
}

/// A key of the keyboard.
#[derive(Debug, Clone, Copy, PartialEq, Eq, Structural, Hash)]
pub enum Key {
    Char(char),
    BackTab,
    Backspace,
    Delete,
    Up,
    Down,
    Left,
    Right,
    Home,
    End,
    PageUp,
    PageDown,
    Escape,
}

/// The modifier keys held with a key.
#[derive(Debug, Clone, Copy, PartialEq, Eq, Structural, Hash)]
pub struct Modifiers {
    pub ctrl: bool,
    pub shift: bool,
    pub alt: bool,
}

impl Default for Modifiers {
    fn default() -> (r: Self)
        ensures
            r == (Modifiers { ctrl: false, shift: false, alt: false }),
    {
        Modifiers { ctrl: false, shift: false, alt: false }
    }
}

impl Modifiers {
    pub open spec fn none() -> Modifiers {
        Modifiers { ctrl: false, shift: false, alt: false }
    }

    pub open spec fn any_spec(self) -> bool {
        self.ctrl || self.shift || self.alt
    }

    pub fn ctrl(&self) -> (r: bool)
        ensures
            r == self.ctrl,
    {
        self.ctrl
    }

    pub fn with_ctrl(self) -> (r: Self)
        ensures
            r == (Modifiers { ctrl: true, ..self }),
    {
        Modifiers { ctrl: true, shift: self.shift, alt: self.alt }
    }

    pub fn shift(&self) -> (r: bool)
        ensures
            r == self.shift,
    {
        self.shift
    }

    pub fn with_shift(self) -> (r: Self)
        ensures
            r == (Modifiers { shift: true, ..self }),
    {
        Modifiers { ctrl: self.ctrl, shift: true, alt: self.alt }
    }

    pub fn alt(&self) -> (r: bool)
        ensures
            r == self.alt,
    {
        self.alt
    }

    pub fn with_alt(self) -> (r: Self)
        ensures
            r == (Modifiers { alt: true, ..self }),
    {
        Modifiers { ctrl: self.ctrl, shift: self.shift, alt: true }
    }

    /// Whether any modifier is held.
    pub fn any(&self) -> (r: bool)
        ensures
            r == self.any_spec(),
    {
        self.ctrl || self.shift || self.alt
    }

    /// The held modifiers, as the letters `c`, `s` and `a` in that order.
    pub open spec fn text(self) -> Seq<char> {
        (if self.ctrl {
            seq!['c']
        } else {
            Seq::empty()
        }) + (if self.shift {
            seq!['s']
        } else {
            Seq::empty()
        }) + (if self.alt {
            seq!['a']
        } else {
            Seq::empty()
        })
    }

    /// The held modifiers, as the letters `c`, `s` and `a` in that order.
    pub fn as_str(&self) -> (r: &'static str)
        ensures
            r@ == self.text(),
    {
        proof {
            reveal_strlit("");
            reveal_strlit("c");
            reveal_strlit("s");
            reveal_strlit("a");
            reveal_strlit("cs");
            reveal_strlit("ca");
            reveal_strlit("sa");
            reveal_strlit("csa");
        }
        let r = match (self.ctrl, self.shift, self.alt) {
            (false, false, false) => "",
            (true, false, false) => "c",
            (false, true, false) => "s",
            (false, false, true) => "a",
            (true, true, false) => "cs",
            (true, false, true) => "ca",
            (false, true, true) => "sa",
            (true, true, true) => "csa",
        };
        proof {
            assert(r@ =~= self.text());
        }
        r
    }
}

/// The name of a key in the text form of inputs, for the keys that have one.
pub open spec fn key_name(key: Key) -> Option<Seq<char>> {
    match key {
        Key::Char(c) => if c == ' ' {
            Some("space"@)
        } else if c == '\n' {
            Some("ret"@)
        } else if c == '\t' {
            Some("tab"@)
        } else if c == '<' {
            Some("lt"@)
        } else if c == '>' {
            Some("gt"@)
        } else {
            None
        },
        Key::BackTab => Some("backtab"@),
        Key::Backspace => Some("backspace"@),
        Key::Delete => Some("del"@),
        Key::Home => Some("home"@),
        Key::End => Some("end"@),
        Key::Up => Some("up"@),
        Key::Down => Some("down"@),
        Key::Left => Some("left"@),
        Key::Right => Some("right"@),
        Key::PageUp => Some("pageup"@),
        Key::PageDown => Some("pagedown"@),
        Key::Escape => Some("esc"@),
    }
}

/// A key in the text form of inputs: its name, or the character itself.
pub open spec fn key_text(key: Key) -> Seq<char> {
    match key_name(key) {
        Some(name) => name,
        None => match key {
            Key::Char(c) => seq![c],
            _ => Seq::empty(),
        },
    }
}

/// The key that a text stands for: a key name, or a single character.
pub open spec fn key_from_text(src: Seq<char>) -> Option<Key> {
    if src == "space"@ {
        Some(Key::Char(' '))
    } else if src == "ret"@ {
        Some(Key::Char('\n'))
    } else if src == "tab"@ {
        Some(Key::Char('\t'))
    } else if src == "backtab"@ {
        Some(Key::BackTab)
    } else if src == "backspace"@ {
        Some(Key::Backspace)
    } else if src == "del"@ {
        Some(Key::Delete)
    } else if src == "home"@ {
        Some(Key::Home)
    } else if src == "end"@ {
        Some(Key::End)
    } else if src == "up"@ {
        Some(Key::Up)
    } else if src == "down"@ {
        Some(Key::Down)
    } else if src == "left"@ {
        Some(Key::Left)
    } else if src == "right"@ {
        Some(Key::Right)
    } else if src == "pageup"@ {
        Some(Key::PageUp)
    } else if src == "pagedown"@ {
        Some(Key::PageDown)
    } else if src == "esc"@ {
        Some(Key::Escape)
    } else if src == "lt"@ {
        Some(Key::Char('<'))
    } else if src == "gt"@ {
        Some(Key::Char('>'))
    } else if src.len() == 1 {
        Some(Key::Char(src[0]))
    } else {
        None
    }
}

impl Key {
    /// The character key, its character lowercased.
    pub fn from_char_normalized(ch: char) -> (r: Self)
        ensures
            r == Key::Char(lowercase_of(ch)),
    {
        Key::Char(char_lowercase(ch))
    }

    /// Appends the key's text form (see `key_text`) to `buf`; returns
    /// whether it is a name rather than a single character.
    pub fn serialize(&self, buf: &mut String) -> (r: bool)
        ensures
            final(buf)@ == old(buf)@ + key_text(*self),
            r == key_name(*self).is_some(),
    {
        let s = match self {
            Key::Char(' ') => "space",
            Key::Char('\n') => "ret",
            Key::Char('\t') => "tab",
            Key::BackTab => "backtab",
            Key::Backspace => "backspace",
            Key::Delete => "del",
            Key::Home => "home",
            Key::End => "end",
            Key::Up => "up",
            Key::Down => "down",
            Key::Left => "left",
            Key::Right => "right",
            Key::PageUp => "pageup",
            Key::PageDown => "pagedown",
            Key::Escape => "esc",
            Key::Char('<') => "lt",
            Key::Char('>') => "gt",
            Key::Char(ch) => {
                push_char(buf, *ch);
                proof {
                    assert(final(buf)@ =~= old(buf)@ + key_text(*self)) by {
                        assert(old(buf)@.push(*ch) =~= old(buf)@ + seq![*ch]);
                    }
                }
                return false;
            },
        };
        push_str(buf, s);
        true
    }

    /// The key that a text stands for (see `key_from_text`).
    pub fn from_string(src: &str) -> (r: Option<Self>)
        ensures
            r == key_from_text(src@),
    {
        if str_eq(src, "space") {
            return Some(Key::Char(' '));
        }
        if str_eq(src, "ret") {
            return Some(Key::Char('\n'));
        }
        if str_eq(src, "tab") {
            return Some(Key::Char('\t'));
        }
        if str_eq(src, "backtab") {
            return Some(Key::BackTab);
        }
        if str_eq(src, "backspace") {
            return Some(Key::Backspace);
        }
        if str_eq(src, "del") {
            return Some(Key::Delete);
        }
        if str_eq(src, "home") {
            return Some(Key::Home);
        }
        if str_eq(src, "end") {
            return Some(Key::End);
        }
        if str_eq(src, "up") {
            return Some(Key::Up);
        }
        if str_eq(src, "down") {
            return Some(Key::Down);
        }
        if str_eq(src, "left") {
            return Some(Key::Left);
        }
        if str_eq(src, "right") {
            return Some(Key::Right);
        }
        if str_eq(src, "pageup") {
            return Some(Key::PageUp);
        }
        if str_eq(src, "pagedown") {
            return Some(Key::PageDown);
        }
        if str_eq(src, "esc") {
            return Some(Key::Escape);
        }
        if str_eq(src, "lt") {
            return Some(Key::Char('<'));
        }
        if str_eq(src, "gt") {
            return Some(Key::Char('>'));
        }
        let chars = chars_of(src);
        if chars.len() == 1 {
            Some(Key::Char(chars[0]))
        } else {
            None
        }
    }
}


/// A key input: a key and the modifiers held with it.
#[derive(Debug, Clone, Copy, Eq)]
pub struct Input {
    pub key: Key,
    pub modifiers: Modifiers,
}

/// The modifiers that a text of modifier letters (`c`, `s`, `a`, in any
/// order, repeated or not) stands for; `None` when it holds another character.
pub open spec fn modifiers_from_text(src: Seq<char>) -> Option<Modifiers>
    decreases src.len(),
{
    if src.len() == 0 {
        Some(Modifiers::none())
    } else {
        match modifiers_from_text(src.drop_last()) {
            None => None,
            Some(m) => {
                let c = src.last();
                if c == 'c' {
                    Some(Modifiers { ctrl: true, ..m })
                } else if c == 's' {
                    Some(Modifiers { shift: true, ..m })
                } else if c == 'a' {
                    Some(Modifiers { alt: true, ..m })
                } else {
                    None
                }
            },
        }
    }
}

/// Capture group `i`, if it took part in the match.
pub open spec fn group(groups: Seq<Option<Seq<char>>>, i: int) -> Option<Seq<char>> {
    if 0 <= i < groups.len() {
        groups[i]
    } else {
        None
    }
}

/// The input that a text stands for, given what matching it against
/// `RE_MOD` and `RE_KEY` captured: modifiers and a key (`<ca-k>`), a key
/// (`<space>`), or a single character (`k`).
pub open spec fn input_from_captures(
    mod_caps: Result<Option<Seq<Option<Seq<char>>>>, ()>,
    key_caps: Result<Option<Seq<Option<Seq<char>>>>, ()>,
    s: Seq<char>,
) -> Result<Input, ()> {
    match mod_caps {
        Err(()) => Err(()),
        Ok(Some(groups)) => match (group(groups, 1), group(groups, 2)) {
            (Some(m), Some(k)) => match (modifiers_from_text(m), key_from_text(k)) {
                (Some(modifiers), Some(key)) => Ok(Input { key, modifiers }.normalized_spec()),
                _ => Err(()),
            },
            _ => Err(()),
        },
        Ok(None) => match key_caps {
            Err(()) => Err(()),
            Ok(Some(groups)) => match group(groups, 1) {
                Some(k) => match key_from_text(k) {
                    Some(key) => Ok(Input { key, modifiers: Modifiers::none() }.normalized_spec()),
                    None => Err(()),
                },
                None => Err(()),
            },
            Ok(None) => if s.len() == 1 {
                Ok(Input::from_char_spec(s[0]))
            } else {
                Err(())
            },
        },
    }
}

/// The text form of an input: nothing for the NUL character, otherwise
/// the modifiers' letters and `-` if any is held, then the key's text, the
/// whole between `<` and `>` when there are modifiers or the key has a name.
pub open spec fn input_text(input: Input) -> Seq<char> {
    if input.key == Key::Char('\0') {
        Seq::empty()
    } else {
        let any = input.modifiers.any_spec();
        let body = (if any {
            input.modifiers.text() + seq!['-']
        } else {
            Seq::empty()
        }) + key_text(input.key);
        if key_name(input.key).is_some() || any {
            seq!['<'] + body + seq!['>']
        } else {
            body
        }
    }
}

impl Input {
    /// The input in normal form: a character key lowercased, with shift
    /// held when the character is uppercase; a back-tab without shift.
    pub open spec fn normalized_spec(self) -> Input {
        match self.key {
            Key::Char(ch) => Input {
                key: Key::Char(lowercase_of(ch)),
                modifiers: Modifiers { shift: self.modifiers.shift || is_uppercase_of(ch), ..self.modifiers },
            },
            Key::BackTab => Input { key: Key::BackTab, modifiers: Modifiers { shift: false, ..self.modifiers } },
            _ => self,
        }
    }

    pub open spec fn from_char_mods_spec(ch: char, modifiers: Modifiers) -> Input {
        Input {
            key: Key::Char(ch),
            modifiers: Modifiers { shift: modifiers.shift || is_ascii_uppercase_spec(ch), ..modifiers },
        }.normalized_spec()
    }

    pub open spec fn from_char_spec(ch: char) -> Input {
        Input::from_char_mods_spec(ch, Modifiers::none())
    }

    /// The input of `key` with `modifiers`, in normal form.
    pub fn new(key: Key, modifiers: Modifiers) -> (r: Self)
        ensures
            r == (Input { key, modifiers }).normalized_spec(),
    {
        Self { key, modifiers }.normalized()
    }

    /// The input of a character with `modifiers`, shift added for an ASCII
    /// uppercase letter, in normal form.
    pub fn from_char_mods(ch: char, modifiers: Modifiers) -> (r: Self)
        ensures
            r == Input::from_char_mods_spec(ch, modifiers),
    {
        let mut modifiers = modifiers;
        if 'A' <= ch && ch <= 'Z' {
            modifiers.shift = true;
        }
        Self::new(Key::Char(ch), modifiers)
    }

    /// The input of a character, without modifiers but shift for an ASCII
    /// uppercase letter, in normal form.
    pub fn from_char(ch: char) -> (r: Self)
        ensures
            r == Input::from_char_spec(ch),
    {
        Self::from_char_mods(ch, Modifiers::default())
    }

    /// The character that the input types: that of its key, ASCII-uppercased
    /// with shift; `None` for other keys.
    pub fn char(&self) -> (r: Option<char>)
        ensures
            r == match self.key {
                Key::Char(ch) => Some(
                    if self.modifiers.shift {
                        to_ascii_uppercase_spec(ch)
                    } else {
                        ch
                    },
                ),
                _ => None,
            },
    {
        match self.key {
            Key::Char(ch) => if self.modifiers.shift {
                Some(to_ascii_uppercase(ch))
            } else {
                Some(ch)
            },
            _ => None,
        }
    }

    fn normalized(self) -> (r: Self)
        ensures
            r == self.normalized_spec(),
    {
        match self.key {
            Key::Char(ch) => {
                let key = Key::from_char_normalized(ch);
                let mut modifiers = self.modifiers;
                if char_is_uppercase(ch) {
                    modifiers.shift = true;
                }
                Self { key, modifiers }
            },
            Key::BackTab => {
                let mut modifiers = self.modifiers;
                modifiers.shift = false;
                Self { key: Key::BackTab, modifiers }
            },
            _ => self,
        }
    }

    /// The input that a text stands for (see `input_from_captures`), the
    /// text matched against `RE_MOD` and `RE_KEY` by the `regex` crate.
    pub fn parse(s: &str) -> (r: Result<Input, ()>)
        ensures
            r == input_from_captures(regex_captures_of(RE_MOD@, s@), regex_captures_of(RE_KEY@, s@), s@),
    {
        let mod_caps = regex_captures(RE_MOD, s);
        let key_caps = regex_captures(RE_KEY, s);
        Self::parse_captures(&mod_caps, &key_caps, s)
    }

    /// The input that a text stands for, given what matching it against
    /// `RE_MOD` and `RE_KEY` captured (see `input_from_captures`).
    pub fn parse_captures(
        mod_caps: &Result<Option<Vec<Option<String>>>, ()>,
        key_caps: &Result<Option<Vec<Option<String>>>, ()>,
        s: &str,
    ) -> (r: Result<Input, ()>)
        ensures
            r == input_from_captures(captures_view(*mod_caps), captures_view(*key_caps), s@),
    {
        match mod_caps {
            Err(()) => Err(()),
            Ok(Some(groups)) => {
                if groups.len() < 3 {
                    return Err(());
                }
                let m = match &groups[1] {
                    Some(m) => m,
                    None => return Err(()),
                };
                let k = match &groups[2] {
                    Some(k) => k,
                    None => return Err(()),
                };
                let modifiers = match modifiers_from_str(m.as_str()) {
                    Some(modifiers) => modifiers,
                    None => return Err(()),
                };
                let key = match Key::from_string(k.as_str()) {
                    Some(key) => key,
                    None => return Err(()),
                };
                Ok(Self::new(key, modifiers))
            },
            Ok(None) => match key_caps {
                Err(()) => Err(()),
                Ok(Some(groups)) => {
                    if groups.len() < 2 {
                        return Err(());
                    }
                    let k = match &groups[1] {
                        Some(k) => k,
                        None => return Err(()),
                    };
                    match Key::from_string(k.as_str()) {
                        Some(key) => Ok(Self::new(key, Modifiers::default())),
                        None => Err(()),
                    }
                },
                Ok(None) => {
                    let chars = chars_of(s);
                    if chars.len() == 1 {
                        Ok(Self::from_char(chars[0]))
                    } else {
                        Err(())
                    }
                },
            },
        }
    }

    /// Writes the input's text form (see `input_text`) into `buf`, replacing
    /// what it held.
    pub fn serialize(&self, buf: &mut String)
        ensures
            final(buf)@ == input_text(*self),
    {
        *buf = String::new();
        if self.key == Key::Char('\0') {
            return;
        }
        let any = self.modifiers.any();
        let mut body = String::new();
        if any {
            push_str(&mut body, self.modifiers.as_str());
            push_char(&mut body, '-');
        }
        let is_word = self.key.serialize(&mut body);
        if is_word || any {
            push_char(buf, '<');
            push_str(buf, body.as_str());
            push_char(buf, '>');
        } else {
            push_str(buf, body.as_str());
        }
        proof {
            let b = (if any {
                self.modifiers.text() + seq!['-']
            } else {
                Seq::<char>::empty()
            }) + key_text(self.key);
            assert(body@ =~= b);
            assert(final(buf)@ =~= input_text(*self));
        }
    }

    /// The input's text form (see `input_text`).
    pub fn to_string(&self) -> (r: String)
        ensures
            r@ == input_text(*self),
    {
        let mut buf = String::new();
        self.serialize(&mut buf);
        buf
    }
}

/// The modifiers that a text of modifier letters stands for (see
/// `modifiers_from_text`).
fn modifiers_from_str(src: &str) -> (r: Option<Modifiers>)
    ensures
        r == modifiers_from_text(src@),
{
    let chars = chars_of(src);
    let mut modifiers = Modifiers::default();
    let mut i: usize = 0;
    while i < chars.len()
        invariant
            chars@ == src@,
            i <= chars.len(),
            modifiers_from_text(src@.take(i as int)) == Some(modifiers),
        decreases chars.len() - i,
    {
        let ghost t = src@.take(i + 1);
        proof {
            assert(t.drop_last() =~= src@.take(i as int));
            assert(t.last() == chars@[i as int]);
        }
        let c = chars[i];
        if c == 'c' {
            modifiers = modifiers.with_ctrl();
        } else if c == 's' {
            modifiers = modifiers.with_shift();
        } else if c == 'a' {
            modifiers = modifiers.with_alt();
        } else {
            proof {
                assert(modifiers_from_text(t).is_none());
                lemma_modifiers_from_text_prefix(src@, i + 1);
            }
            return None;
        }
        i += 1;
    }
    proof {
        assert(src@.take(i as int) =~= src@);
    }
    Some(modifiers)
}

/// A text whose prefix holds another character than a modifier letter
/// stands for no modifiers.
proof fn lemma_modifiers_from_text_prefix(s: Seq<char>, i: int)
    requires
        0 <= i <= s.len(),
        modifiers_from_text(s.take(i)).is_none(),
    ensures
        modifiers_from_text(s).is_none(),
    decreases s.len() - i,
{
    if i < s.len() {
        let t = s.take(i + 1);
        assert(t.drop_last() =~= s.take(i));
        lemma_modifiers_from_text_prefix(s, i + 1);
    } else {
        assert(s.take(i) =~= s);
    }
}

impl PartialEq for Input {
    fn eq(&self, other: &Self) -> (r: bool) {
        let a = self.normalized();
        let b = other.normalized();
        a.key == b.key && a.modifiers == b.modifiers
    }
}

impl vstd::std_specs::cmp::PartialEqSpecImpl for Input {
    open spec fn obeys_eq_spec() -> bool {
        true
    }

    open spec fn eq_spec(&self, other: &Self) -> bool {
        self.normalized_spec() == other.normalized_spec()
    }
}

/// Reading back the text form of a key gives the key: `from_string` undoes
/// `serialize`, and the text is longer than one character exactly for the
/// keys written by name.
pub proof fn law_key_text_round_trip(key: Key)
    ensures
        key_from_text(key_text(key)) == Some(key),
        key_name(key).is_some() == (key_text(key).len() > 1),
{
    reveal_strlit("space");
    reveal_strlit("ret");
    reveal_strlit("tab");
    reveal_strlit("backtab");
    reveal_strlit("backspace");
    reveal_strlit("del");
    reveal_strlit("home");
    reveal_strlit("end");
    reveal_strlit("up");
    reveal_strlit("down");
    reveal_strlit("left");
    reveal_strlit("right");
    reveal_strlit("pageup");
    reveal_strlit("pagedown");
    reveal_strlit("esc");
    reveal_strlit("lt");
    reveal_strlit("gt");
    let t = key_text(key);
    match key {
        Key::Char(c) => {
            if key_name(key).is_none() {
                assert(t =~= seq![c]);
                assert(t.len() == 1);
            }
        },
        _ => {},
    }
    if key == Key::Char(' ') {
        assert(t == "space"@);
    }
    if key == Key::Char('\n') {
        assert(t == "ret"@);
        assert(t.len() != "space"@.len());
    }
    if key == Key::Char('\t') {
        assert(t == "tab"@);
        assert(t.len() != "space"@.len());
        assert(t[0] != "ret"@[0]);
    }
    if key == Key::BackTab {
        assert(t == "backtab"@);
        assert(t.len() != "space"@.len());
        assert(t.len() != "ret"@.len());
        assert(t.len() != "tab"@.len());
    }
    if key == Key::Backspace {
        assert(t == "backspace"@);
        assert(t.len() != "space"@.len());
        assert(t.len() != "ret"@.len());
        assert(t.len() != "tab"@.len());
        assert(t.len() != "backtab"@.len());
    }
    if key == Key::Delete {
        assert(t == "del"@);
        assert(t.len() != "space"@.len());
        assert(t[0] != "ret"@[0]);
        assert(t[0] != "tab"@[0]);
        assert(t.len() != "backtab"@.len());
        assert(t.len() != "backspace"@.len());
    }
    if key == Key::Home {
        assert(t == "home"@);
        assert(t.len() != "space"@.len());
        assert(t.len() != "ret"@.len());
        assert(t.len() != "tab"@.len());
        assert(t.len() != "backtab"@.len());
        assert(t.len() != "backspace"@.len());
        assert(t.len() != "del"@.len());
    }
    if key == Key::End {
        assert(t == "end"@);
        assert(t.len() != "space"@.len());
        assert(t[0] != "ret"@[0]);
        assert(t[0] != "tab"@[0]);
        assert(t.len() != "backtab"@.len());
        assert(t.len() != "backspace"@.len());
        assert(t[0] != "del"@[0]);
        assert(t.len() != "home"@.len());
    }
    if key == Key::Up {
        assert(t == "up"@);
        assert(t.len() != "space"@.len());
        assert(t.len() != "ret"@.len());
        assert(t.len() != "tab"@.len());
        assert(t.len() != "backtab"@.len());
        assert(t.len() != "backspace"@.len());
        assert(t.len() != "del"@.len());
        assert(t.len() != "home"@.len());
        assert(t.len() != "end"@.len());
    }
    if key == Key::Down {
        assert(t == "down"@);
        assert(t.len() != "space"@.len());
        assert(t.len() != "ret"@.len());
        assert(t.len() != "tab"@.len());
        assert(t.len() != "backtab"@.len());
        assert(t.len() != "backspace"@.len());
        assert(t.len() != "del"@.len());
        assert(t[0] != "home"@[0]);
        assert(t.len() != "end"@.len());
        assert(t.len() != "up"@.len());
    }
    if key == Key::Left {
        assert(t == "left"@);
        assert(t.len() != "space"@.len());
        assert(t.len() != "ret"@.len());
        assert(t.len() != "tab"@.len());
        assert(t.len() != "backtab"@.len());
        assert(t.len() != "backspace"@.len());
        assert(t.len() != "del"@.len());
        assert(t[0] != "home"@[0]);
        assert(t.len() != "end"@.len());
        assert(t.len() != "up"@.len());
        assert(t[0] != "down"@[0]);
    }
    if key == Key::Right {
        assert(t == "right"@);
        assert(t[0] != "space"@[0]);
        assert(t.len() != "ret"@.len());
        assert(t.len() != "tab"@.len());
        assert(t.len() != "backtab"@.len());
        assert(t.len() != "backspace"@.len());
        assert(t.len() != "del"@.len());
        assert(t.len() != "home"@.len());
        assert(t.len() != "end"@.len());
        assert(t.len() != "up"@.len());
        assert(t.len() != "down"@.len());
        assert(t.len() != "left"@.len());
    }
    if key == Key::PageUp {
        assert(t == "pageup"@);
        assert(t.len() != "space"@.len());
        assert(t.len() != "ret"@.len());
        assert(t.len() != "tab"@.len());
        assert(t.len() != "backtab"@.len());
        assert(t.len() != "backspace"@.len());
        assert(t.len() != "del"@.len());
        assert(t.len() != "home"@.len());
        assert(t.len() != "end"@.len());
        assert(t.len() != "up"@.len());
        assert(t.len() != "down"@.len());
        assert(t.len() != "left"@.len());
        assert(t.len() != "right"@.len());
    }
    if key == Key::PageDown {
        assert(t == "pagedown"@);
        assert(t.len() != "space"@.len());
        assert(t.len() != "ret"@.len());
        assert(t.len() != "tab"@.len());
        assert(t.len() != "backtab"@.len());
        assert(t.len() != "backspace"@.len());
        assert(t.len() != "del"@.len());
        assert(t.len() != "home"@.len());
        assert(t.len() != "end"@.len());
        assert(t.len() != "up"@.len());
        assert(t.len() != "down"@.len());
        assert(t.len() != "left"@.len());
        assert(t.len() != "right"@.len());
        assert(t.len() != "pageup"@.len());
    }
    if key == Key::Escape {
        assert(t == "esc"@);
        assert(t.len() != "space"@.len());
        assert(t[0] != "ret"@[0]);
        assert(t[0] != "tab"@[0]);
        assert(t.len() != "backtab"@.len());
        assert(t.len() != "backspace"@.len());
        assert(t[0] != "del"@[0]);
        assert(t.len() != "home"@.len());
        assert(t[1] != "end"@[1]);
        assert(t.len() != "up"@.len());
        assert(t.len() != "down"@.len());
        assert(t.len() != "left"@.len());
        assert(t.len() != "right"@.len());
        assert(t.len() != "pageup"@.len());
        assert(t.len() != "pagedown"@.len());
    }
    if key == Key::Char('<') {
        assert(t == "lt"@);
        assert(t.len() != "space"@.len());
        assert(t.len() != "ret"@.len());
        assert(t.len() != "tab"@.len());
        assert(t.len() != "backtab"@.len());
        assert(t.len() != "backspace"@.len());
        assert(t.len() != "del"@.len());
        assert(t.len() != "home"@.len());
        assert(t.len() != "end"@.len());
        assert(t[0] != "up"@[0]);
        assert(t.len() != "down"@.len());
        assert(t.len() != "left"@.len());
        assert(t.len() != "right"@.len());
        assert(t.len() != "pageup"@.len());
        assert(t.len() != "pagedown"@.len());
        assert(t.len() != "esc"@.len());
    }
    if key == Key::Char('>') {
        assert(t == "gt"@);
        assert(t.len() != "space"@.len());
        assert(t.len() != "ret"@.len());
        assert(t.len() != "tab"@.len());
        assert(t.len() != "backtab"@.len());
        assert(t.len() != "backspace"@.len());
        assert(t.len() != "del"@.len());
        assert(t.len() != "home"@.len());
        assert(t.len() != "end"@.len());
        assert(t[0] != "up"@[0]);
        assert(t.len() != "down"@.len());
        assert(t.len() != "left"@.len());
        assert(t.len() != "right"@.len());
        assert(t.len() != "pageup"@.len());
        assert(t.len() != "pagedown"@.len());
        assert(t.len() != "esc"@.len());
        assert(t[0] != "lt"@[0]);
    }
    if key_name(key).is_none() {
        assert(t.len() != "space"@.len());
        assert(t.len() != "ret"@.len());
        assert(t.len() != "tab"@.len());
        assert(t.len() != "backtab"@.len());
        assert(t.len() != "backspace"@.len());
        assert(t.len() != "del"@.len());
        assert(t.len() != "home"@.len());
        assert(t.len() != "end"@.len());
        assert(t.len() != "up"@.len());
        assert(t.len() != "down"@.len());
        assert(t.len() != "left"@.len());
        assert(t.len() != "right"@.len());
        assert(t.len() != "pageup"@.len());
        assert(t.len() != "pagedown"@.len());
        assert(t.len() != "esc"@.len());
        assert(t.len() != "lt"@.len());
        assert(t.len() != "gt"@.len());
    }
}


/// The text of a key never holds `>`, and a key name holds neither `-`
/// nor `<`.
proof fn lemma_key_text_plain(key: Key)
    ensures
        forall|i: int| 0 <= i < key_text(key).len() ==> #[trigger] key_text(key)[i] != '>',
        key_name(key).is_some() ==> forall|i: int|
            0 <= i < key_text(key).len() ==> #[trigger] key_text(key)[i] != '-' && key_text(key)[i] != '<',
{
    reveal_strlit("space");
    reveal_strlit("ret");
    reveal_strlit("tab");
    reveal_strlit("backtab");
    reveal_strlit("backspace");
    reveal_strlit("del");
    reveal_strlit("home");
    reveal_strlit("end");
    reveal_strlit("up");
    reveal_strlit("down");
    reveal_strlit("left");
    reveal_strlit("right");
    reveal_strlit("pageup");
    reveal_strlit("pagedown");
    reveal_strlit("esc");
    reveal_strlit("lt");
    reveal_strlit("gt");
    let t = key_text(key);
    if key_name(key).is_none() {
        if let Key::Char(c) = key {
            assert(t =~= seq![c]);
        }
    }
}

/// The modifier letters read back as the modifiers.
proof fn lemma_modifiers_text_round_trip(m: Modifiers)
    ensures
        modifiers_from_text(m.text()) == Some(m),
        forall|i: int| 0 <= i < m.text().len() ==> #[trigger] m.text()[i] != '-',
        m.any_spec() ==> m.text().len() > 0,
{
    reveal_with_fuel(modifiers_from_text, 4);
    let t = m.text();
    if m.ctrl && m.shift && m.alt {
        assert(t =~= seq!['c', 's', 'a']);
        assert(t.drop_last() =~= seq!['c', 's']);
        assert(t.drop_last().drop_last() =~= seq!['c']);
        assert(t.drop_last().drop_last().drop_last() =~= Seq::<char>::empty());
    } else if m.ctrl && m.shift {
        assert(t =~= seq!['c', 's']);
        assert(t.drop_last() =~= seq!['c']);
        assert(t.drop_last().drop_last() =~= Seq::<char>::empty());
    } else if m.ctrl && m.alt {
        assert(t =~= seq!['c', 'a']);
        assert(t.drop_last() =~= seq!['c']);
        assert(t.drop_last().drop_last() =~= Seq::<char>::empty());
    } else if m.shift && m.alt {
        assert(t =~= seq!['s', 'a']);
        assert(t.drop_last() =~= seq!['s']);
        assert(t.drop_last().drop_last() =~= Seq::<char>::empty());
    } else if m.ctrl {
        assert(t =~= seq!['c']);
        assert(t.drop_last() =~= Seq::<char>::empty());
    } else if m.shift {
        assert(t =~= seq!['s']);
        assert(t.drop_last() =~= Seq::<char>::empty());
    } else if m.alt {
        assert(t =~= seq!['a']);
        assert(t.drop_last() =~= Seq::<char>::empty());
    } else {
        assert(t =~= Seq::<char>::empty());
    }
}

/// The text form of an input reads back as that input. With modifiers it
/// is `<`, the modifier letters, `-`, the key's text and `>`, in the shape
/// that `RE_MOD` captures, and the two captured parts read back as the
/// modifiers and the key; without modifiers, a key written by name stands
/// between `<` and `>` with no `-`, in the shape that `RE_KEY` alone
/// captures, and the captured part reads back as the key; any other key is
/// its single character, which is read as that character.
pub proof fn law_input_text_reads_back(input: Input, key_caps: Result<Option<Seq<Option<Seq<char>>>>, ()>)
    requires
        input.key != Key::Char('\0'),
    ensures
        input.modifiers.any_spec() ==> exists|m: Seq<char>, k: Seq<char>|
            {
                &&& input_text(input) == seq!['<'] + m + seq!['-'] + k + seq!['>']
                &&& m.len() > 0 && k.len() > 0
                &&& forall|i: int| 0 <= i < m.len() ==> #[trigger] m[i] != '-'
                &&& forall|i: int| 0 <= i < k.len() ==> #[trigger] k[i] != '>'
                &&& modifiers_from_text(m) == Some(input.modifiers)
                &&& key_from_text(k) == Some(input.key)
                &&& input_from_captures(
                    Ok::<Option<Seq<Option<Seq<char>>>>, ()>(Some(seq![Some(input_text(input)), Some(m), Some(k)])),
                    key_caps,
                    input_text(input),
                ) == Ok::<Input, ()>(input.normalized_spec())
            },
        !input.modifiers.any_spec() && key_name(input.key).is_some() ==> exists|k: Seq<char>|
            {
                &&& input_text(input) == seq!['<'] + k + seq!['>']
                &&& k.len() > 1
                &&& forall|i: int| 0 <= i < k.len() ==> #[trigger] k[i] != '>' && k[i] != '-' && k[i] != '<'
                &&& key_from_text(k) == Some(input.key)
                &&& input_from_captures(Ok::<Option<Seq<Option<Seq<char>>>>, ()>(None), Ok::<Option<Seq<Option<Seq<char>>>>, ()>(Some(seq![Some(input_text(input)), Some(k)])), input_text(input))
                    == Ok::<Input, ()>(input.normalized_spec())
            },
        !input.modifiers.any_spec() && key_name(input.key).is_none() ==> {
            &&& input_text(input).len() == 1
            &&& input_text(input)[0] != '<'
            &&& key_from_text(input_text(input)) == Some(input.key)
            &&& input_from_captures(Ok::<Option<Seq<Option<Seq<char>>>>, ()>(None), Ok::<Option<Seq<Option<Seq<char>>>>, ()>(None), input_text(input)) == Ok::<Input, ()>(
                Input::from_char_spec(input_text(input)[0]),
            )
        },
{
    let t = input_text(input);
    let m = input.modifiers.text();
    let k = key_text(input.key);
    law_key_text_round_trip(input.key);
    lemma_key_text_plain(input.key);
    lemma_modifiers_text_round_trip(input.modifiers);
    if input.modifiers.any_spec() {
        assert(t =~= seq!['<'] + m + seq!['-'] + k + seq!['>']);
        let g = seq![Some(t), Some(m), Some(k)];
        assert(group(g, 1) == Some(m));
        assert(group(g, 2) == Some(k));
    } else if key_name(input.key).is_some() {
        assert(m =~= Seq::<char>::empty());
        assert(t =~= seq!['<'] + k + seq!['>']);
        let g = seq![Some(t), Some(k)];
        assert(group(g, 1) == Some(k));
    } else {
        if let Key::Char(c) = input.key {
            assert(k =~= seq![c]);
            assert(t =~= seq![c]);
        }
    }
}

} // verus!
