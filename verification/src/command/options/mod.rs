//! Options given to a command: flags such as `--force`, separated by single
//! spaces, then the rest.

pub mod parsers;

use vstd::prelude::*;

use crate::command::options::parsers::{flag, flag_name_len, space_delimiter, space_pred};
use crate::config_parser::token::{lemma_prefix_len_bounds, prefix_len};
use crate::text::{push_str, str_eq};
use crate::unicode::{trim, trimmed};

verus! {

/// The flags a command accepts.
pub struct Options {
    flags: Vec<&'static str>,
}

/// The options given to a command: which of its flags were given, and the
/// text that follows them.
pub struct ParsedOptions<'a> {
    flags: Vec<(&'a str, bool)>,
    remainder: &'a str,
}

/// The message of the error for an unknown flag.
pub open spec fn unknown_option_message(name: Seq<char>) -> Seq<char> {
    "unknown option: "@ + name
}

/// The message of the error for flags not separated by spaces.
pub open spec fn delimiter_message() -> Seq<char> {
    "options must be delimited by a single space character"@
}

/// Reads the flags at the start of `t`, each `--` and an alphabetic name
/// among `known`, separated by spaces: the names read and the offset of
/// the rest of `t`, or the message of the error met.
pub open spec fn scan_flags(t: Seq<char>, known: Set<Seq<char>>) -> Result<(Set<Seq<char>>, int), Seq<char>>
    decreases t.len(),
{
    if t.len() == 0 || flag_name_len(t).is_none() {
        Ok((Set::empty(), 0))
    } else {
        let n = flag_name_len(t)->Some_0;
        let name = t.subrange(2, 2 + n);
        if !known.contains(name) {
            Err(unknown_option_message(name))
        } else {
            let rest = t.skip(2 + n);
            if rest.len() == 0 {
                Ok((set![name], 2 + n))
            } else {
                let sp = prefix_len(rest, space_pred());
                if sp == 0 {
                    Err(delimiter_message())
                } else {
                    proof {
                        lemma_prefix_len_bounds(t.skip(2), crate::command::options::parsers::alphabetic_pred());
                        lemma_prefix_len_bounds(rest, space_pred());
                    }
                    match scan_flags(rest.skip(sp), known) {
                        Ok((s, off)) => Ok((s.insert(name), 2 + n + sp + off)),
                        Err(e) => Err(e),
                    }
                }
            }
        }
    }
}

/// The texts of a sequence of strings, as a set.
pub open spec fn views_set(s: Seq<&str>) -> Set<Seq<char>> {
    Set::new(|f: Seq<char>| exists|j: int| 0 <= j < s.len() && s[j]@ == f)
}

proof fn lemma_views_set_push(s: Seq<&str>, x: &str)
    ensures
        views_set(s.push(x)) == views_set(s).insert(x@),
{
    let t = s.push(x);
    assert forall|f: Seq<char>| views_set(t).contains(f) == views_set(s).insert(x@).contains(f) by {
        if views_set(t).contains(f) {
            let j = choose|j: int| 0 <= j < t.len() && t[j]@ == f;
            if j < s.len() {
                assert(s[j]@ == f);
            }
        }
        if views_set(s).contains(f) {
            let j = choose|j: int| 0 <= j < s.len() && s[j]@ == f;
            assert(t[j]@ == f);
        }
        if f == x@ {
            assert(t[s.len() as int]@ == f);
        }
    }
    assert(views_set(t) =~= views_set(s).insert(x@));
}

impl Options {
    /// The flags, as sequences of characters.
    pub closed spec fn known(self) -> Set<Seq<char>> {
        Set::new(|f: Seq<char>| exists|i: int| 0 <= i < self.flags@.len() && self.flags@[i]@ == f)
    }

    /// No options.
    pub fn new() -> (r: Self)
        ensures
            r.known() == Set::<Seq<char>>::empty(),
    {
        let r = Options { flags: Vec::new() };
        proof {
            assert(r.known() =~= Set::<Seq<char>>::empty());
        }
        r
    }

    /// Adds the flag `flag`.
    pub fn flag(self, flag: &'static str) -> (r: Self)
        ensures
            r.known() == self.known().insert(flag@),
    {
        let mut flags = self.flags;
        let ghost before = flags@;
        let mut i: usize = 0;
        let mut present = false;
        while i < flags.len()
            invariant
                flags@ == before,
                i <= flags.len(),
                present ==> exists|j: int| 0 <= j < flags@.len() && flags@[j]@ == flag@,
            decreases flags.len() - i,
        {
            if str_eq(flags[i], flag) {
                present = true;
            }
            i += 1;
        }
        if !present {
            flags.push(flag);
        }
        let r = Options { flags };
        proof {
            assert forall|f: Seq<char>| r.known().contains(f) == self.known().insert(flag@).contains(f) by {
                if r.known().contains(f) {
                    let j = choose|j: int| 0 <= j < r.flags@.len() && r.flags@[j]@ == f;
                    if j < before.len() {
                        assert(self.flags@[j]@ == f);
                    }
                }
                if self.known().contains(f) {
                    let j = choose|j: int| 0 <= j < self.flags@.len() && self.flags@[j]@ == f;
                    assert(r.flags@[j] == self.flags@[j]);
                }
                if f == flag@ && !present {
                    assert(r.flags@[before.len() as int] == flag);
                }
            }
            assert(r.known() =~= self.known().insert(flag@));
        }
        r
    }

    /// Reads the flags at the start of the input, once trimmed of whitespace
    /// (see `scan_flags`): which of the flags were given and the rest of the
    /// input, or the message of the error met.
    pub fn parse<'a>(self, opt_input: &'a str) -> (r: Result<ParsedOptions<'a>, String>)
        ensures
            match scan_flags(trimmed(opt_input@), self.known()) {
                Ok((given, off)) => r.is_ok() && r->Ok_0.given() == given && r->Ok_0.remainder_spec() == trimmed(
                    opt_input@,
                ).skip(off),
                Err(message) => r.is_err() && r->Err_0@ == message,
            },
    {
        let ghost known = self.known();
        let mut i = trim(opt_input);
        let ghost t = i@;
        let ghost mut consumed: int = 0;
        let mut names: Vec<&'a str> = Vec::new();
        proof {
            assert(views_set(names@) =~= Set::<Seq<char>>::empty());
            assert(t.skip(0) =~= t);
            match scan_flags(t, known) {
                Ok((s, off)) => {
                    assert(Set::<Seq<char>>::empty().union(s) =~= s);
                },
                Err(_) => {},
            }
        }
        loop
            invariant
                known == self.known(),
                i@ == t.skip(consumed),
                0 <= consumed <= t.len(),
                t == trimmed(opt_input@),
                views_set(names@).subset_of(known),
                scan_flags(t, known) == match scan_flags(i@, known) {
                    Ok((s, off)) => Ok((views_set(names@).union(s), consumed + off)),
                    Err(e) => Err(e),
                },
            ensures
                views_set(names@).subset_of(known),
                i@ == t.skip(consumed),
                0 <= consumed <= t.len(),
                scan_flags(i@, known) == Ok::<(Set<Seq<char>>, int), Seq<char>>((Set::empty(), 0)),
                scan_flags(t, known) == Ok::<(Set<Seq<char>>, int), Seq<char>>((views_set(names@), consumed)),
            decreases i@.len(),
        {
            if i.is_empty() {
                proof {
                    assert(views_set(names@).union(Set::empty()) =~= views_set(names@));
                }
                break;
            }
            let (rest, flag_name) = match flag(i) {
                Some(x) => x,
                None => {
                    proof {
                        assert(views_set(names@).union(Set::empty()) =~= views_set(names@));
                    }
                    break;
                },
            };
            proof {
                lemma_prefix_len_bounds(i@.skip(2), crate::command::options::parsers::alphabetic_pred());
                assert(flag_name@.len() == flag_name_len(i@)->Some_0);
                assert(rest@ == i@.skip(2 + flag_name@.len() as int));
            }
            let mut is_known = false;
            let mut k: usize = 0;
            while k < self.flags.len()
                invariant
                    k <= self.flags.len(),
                    is_known <==> exists|j: int| 0 <= j < k && self.flags@[j]@ == flag_name@,
                decreases self.flags.len() - k,
            {
                if str_eq(self.flags[k], flag_name) {
                    is_known = true;
                }
                k += 1;
            }
            proof {
                assert(known.contains(flag_name@) == is_known);
            }
            if !is_known {
                let mut message = String::new();
                push_str(&mut message, "unknown option: ");
                push_str(&mut message, flag_name);
                proof {
                    assert(message@ =~= unknown_option_message(flag_name@));
                }
                return Err(message);
            }
            let ghost n = flag_name@.len() as int;
            let ghost given = views_set(names@);
            let ghost i_old = i@;
            proof {
                lemma_prefix_len_bounds(i@.skip(2), crate::command::options::parsers::alphabetic_pred());
                assert(t.skip(consumed).skip(2 + n) =~= t.skip(consumed + 2 + n));
                let name = flag_name@;
                if rest@.len() == 0 {
                    assert(scan_flags(i@, known) == Ok::<(Set<Seq<char>>, int), Seq<char>>((set![name], 2 + n)));
                    assert(scan_flags(rest@, known) == Ok::<(Set<Seq<char>>, int), Seq<char>>((Set::empty(), 0)));
                    assert(given.union(set![name]) =~= given.insert(name).union(Set::empty()));
                }
            }
            let ghost old_names = names@;
            names.push(flag_name);
            proof {
                lemma_views_set_push(old_names, flag_name);
                assert(old_names.push(flag_name) =~= names@);
            }
            i = rest;
            proof {
                consumed = consumed + 2 + n;
            }
            if !i.is_empty() {
                let (after, spaces) = match space_delimiter(i) {
                    Some(x) => x,
                    None => {
                        let mut message = String::new();
                        push_str(&mut message, "options must be delimited by a single space character");
                        proof {
                            assert(message@ =~= delimiter_message());
                            assert(i_old.len() > 0);
                            assert(flag_name_len(i_old)->Some_0 == n);
                            assert(i_old.subrange(2, 2 + n) == flag_name@);
                            assert(known.contains(flag_name@));
                            assert(i_old.skip(2 + n) == i@);
                            lemma_prefix_len_bounds(i@, space_pred());
                            assert(prefix_len(i@, space_pred()) == 0);
                            assert(scan_flags(i_old, known) == Err::<(Set<Seq<char>>, int), Seq<char>>(
                                delimiter_message(),
                            ));
                        }
                        return Err(message);
                    },
                };
                proof {
                    let sp = spaces@.len() as int;
                    lemma_prefix_len_bounds(i@, space_pred());
                    assert(t.skip(consumed).skip(sp) =~= t.skip(consumed + sp));
                    let name = flag_name@;
                    assert(i_old.len() > 0);
                    assert(flag_name_len(i_old)->Some_0 == n);
                    assert(i_old.subrange(2, 2 + n) == flag_name@);
                    assert(known.contains(flag_name@));
                    assert(i@ == i_old.skip(2 + n));
                    assert(after@ == i@.skip(sp));
                    assert(scan_flags(i_old, known) == match scan_flags(after@, known) {
                        Ok((s, off)) => Ok((s.insert(name), 2 + n + sp + off)),
                        Err(e) => Err(e),
                    });
                    match scan_flags(after@, known) {
                        Ok((s, off)) => {
                            assert(given.union(s.insert(name)) =~= given.insert(name).union(s));
                        },
                        Err(_) => {},
                    }
                    consumed = consumed + sp;
                }
                i = after;
            }
            proof {
                assert(views_set(names@) == given.insert(flag_name@));
                assert(scan_flags(t, known) == match scan_flags(i@, known) {
                    Ok((s, off)) => Ok((views_set(names@).union(s), consumed + off)),
                    Err(e) => Err(e),
                });
            }
        }
        let mut flags: Vec<(&'a str, bool)> = Vec::new();
        let mut k: usize = 0;
        while k < self.flags.len()
            invariant
                k <= self.flags.len(),
                flags@.len() == k,
                forall|j: int| 0 <= j < k ==> #[trigger] flags@[j].0 == self.flags@[j],
                forall|j: int| 0 <= j < k ==> (#[trigger] flags@[j].1 <==> views_set(names@).contains(self.flags@[j]@)),
            decreases self.flags.len() - k,
        {
            let f = self.flags[k];
            let mut on = false;
            let mut m: usize = 0;
            while m < names.len()
                invariant
                    m <= names.len(),
                    on <==> exists|j: int| 0 <= j < m && names@[j]@ == f@,
                decreases names.len() - m,
            {
                if str_eq(names[m], f) {
                    on = true;
                }
                m += 1;
            }
            flags.push((f, on));
            k += 1;
        }
        let r = ParsedOptions { flags, remainder: i };
        proof {
            let given = views_set(names@);
            assert forall|f: Seq<char>| r.given().contains(f) == given.contains(f) by {
                if given.contains(f) {
                    assert(known.contains(f));
                    let j = choose|j: int| 0 <= j < self.flags@.len() && self.flags@[j]@ == f;
                    assert(r.flags@[j].1);
                }
            }
            assert(r.given() =~= given);
        }
        Ok(r)
    }
}

impl<'a> ParsedOptions<'a> {
    /// The flags that were given.
    pub closed spec fn given(self) -> Set<Seq<char>> {
        Set::new(|f: Seq<char>| exists|j: int| 0 <= j < self.flags@.len() && self.flags@[j].0@ == f && self.flags@[j].1)
    }

    pub closed spec fn remainder_spec(self) -> Seq<char> {
        self.remainder@
    }

    /// Whether the flag `option_name` was given.
    pub fn contains(&self, option_name: &str) -> (r: bool)
        ensures
            r == self.given().contains(option_name@),
    {
        let mut k: usize = 0;
        let mut found = false;
        while k < self.flags.len()
            invariant
                k <= self.flags.len(),
                found <==> exists|j: int| 0 <= j < k && self.flags@[j].0@ == option_name@ && self.flags@[j].1,
            decreases self.flags.len() - k,
        {
            if self.flags[k].1 && str_eq(self.flags[k].0, option_name) {
                found = true;
            }
            k += 1;
        }
        found
    }

    /// The text that follows the flags.
    pub fn remainder(&self) -> (r: &str)
        ensures
            r@ == self.remainder_spec(),
    {
        self.remainder
    }
}

} // verus!
