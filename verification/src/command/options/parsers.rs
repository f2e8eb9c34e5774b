//! Parsers of the parts of command options.

use vstd::prelude::*;

use crate::config_parser::token::prefix_len;
use crate::text::{chars_of, split_at_char, starts_with};
use crate::unicode::{char_is_alphabetic, is_alphabetic_of};

verus! {

pub open spec fn space_pred() -> spec_fn(char) -> bool {
    |c: char| c == ' '
}

pub open spec fn alphabetic_pred() -> spec_fn(char) -> bool {
    |c: char| is_alphabetic_of(c)
}

/// The length of the name of the flag at the start of `i` (`--` then
/// alphabetic characters), if there is one.
pub open spec fn flag_name_len(i: Seq<char>) -> Option<int> {
    if i.len() >= 2 && i[0] == '-' && i[1] == '-' && prefix_len(i.skip(2), alphabetic_pred()) > 0 {
        Some(prefix_len(i.skip(2), alphabetic_pred()))
    } else {
        None
    }
}

/// Splits `i` after its longest prefix of characters for which `pred`
/// holds: the rest, then the prefix; `None` when the prefix is empty.
pub fn take_while1<'a, P: Fn(char) -> bool>(pred: &P, i: &'a str) -> (r: Option<(&'a str, &'a str)>)
    requires
        forall|c: char| #[trigger] pred.requires((c,)),
    ensures
        r matches Some((rest, parsed)) ==> ({
            let k = parsed@.len() as int;
            &&& 0 < k <= i@.len()
            &&& parsed@ == i@.take(k)
            &&& rest@ == i@.skip(k)
            &&& forall|j: int| 0 <= j < k ==> #[trigger] pred.ensures((i@[j],), true)
            &&& k < i@.len() ==> pred.ensures((i@[k],), false)
        }),
        r.is_none() ==> i@.len() == 0 || pred.ensures((i@[0],), false),
{
    let chars = chars_of(i);
    let mut k: usize = 0;
    let mut done = false;
    while !done && k < chars.len()
        invariant
            chars@ == i@,
            k <= chars.len(),
            forall|c: char| #[trigger] pred.requires((c,)),
            forall|j: int| 0 <= j < k ==> #[trigger] pred.ensures((i@[j],), true),
            done ==> k < chars.len() && pred.ensures((i@[k as int],), false),
        decreases chars.len() - k + (if done { 0int } else { 1int }),
    {
        if pred(chars[k]) {
            k += 1;
        } else {
            done = true;
        }
    }
    if k == 0 {
        None
    } else {
        let (parsed, rest) = split_at_char(i, k);
        Some((rest, parsed))
    }
}

/// Splits off `expected` from the start of `i`: the rest, then the tag;
/// `None` when `i` does not start with it.
pub fn tag<'a>(expected: &str, i: &'a str) -> (r: Option<(&'a str, &'a str)>)
    ensures
        (expected@.len() <= i@.len() && i@.take(expected@.len() as int) == expected@) <==> r.is_some(),
        r matches Some((rest, parsed)) ==> parsed@ == expected@ && rest@ == i@.skip(expected@.len() as int),
{
    if starts_with(i, expected) {
        let n = chars_of(expected).len();
        let (parsed, rest) = split_at_char(i, n);
        Some((rest, parsed))
    } else {
        None
    }
}

/// The spaces at the start of `i`: the rest, then the spaces; `None` when
/// it does not start with a space.
pub fn space_delimiter(i: &str) -> (r: Option<(&str, &str)>)
    ensures
        r.is_some() == (prefix_len(i@, space_pred()) > 0),
        r matches Some((rest, spaces)) ==> ({
            let k = prefix_len(i@, space_pred());
            &&& spaces@ == i@.take(k)
            &&& rest@ == i@.skip(k)
        }),
{
    let space = |c: char| -> (b: bool)
        ensures
            b == (c == ' '),
        { c == ' ' };
    let r = take_while1(&space, i);
    proof {
        crate::config_parser::token::lemma_prefix_len_bounds(i@, space_pred());
        match r {
            Some((rest, parsed)) => {
                let k = parsed@.len() as int;
                assert forall|x: int| 0 <= x < k implies #[trigger] space_pred()(i@[x]) by {
                    assert(space.ensures((i@[x],), true));
                }
                if k < i@.len() {
                    assert(space.ensures((i@[k],), false));
                }
                crate::config_parser::token::lemma_prefix_len(i@, space_pred(), k);
            },
            None => {
                if i@.len() > 0 {
                    assert(space.ensures((i@[0],), false));
                    assert(!space_pred()(i@[0]));
                }
            },
        }
    }
    r
}

/// The flag at the start of `i`: `--` and an alphabetic name (see
/// `flag_name_len`); the rest, then the name.
pub fn flag(i: &str) -> (r: Option<(&str, &str)>)
    ensures
        r.is_some() == flag_name_len(i@).is_some(),
        r matches Some((rest, name)) ==> ({
            let n = flag_name_len(i@)->Some_0;
            &&& name@ == i@.subrange(2, 2 + n)
            &&& rest@ == i@.skip(2 + n)
        }),
{
    proof {
        reveal_strlit("--");
        assert("--"@ =~= seq!['-', '-']);
        if i@.len() >= 2 && i@[0] == '-' && i@[1] == '-' {
            assert(i@.take(2) =~= "--"@);
        }
    }
    let (j, _) = match tag("--", i) {
        Some(x) => x,
        None => return None,
    };
    proof {
        assert(i@.take(2)[0] == i@[0] && i@.take(2)[1] == i@[1]);
    }
    let alpha = |c: char| -> (b: bool)
        ensures
            b == is_alphabetic_of(c),
        { char_is_alphabetic(c) };
    let r = take_while1(&alpha, j);
    proof {
        let t = i@.skip(2);
        assert(j@ == t);
        match r {
            Some((rest, name)) => {
                let k = name@.len() as int;
                assert forall|x: int| 0 <= x < k implies #[trigger] alphabetic_pred()(t[x]) by {
                    assert(alpha.ensures((t[x],), true));
                }
                if k < t.len() {
                    assert(alpha.ensures((t[k],), false));
                }
                crate::config_parser::token::lemma_prefix_len(t, alphabetic_pred(), k);
                assert(name@ =~= i@.subrange(2, 2 + k));
                assert(rest@ =~= i@.skip(2 + k));
            },
            None => {
                if t.len() > 0 {
                    assert(alpha.ensures((t[0],), false));
                    assert(!alphabetic_pred()(t[0]));
                }
                assert(prefix_len(t, alphabetic_pred()) == 0);
            },
        }
    }
    r
}

} // verus!
