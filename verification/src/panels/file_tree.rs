//! Laying out a flat list of file paths as a tree: a section heading for
//! each directory that holds files, and the files under it, indented.

use vstd::prelude::*;

use crate::text::{char_count, chars_of, push_char, push_str, str_eq, string_from_chars, to_owned_string};

verus! {

/// Whether `a` comes before `b` in lexicographic order of their characters.
pub open spec fn name_lt(a: Seq<char>, b: Seq<char>) -> bool
    decreases a.len(),
{
    if a.len() == 0 {
        b.len() > 0
    } else if b.len() == 0 {
        false
    } else if a[0] != b[0] {
        a[0] < b[0]
    } else {
        name_lt(a.drop_first(), b.drop_first())
    }
}

proof fn lemma_name_lt_irreflexive(a: Seq<char>)
    ensures
        !name_lt(a, a),
    decreases a.len(),
{
    if a.len() > 0 {
        lemma_name_lt_irreflexive(a.drop_first());
    }
}

proof fn lemma_name_lt_transitive(a: Seq<char>, b: Seq<char>, c: Seq<char>)
    requires
        name_lt(a, b),
        name_lt(b, c),
    ensures
        name_lt(a, c),
    decreases a.len(),
{
    if a.len() > 0 && b.len() > 0 && c.len() > 0 && a[0] == b[0] && b[0] == c[0] {
        lemma_name_lt_transitive(a.drop_first(), b.drop_first(), c.drop_first());
    }
}

proof fn lemma_name_lt_total(a: Seq<char>, b: Seq<char>)
    requires
        a != b,
    ensures
        name_lt(a, b) || name_lt(b, a),
    decreases a.len(),
{
    if a.len() > 0 && b.len() > 0 && a[0] == b[0] {
        if a.drop_first() == b.drop_first() {
            assert(a =~= seq![a[0]] + a.drop_first());
            assert(b =~= seq![b[0]] + b.drop_first());
        }
        lemma_name_lt_total(a.drop_first(), b.drop_first());
    } else if a.len() == 0 && b.len() == 0 {
        assert(a =~= b);
    } else if a.len() > 0 && b.len() > 0 {
        assert(a[0] < b[0] || b[0] < a[0]);
    }
}

proof fn lemma_name_lt_asymmetric(a: Seq<char>, b: Seq<char>)
    requires
        name_lt(a, b),
    ensures
        !name_lt(b, a),
{
    if name_lt(b, a) {
        lemma_name_lt_transitive(a, b, a);
        lemma_name_lt_irreflexive(a);
    }
}

/// Whether `s` is in increasing order, with no name twice.
pub open spec fn strictly_sorted(s: Seq<Seq<char>>) -> bool {
    forall|i: int, j: int| 0 <= i < j < s.len() ==> name_lt(#[trigger] s[i], #[trigger] s[j])
}

/// Whether `s` lists the names of `names` in increasing order.
pub open spec fn lists_sorted(s: Seq<Seq<char>>, names: Set<Seq<char>>) -> bool {
    &&& strictly_sorted(s)
    &&& forall|x: Seq<char>| #[trigger] names.contains(x) <==> s.contains(x)
}

/// The names of `names`, in increasing order.
pub open spec fn sorted_names(names: Set<Seq<char>>) -> Seq<Seq<char>> {
    choose|s: Seq<Seq<char>>| lists_sorted(s, names)
}

/// Only one sequence lists a set of names in increasing order.
proof fn lemma_lists_sorted_unique(a: Seq<Seq<char>>, b: Seq<Seq<char>>, names: Set<Seq<char>>)
    requires
        lists_sorted(a, names),
        lists_sorted(b, names),
    ensures
        a == b,
    decreases a.len(),
{
    if a.len() == 0 {
        if b.len() > 0 {
            assert(b.contains(b[0]));
            assert(names.contains(b[0]));
            assert(a.contains(b[0]));
        }
        assert(a =~= b);
    } else {
        assert(a.contains(a[0]));
        assert(b.len() > 0) by {
            assert(names.contains(a[0]));
        }
        assert(b.contains(b[0]));
        assert(names.contains(a[0]) && names.contains(b[0]));
        assert(b.contains(a[0]) && a.contains(b[0]));
        assert(a[0] == b[0]) by {
            let i = choose|i: int| 0 <= i < b.len() && b[i] == a[0];
            let j = choose|j: int| 0 <= j < a.len() && a[j] == b[0];
            if a[0] != b[0] {
                assert(i > 0 && j > 0);
                assert(name_lt(b[0], b[i]));
                assert(name_lt(a[0], a[j]));
                lemma_name_lt_asymmetric(a[0], b[0]);
            }
        }
        let rest = names.remove(a[0]);
        assert forall|x: Seq<char>| #[trigger] rest.contains(x) <==> a.drop_first().contains(x) by {
            if a.drop_first().contains(x) {
                let k = choose|k: int| 0 <= k < a.drop_first().len() && a.drop_first()[k] == x;
                assert(a[k + 1] == x);
                assert(name_lt(a[0], a[k + 1]));
                lemma_name_lt_irreflexive(x);
            }
            if rest.contains(x) {
                assert(a.contains(x));
                let k = choose|k: int| 0 <= k < a.len() && a[k] == x;
                assert(k != 0);
                assert(a.drop_first()[k - 1] == x);
            }
        }
        assert forall|x: Seq<char>| #[trigger] rest.contains(x) <==> b.drop_first().contains(x) by {
            if b.drop_first().contains(x) {
                let k = choose|k: int| 0 <= k < b.drop_first().len() && b.drop_first()[k] == x;
                assert(b[k + 1] == x);
                assert(name_lt(b[0], b[k + 1]));
                lemma_name_lt_irreflexive(x);
            }
            if rest.contains(x) {
                assert(b.contains(x));
                let k = choose|k: int| 0 <= k < b.len() && b[k] == x;
                assert(k != 0);
                assert(b.drop_first()[k - 1] == x);
            }
        }
        assert(strictly_sorted(a.drop_first())) by {
            assert forall|i: int, j: int| 0 <= i < j < a.drop_first().len() implies name_lt(
                #[trigger] a.drop_first()[i],
                #[trigger] a.drop_first()[j],
            ) by {
                assert(a.drop_first()[i] == a[i + 1]);
                assert(a.drop_first()[j] == a[j + 1]);
            }
        }
        assert(strictly_sorted(b.drop_first())) by {
            assert forall|i: int, j: int| 0 <= i < j < b.drop_first().len() implies name_lt(
                #[trigger] b.drop_first()[i],
                #[trigger] b.drop_first()[j],
            ) by {
                assert(b.drop_first()[i] == b[i + 1]);
                assert(b.drop_first()[j] == b[j + 1]);
            }
        }
        lemma_lists_sorted_unique(a.drop_first(), b.drop_first(), rest);
        assert(a =~= seq![a[0]] + a.drop_first());
        assert(b =~= seq![b[0]] + b.drop_first());
    }
}

/// A sequence that lists `names` in increasing order is `sorted_names(names)`.
proof fn lemma_sorted_names_is(s: Seq<Seq<char>>, names: Set<Seq<char>>)
    requires
        lists_sorted(s, names),
    ensures
        sorted_names(names) == s,
{
    let t = sorted_names(names);
    assert(lists_sorted(t, names));
    lemma_lists_sorted_unique(s, t, names);
}

proof fn lemma_name_lt_skip(a: Seq<char>, b: Seq<char>, i: int)
    requires
        0 <= i <= a.len(),
        i <= b.len(),
        a.take(i) == b.take(i),
    ensures
        name_lt(a, b) == name_lt(a.skip(i), b.skip(i)),
    decreases i,
{
    if i > 0 {
        assert(a[0] == a.take(i)[0]);
        assert(b[0] == b.take(i)[0]);
        assert(a.drop_first().take(i - 1) =~= a.take(i).drop_first());
        assert(b.drop_first().take(i - 1) =~= b.take(i).drop_first());
        lemma_name_lt_skip(a.drop_first(), b.drop_first(), i - 1);
        assert(a.drop_first().skip(i - 1) =~= a.skip(i));
        assert(b.drop_first().skip(i - 1) =~= b.skip(i));
    } else {
        assert(a.skip(0) =~= a);
        assert(b.skip(0) =~= b);
    }
}

/// Whether `a` comes before `b` (see `name_lt`).
fn name_less(a: &str, b: &str) -> (r: bool)
    ensures
        r == name_lt(a@, b@),
{
    let ca = chars_of(a);
    let cb = chars_of(b);
    let mut i: usize = 0;
    while i < ca.len() && i < cb.len() && ca[i] == cb[i]
        invariant
            ca@ == a@,
            cb@ == b@,
            i <= ca@.len(),
            i <= cb@.len(),
            ca@.take(i as int) == cb@.take(i as int),
        decreases ca@.len() - i,
    {
        proof {
            assert(ca@.take(i as int + 1) =~= ca@.take(i as int).push(ca@[i as int]));
            assert(cb@.take(i as int + 1) =~= cb@.take(i as int).push(cb@[i as int]));
        }
        i += 1;
    }
    proof {
        lemma_name_lt_skip(a@, b@, i as int);
        let x = a@.skip(i as int);
        let y = b@.skip(i as int);
        if i < ca@.len() && i < cb@.len() {
            assert(x[0] == ca@[i as int]);
            assert(y[0] == cb@[i as int]);
        }
    }
    if i == ca.len() {
        i < cb.len()
    } else if i == cb.len() {
        false
    } else {
        ca[i] < cb[i]
    }
}

/// The characters of each string.
pub open spec fn names_view(v: Seq<String>) -> Seq<Seq<char>> {
    v.map_values(|s: String| s@)
}

/// Adds `x` to the increasing names `names` unless it is there already.
fn insert_name(names: &mut Vec<String>, x: &str)
    requires
        strictly_sorted(names_view(old(names)@)),
    ensures
        strictly_sorted(names_view(final(names)@)),
        forall|y: Seq<char>| #[trigger]
            names_view(final(names)@).contains(y) <==> (names_view(old(names)@).contains(y) || y == x@),
{
    let ghost v = names_view(names@);
    let mut p: usize = 0;
    while p < names.len() && name_less(names[p].as_str(), x)
        invariant
            v == names_view(names@),
            p <= names@.len(),
            forall|q: int| 0 <= q < p ==> name_lt(#[trigger] v[q], x@),
        decreases names@.len() - p,
    {
        p += 1;
    }
    if p < names.len() && str_eq(names[p].as_str(), x) {
        proof {
            assert(v[p as int] == x@);
            assert(v.contains(x@));
        }
        return;
    }
    let ghost old_v = v;
    let xs = chars_of(x);
    let xs2 = string_from_chars(xs.as_slice());
    names.insert(p, xs2);
    proof {
        let nv = names_view(names@);
        assert(nv =~= old_v.insert(p as int, x@));
        if p < old_v.len() {
            lemma_name_lt_total(old_v[p as int], x@);
            assert(name_lt(x@, old_v[p as int]));
        }
        assert forall|i: int, j: int| 0 <= i < j < nv.len() implies name_lt(#[trigger] nv[i], #[trigger] nv[j]) by {
            if j < p {
                assert(nv[i] == old_v[i] && nv[j] == old_v[j]);
            } else if j == p {
                assert(nv[i] == old_v[i]);
            } else if i == p {
                assert(nv[j] == old_v[j - 1]);
                if j - 1 > p {
                    assert(name_lt(old_v[p as int], old_v[j - 1]));
                    lemma_name_lt_transitive(x@, old_v[p as int], old_v[j - 1]);
                }
            } else if i < p {
                assert(nv[i] == old_v[i] && nv[j] == old_v[j - 1]);
                if j - 1 > p {
                    assert(name_lt(old_v[p as int], old_v[j - 1]));
                    lemma_name_lt_transitive(x@, old_v[p as int], old_v[j - 1]);
                }
                lemma_name_lt_transitive(old_v[i], x@, old_v[j - 1]);
            } else {
                assert(nv[i] == old_v[i - 1] && nv[j] == old_v[j - 1]);
            }
        }
        assert forall|y: Seq<char>| #[trigger] nv.contains(y) <==> (old_v.contains(y) || y == x@) by {
            if nv.contains(y) {
                let k = choose|k: int| 0 <= k < nv.len() && nv[k] == y;
                if k < p {
                    assert(old_v[k] == y);
                } else if k > p {
                    assert(old_v[k - 1] == y);
                }
            }
            if old_v.contains(y) {
                let k = choose|k: int| 0 <= k < old_v.len() && old_v[k] == y;
                if k < p {
                    assert(nv[k] == y);
                } else {
                    assert(nv[k + 1] == y);
                }
            }
            if y == x@ {
                assert(nv[p as int] == y);
            }
        }
    }
}

/// The components of `cur` followed by `rest`, split at each `/`.
pub open spec fn components_from(cur: Seq<char>, rest: Seq<char>) -> Seq<Seq<char>>
    decreases rest.len(),
{
    if rest.len() == 0 {
        seq![cur]
    } else if rest[0] == '/' {
        seq![cur] + components_from(Seq::empty(), rest.drop_first())
    } else {
        components_from(cur.push(rest[0]), rest.drop_first())
    }
}

/// The components of a path: its parts between slashes, empty ones
/// included (`str::split('/')`).
pub open spec fn components(path: Seq<char>) -> Seq<Seq<char>> {
    components_from(Seq::empty(), path)
}

proof fn lemma_components_from_len(cur: Seq<char>, rest: Seq<char>)
    ensures
        1 <= components_from(cur, rest).len() <= rest.len() + 1,
    decreases rest.len(),
{
    if rest.len() > 0 {
        if rest[0] == '/' {
            lemma_components_from_len(Seq::empty(), rest.drop_first());
        } else {
            lemma_components_from_len(cur.push(rest[0]), rest.drop_first());
        }
    }
}

/// The parts joined with `/` between them.
pub open spec fn unsplit(parts: Seq<Seq<char>>) -> Seq<char>
    decreases parts.len(),
{
    if parts.len() <= 1 {
        if parts.len() == 0 {
            Seq::empty()
        } else {
            parts[0]
        }
    } else {
        parts[0] + seq!['/'] + unsplit(parts.drop_first())
    }
}

proof fn lemma_unsplit_components_from(cur: Seq<char>, rest: Seq<char>)
    ensures
        unsplit(components_from(cur, rest)) == cur + rest,
    decreases rest.len(),
{
    if rest.len() == 0 {
        assert(cur + rest =~= cur);
    } else if rest[0] == '/' {
        lemma_unsplit_components_from(Seq::empty(), rest.drop_first());
        lemma_components_from_len(Seq::empty(), rest.drop_first());
        let tail = components_from(Seq::empty(), rest.drop_first());
        let all = seq![cur] + tail;
        assert(all.drop_first() =~= tail);
        assert(all[0] == cur);
        assert(Seq::<char>::empty() + rest.drop_first() =~= rest.drop_first());
        assert(cur + seq!['/'] + rest.drop_first() =~= cur + rest);
    } else {
        lemma_unsplit_components_from(cur.push(rest[0]), rest.drop_first());
        assert(cur.push(rest[0]) + rest.drop_first() =~= cur + rest);
    }
}

/// A path is its components joined with `/`, so different paths have
/// different components.
pub proof fn lemma_components_injective(p: Seq<char>, q: Seq<char>)
    requires
        components(p) == components(q),
    ensures
        p == q,
{
    lemma_unsplit_components_from(Seq::empty(), p);
    lemma_unsplit_components_from(Seq::empty(), q);
    assert(Seq::<char>::empty() + p =~= p);
    assert(Seq::<char>::empty() + q =~= q);
}

/// The index of the last of `cs` equal to `cs[i]` is `i` when no other is.
proof fn lemma_last_index_unique(cs: Seq<Seq<Seq<char>>>, i: int)
    requires
        0 <= i < cs.len(),
        forall|j: int| 0 <= j < cs.len() && j != i ==> cs[j] != cs[i],
    ensures
        last_index(cs, cs[i]) == i,
    decreases cs.len(),
{
    if i < cs.len() - 1 {
        assert(cs.last() != cs[i]);
        assert forall|j: int| 0 <= j < cs.drop_last().len() && j != i implies cs.drop_last()[j] != cs.drop_last()[i] by {
            assert(cs.drop_last()[j] == cs[j]);
        }
        lemma_last_index_unique(cs.drop_last(), i);
        assert(cs.drop_last()[i] == cs[i]);
    }
}

/// The components of `path` (see `components`).
fn split_path(path: &str) -> (r: Vec<String>)
    ensures
        names_view(r@) == components(path@),
{
    let chars = chars_of(path);
    let mut out: Vec<String> = Vec::new();
    let mut cur: Vec<char> = Vec::new();
    let mut i: usize = 0;
    proof {
        assert(chars@.skip(0) =~= chars@);
        assert(names_view(out@) + components_from(cur@, chars@.skip(0)) =~= components(path@));
    }
    while i < chars.len()
        invariant
            chars@ == path@,
            i <= chars@.len(),
            names_view(out@) + components_from(cur@, chars@.skip(i as int)) == components(path@),
        decreases chars@.len() - i,
    {
        let ghost rest = chars@.skip(i as int);
        proof {
            assert(rest[0] == chars@[i as int]);
            assert(rest.drop_first() =~= chars@.skip(i as int + 1));
        }
        if chars[i] == '/' {
            let part = string_from_chars(cur.as_slice());
            let ghost before = out@;
            out.push(part);
            proof {
                assert(names_view(out@) =~= names_view(before).push(cur@));
                assert(names_view(out@) + components_from(Seq::empty(), chars@.skip(i as int + 1)) =~= names_view(
                    before,
                ) + (seq![cur@] + components_from(Seq::empty(), rest.drop_first())));
            }
            cur = Vec::new();
            proof {
                assert(cur@ =~= Seq::<char>::empty());
            }
        } else {
            cur.push(chars[i]);
        }
        i += 1;
    }
    let part = string_from_chars(cur.as_slice());
    let ghost before = out@;
    out.push(part);
    proof {
        assert(chars@.skip(i as int).len() == 0);
        assert(names_view(out@) =~= names_view(before) + seq![cur@]);
    }
    out
}

/// The names of the files directly in the directory `d`, given the
/// components `cs` of each path.
pub open spec fn files_in(cs: Seq<Seq<Seq<char>>>, d: Seq<Seq<char>>) -> Set<Seq<char>> {
    Set::new(|f: Seq<char>| exists|i: int| 0 <= i < cs.len() && cs[i] == d.push(f))
}

/// The names of the directories directly in the directory `d`.
pub open spec fn dirs_in(cs: Seq<Seq<Seq<char>>>, d: Seq<Seq<char>>) -> Set<Seq<char>> {
    Set::new(
        |x: Seq<char>|
            exists|i: int|
                0 <= i < cs.len() && cs[i].len() > d.len() + 1 && cs[i].take(d.len() + 1int) == d.push(x),
    )
}

/// The index of the last path whose components are `c` (-1 for none).
pub open spec fn last_index(cs: Seq<Seq<Seq<char>>>, c: Seq<Seq<char>>) -> int
    decreases cs.len(),
{
    if cs.len() == 0 {
        -1
    } else if cs.last() == c {
        cs.len() - 1
    } else {
        last_index(cs.drop_last(), c)
    }
}

/// The greatest number of components of a path.
pub open spec fn max_depth(cs: Seq<Seq<Seq<char>>>) -> int
    decreases cs.len(),
{
    if cs.len() == 0 {
        0
    } else if cs.last().len() > max_depth(cs.drop_last()) {
        cs.last().len() as int
    } else {
        max_depth(cs.drop_last())
    }
}

/// A row of the tree: the heading of a directory, with the directories
/// above it that it stands for, or a file, with the index of its path.
pub enum TreeRowView {
    Section { label: Seq<char>, dir: Seq<char> },
    Item { label: Seq<char>, source: int },
}

/// Two spaces per level.
pub open spec fn indent(level: int) -> Seq<char> {
    Seq::new((2 * level) as nat, |_i: int| ' ')
}

/// The rows of directory `d`: when it has a name, a heading if it holds
/// files, which then start a new level, else its name joins the `parts`
/// that the headings below it show; its files, in order, one level deeper
/// than the heading; then the rows of its directories, in order.
pub open spec fn tree_rows(cs: Seq<Seq<Seq<char>>>, d: Seq<Seq<char>>, parts: Seq<char>, level: int) -> Seq<
    TreeRowView,
>
    decreases max_depth(cs) - d.len(), sorted_names(dirs_in(cs, d)).len() + 1,
{
    let part = if d.len() == 0 {
        Seq::<char>::empty()
    } else {
        d.last()
    };
    let files = sorted_names(files_in(cs, d));
    let dirs = sorted_names(dirs_in(cs, d));
    let section = part.len() > 0 && files.len() > 0;
    let next_parts = if part.len() == 0 {
        parts
    } else if files.len() == 0 {
        parts + part + seq!['/']
    } else {
        Seq::empty()
    };
    let next_level = if section {
        level + 1
    } else {
        level
    };
    let head = if section {
        seq![TreeRowView::Section { label: indent(level) + parts + part + seq!['/'], dir: parts }]
    } else {
        Seq::empty()
    };
    let items = Seq::new(
        files.len(),
        |j: int|
            TreeRowView::Item {
                label: indent(next_level) + files[j],
                source: last_index(cs, d.push(files[j])),
            },
    );
    head + items + child_rows(cs, d, dirs, dirs.len() as int, next_parts, next_level)
}

/// The rows of the first `n` directories of `dirs`, directly in `d`.
pub open spec fn child_rows(
    cs: Seq<Seq<Seq<char>>>,
    d: Seq<Seq<char>>,
    dirs: Seq<Seq<char>>,
    n: int,
    parts: Seq<char>,
    level: int,
) -> Seq<TreeRowView>
    decreases max_depth(cs) - d.len(), n,
{
    if n <= 0 || d.len() >= max_depth(cs) {
        Seq::empty()
    } else {
        child_rows(cs, d, dirs, n - 1, parts, level) + tree_rows(cs, d.push(dirs[n - 1]), parts, level)
    }
}

/// The rows of the tree of the paths whose components are `cs`.
pub open spec fn file_tree_spec(cs: Seq<Seq<Seq<char>>>) -> Seq<TreeRowView> {
    tree_rows(cs, Seq::empty(), Seq::empty(), 0)
}

/// The components of each path.
pub open spec fn comps_view(v: Seq<Vec<String>>) -> Seq<Seq<Seq<char>>> {
    v.map_values(|c: Vec<String>| names_view(c@))
}

proof fn lemma_max_depth_ge(cs: Seq<Seq<Seq<char>>>, i: int)
    requires
        0 <= i < cs.len(),
    ensures
        cs[i].len() <= max_depth(cs),
    decreases cs.len(),
{
    if i < cs.len() - 1 {
        lemma_max_depth_ge(cs.drop_last(), i);
        assert(cs.drop_last()[i] == cs[i]);
    }
}

/// Whether the components `c` start with those of `d`.
fn dir_prefix(c: &Vec<String>, d: &Vec<String>) -> (r: bool)
    ensures
        r == (d@.len() <= c@.len() && names_view(c@).take(d@.len() as int) == names_view(d@)),
{
    if d.len() > c.len() {
        return false;
    }
    let mut i: usize = 0;
    while i < d.len()
        invariant
            d@.len() <= c@.len(),
            i <= d@.len(),
            names_view(c@).take(i as int) == names_view(d@).take(i as int),
        decreases d@.len() - i,
    {
        if !str_eq(c[i].as_str(), d[i].as_str()) {
            proof {
                assert(names_view(c@).take(d@.len() as int)[i as int] == c@[i as int]@);
                assert(names_view(d@)[i as int] == d@[i as int]@);
            }
            return false;
        }
        proof {
            assert(names_view(c@).take(i as int + 1) =~= names_view(c@).take(i as int).push(c@[i as int]@));
            assert(names_view(d@).take(i as int + 1) =~= names_view(d@).take(i as int).push(d@[i as int]@));
        }
        i += 1;
    }
    proof {
        assert(names_view(d@).take(d@.len() as int) =~= names_view(d@));
    }
    true
}

/// Whether the components `c` are those of `d` and then `f`.
fn is_file_of(c: &Vec<String>, d: &Vec<String>, f: &str) -> (r: bool)
    ensures
        r == (names_view(c@) == names_view(d@).push(f@)),
{
    if !(c.len() > d.len() && c.len() - d.len() == 1) {
        proof {
            if names_view(c@) == names_view(d@).push(f@) {
                assert(names_view(c@).len() == c@.len());
            }
        }
        return false;
    }
    let p = dir_prefix(c, d);
    let e = str_eq(c[d.len()].as_str(), f);
    proof {
        if p && e {
            assert(names_view(c@) =~= names_view(c@).take(d@.len() as int).push(c@[d@.len() as int]@));
        }
        if names_view(c@) == names_view(d@).push(f@) {
            assert(names_view(c@).take(d@.len() as int) =~= names_view(d@));
            assert(names_view(c@)[d@.len() as int] == f@);
        }
    }
    p && e
}

/// The files directly in the directory `d`, in increasing order.
fn collect_files(cs: &Vec<Vec<String>>, d: &Vec<String>) -> (r: Vec<String>)
    ensures
        lists_sorted(names_view(r@), files_in(comps_view(cs@), names_view(d@))),
{
    let ghost cv = comps_view(cs@);
    let ghost dv = names_view(d@);
    let mut r: Vec<String> = Vec::new();
    let mut k: usize = 0;
    while k < cs.len()
        invariant
            cv == comps_view(cs@),
            dv == names_view(d@),
            k <= cs@.len(),
            strictly_sorted(names_view(r@)),
            forall|y: Seq<char>| #[trigger]
                names_view(r@).contains(y) <==> (exists|i: int| 0 <= i < k && cv[i] == dv.push(y)),
        decreases cs@.len() - k,
    {
        let c = &cs[k];
        proof {
            assert(cv[k as int] == names_view(c@));
        }
        let ghost before = names_view(r@);
        if c.len() > d.len() && c.len() - d.len() == 1 && dir_prefix(c, d) {
            let f = c[d.len()].as_str();
            insert_name(&mut r, f);
            proof {
                assert(names_view(c@) =~= dv.push(f@));
                assert forall|y: Seq<char>| #[trigger] names_view(r@).contains(y) <==> (exists|i: int|
                    0 <= i < k + 1 && cv[i] == dv.push(y)) by {
                    if y == f@ {
                        assert(cv[k as int] == dv.push(y));
                    }
                    if exists|i: int| 0 <= i < k + 1 && cv[i] == dv.push(y) {
                        let i = choose|i: int| 0 <= i < k + 1 && cv[i] == dv.push(y);
                        if i == k {
                            assert(dv.push(y).last() == y);
                            assert(dv.push(f@).last() == f@);
                        } else {
                            assert(before.contains(y));
                        }
                    }
                }
            }
        } else {
            proof {
                assert forall|y: Seq<char>| #[trigger] names_view(r@).contains(y) <==> (exists|i: int|
                    0 <= i < k + 1 && cv[i] == dv.push(y)) by {
                    if exists|i: int| 0 <= i < k + 1 && cv[i] == dv.push(y) {
                        let i = choose|i: int| 0 <= i < k + 1 && cv[i] == dv.push(y);
                        if i == k {
                            assert(names_view(c@).len() == c@.len());
                            assert(names_view(c@).take(d@.len() as int) =~= dv);
                        }
                    }
                }
            }
        }
        k += 1;
    }
    proof {
        assert forall|y: Seq<char>| #[trigger] files_in(cv, dv).contains(y) <==> names_view(r@).contains(y) by {
        }
    }
    r
}

/// The directories directly in the directory `d`, in increasing order.
fn collect_dirs(cs: &Vec<Vec<String>>, d: &Vec<String>) -> (r: Vec<String>)
    ensures
        lists_sorted(names_view(r@), dirs_in(comps_view(cs@), names_view(d@))),
{
    let ghost cv = comps_view(cs@);
    let ghost dv = names_view(d@);
    let mut r: Vec<String> = Vec::new();
    let mut k: usize = 0;
    while k < cs.len()
        invariant
            cv == comps_view(cs@),
            dv == names_view(d@),
            k <= cs@.len(),
            strictly_sorted(names_view(r@)),
            forall|y: Seq<char>| #[trigger]
                names_view(r@).contains(y) <==> (exists|i: int|
                    0 <= i < k && cv[i].len() > dv.len() + 1 && cv[i].take(dv.len() + 1int) == dv.push(y)),
        decreases cs@.len() - k,
    {
        let c = &cs[k];
        proof {
            assert(cv[k as int] == names_view(c@));
        }
        let ghost before = names_view(r@);
        if c.len() > d.len() && c.len() - d.len() > 1 && dir_prefix(c, d) {
            let x = c[d.len()].as_str();
            insert_name(&mut r, x);
            proof {
                assert(names_view(c@).take(dv.len() + 1int) =~= dv.push(x@));
                assert forall|y: Seq<char>| #[trigger] names_view(r@).contains(y) <==> (exists|i: int|
                    0 <= i < k + 1 && cv[i].len() > dv.len() + 1 && cv[i].take(dv.len() + 1int) == dv.push(y)) by {
                    if y == x@ {
                        assert(cv[k as int].take(dv.len() + 1int) == dv.push(y));
                    }
                    if exists|i: int| 0 <= i < k + 1 && cv[i].len() > dv.len() + 1 && cv[i].take(dv.len() + 1int)
                        == dv.push(y) {
                        let i = choose|i: int|
                            0 <= i < k + 1 && cv[i].len() > dv.len() + 1 && cv[i].take(dv.len() + 1int) == dv.push(y);
                        if i == k {
                            assert(dv.push(y).last() == y);
                            assert(dv.push(x@).last() == x@);
                        } else {
                            assert(before.contains(y));
                        }
                    }
                }
            }
        } else {
            proof {
                assert forall|y: Seq<char>| #[trigger] names_view(r@).contains(y) <==> (exists|i: int|
                    0 <= i < k + 1 && cv[i].len() > dv.len() + 1 && cv[i].take(dv.len() + 1int) == dv.push(y)) by {
                    if exists|i: int| 0 <= i < k + 1 && cv[i].len() > dv.len() + 1 && cv[i].take(dv.len() + 1int)
                        == dv.push(y) {
                        let i = choose|i: int|
                            0 <= i < k + 1 && cv[i].len() > dv.len() + 1 && cv[i].take(dv.len() + 1int) == dv.push(y);
                        if i == k {
                            assert(names_view(c@).len() == c@.len());
                            assert(names_view(c@).take(d@.len() as int) =~= cv[i].take(dv.len() + 1int).take(dv.len() as int));
                            assert(dv.push(y).take(dv.len() as int) =~= dv);
                        }
                    }
                }
            }
        }
        k += 1;
    }
    proof {
        assert forall|y: Seq<char>| #[trigger] dirs_in(cv, dv).contains(y) <==> names_view(r@).contains(y) by {
        }
    }
    r
}

/// The index of the last path whose components are those of `d` and then `f`.
fn find_last(cs: &Vec<Vec<String>>, d: &Vec<String>, f: &str) -> (r: usize)
    requires
        files_in(comps_view(cs@), names_view(d@)).contains(f@),
    ensures
        r as int == last_index(comps_view(cs@), names_view(d@).push(f@)),
        r < cs@.len(),
{
    let ghost cv = comps_view(cs@);
    let ghost target = names_view(d@).push(f@);
    let mut last: Option<usize> = None;
    let mut k: usize = 0;
    proof {
        assert(cv.take(0).len() == 0);
    }
    while k < cs.len()
        invariant
            cv == comps_view(cs@),
            target == names_view(d@).push(f@),
            k <= cs@.len(),
            match last {
                Some(l) => l as int == last_index(cv.take(k as int), target) && l < k,
                None => last_index(cv.take(k as int), target) == -1,
            },
        decreases cs@.len() - k,
    {
        proof {
            assert(cv.take(k as int + 1).drop_last() =~= cv.take(k as int));
            assert(cv[k as int] == names_view(cs@[k as int]@));
        }
        if is_file_of(&cs[k], d, f) {
            last = Some(k);
        }
        k += 1;
    }
    proof {
        assert(cv.take(cs@.len() as int) =~= cv);
        let i = choose|i: int| 0 <= i < cv.len() && cv[i] == target;
        lemma_last_index_found(cv, target, i);
    }
    match last {
        Some(l) => l,
        None => 0,
    }
}

proof fn lemma_last_index_found(cs: Seq<Seq<Seq<char>>>, c: Seq<Seq<char>>, i: int)
    requires
        0 <= i < cs.len(),
        cs[i] == c,
    ensures
        i <= last_index(cs, c) < cs.len(),
        cs[last_index(cs, c)] == c,
    decreases cs.len(),
{
    if cs.last() != c {
        assert(i < cs.len() - 1);
        assert(cs.drop_last()[i] == c);
        lemma_last_index_found(cs.drop_last(), c, i);
    }
}

/// Two spaces per level.
fn indent_str(level: i32) -> (r: String)
    requires
        0 <= level <= 0x3fff_ffff,
    ensures
        r@ == indent(level as int),
{
    let mut r = String::new();
    let n: i32 = 2 * level;
    let mut i: i32 = 0;
    while i < n
        invariant
            0 <= i <= n,
            n == 2 * level,
            r@ == Seq::new(i as nat, |_j: int| ' '),
        decreases n - i,
    {
        push_char(&mut r, ' ');
        proof {
            assert(r@ =~= Seq::new((i + 1) as nat, |_j: int| ' '));
        }
        i += 1;
    }
    proof {
        assert(r@ =~= indent(level as int));
    }
    r
}

/// A row of the tree (see `TreeRowView`).
#[derive(Debug)]
pub enum TreeRow {
    Section { label: String, dir: String },
    Item { label: String, source: usize },
}

/// The row as sequences of characters.
pub open spec fn row_view(r: TreeRow) -> TreeRowView {
    match r {
        TreeRow::Section { label, dir } => TreeRowView::Section { label: label@, dir: dir@ },
        TreeRow::Item { label, source } => TreeRowView::Item { label: label@, source: source as int },
    }
}

/// The rows as sequences of characters.
pub open spec fn rows_view(v: Seq<TreeRow>) -> Seq<TreeRowView> {
    v.map_values(|r: TreeRow| row_view(r))
}

/// A directory in `d` lies above some path deeper than `d`'s files.
proof fn lemma_dir_depth(cs: Seq<Seq<Seq<char>>>, d: Seq<Seq<char>>, x: Seq<char>)
    requires
        dirs_in(cs, d).contains(x),
    ensures
        d.len() + 1 < max_depth(cs),
{
    let i = choose|i: int|
        0 <= i < cs.len() && cs[i].len() > d.len() + 1 && cs[i].take(d.len() + 1int) == d.push(x);
    lemma_max_depth_ge(cs, i);
}

/// Appends the rows of directory `d` (see `tree_rows`).
fn emit_tree_rows(cs: &Vec<Vec<String>>, d: &Vec<String>, parts: &str, level: i32, out: &mut Vec<TreeRow>)
    requires
        0 <= level <= d@.len(),
        d@.len() <= max_depth(comps_view(cs@)),
        max_depth(comps_view(cs@)) < 0x3fff_ffff,
        sources_below(old(out)@, cs@.len() as int),
        items_named(rows_view(old(out)@), comps_view(cs@)),
    ensures
        sources_below(final(out)@, cs@.len() as int),
        items_named(rows_view(final(out)@), comps_view(cs@)),
        covers_below(rows_view(final(out)@), comps_view(cs@), names_view(d@)),
        sources_distinct(tree_rows(comps_view(cs@), names_view(d@), parts@, level as int)),
        sources_within(tree_rows(comps_view(cs@), names_view(d@), parts@, level as int), comps_view(cs@), names_view(d@)),
        rows_view(final(out)@) == rows_view(old(out)@) + tree_rows(
            comps_view(cs@),
            names_view(d@),
            parts@,
            level as int,
        ),
    decreases max_depth(comps_view(cs@)) - d@.len(),
{
    let ghost cv = comps_view(cs@);
    let ghost dv = names_view(d@);
    let ghost start = rows_view(out@);
    let files = collect_files(cs, d);
    let dirs = collect_dirs(cs, d);
    let ghost filesv = names_view(files@);
    let ghost dirsv = names_view(dirs@);
    proof {
        lemma_sorted_names_is(filesv, files_in(cv, dv));
        lemma_sorted_names_is(dirsv, dirs_in(cv, dv));
    }
    let empty = String::new();
    let part: &str = if d.len() == 0 {
        empty.as_str()
    } else {
        d[d.len() - 1].as_str()
    };
    let ghost spart = if dv.len() == 0 {
        Seq::<char>::empty()
    } else {
        dv.last()
    };
    proof {
        assert(part@ == spart);
    }
    let named = char_count(part) > 0;
    let section = named && files.len() > 0;
    let mut next_parts = to_owned_string(parts);
    if named {
        if files.len() == 0 {
            push_str(&mut next_parts, part);
            push_char(&mut next_parts, '/');
            proof {
                assert(next_parts@ =~= parts@ + spart + seq!['/']);
            }
        } else {
            next_parts = String::new();
        }
    }
    proof {
        assert(next_parts@ == if spart.len() == 0 {
            parts@
        } else if filesv.len() == 0 {
            parts@ + spart + seq!['/']
        } else {
            Seq::<char>::empty()
        });
    }
    let next_level: i32 = if section {
        level + 1
    } else {
        level
    };
    let ghost head = if section {
        seq![TreeRowView::Section { label: indent(level as int) + parts@ + spart + seq!['/'], dir: parts@ }]
    } else {
        Seq::<TreeRowView>::empty()
    };
    let ghost items = Seq::new(
        filesv.len(),
        |j: int|
            TreeRowView::Item {
                label: indent(next_level as int) + filesv[j],
                source: last_index(cv, dv.push(filesv[j])),
            },
    );
    if section {
        let mut label = indent_str(level);
        push_str(&mut label, parts);
        push_str(&mut label, part);
        push_char(&mut label, '/');
        proof {
            assert(label@ =~= indent(level as int) + parts@ + spart + seq!['/']);
        }
        let dir = to_owned_string(parts);
        let ghost lv = label@;
        let ghost dirv = dir@;
        let ghost before = out@;
        out.push(TreeRow::Section { label, dir });
        proof {
            assert(out@ == before.push(TreeRow::Section { label, dir }));
            assert(rows_view(out@) =~= rows_view(before).push(TreeRowView::Section { label: lv, dir: dirv }));
            assert forall|q: int| 0 <= q < rows_view(out@).len() implies (#[trigger] rows_view(out@)[q] matches TreeRowView::Item { label, source } ==> {
                &&& 0 <= source < cv.len()
                &&& cv[source].len() >= 1
                &&& label.len() >= cv[source].last().len()
                &&& label.skip(label.len() - cv[source].last().len()) == cv[source].last()
            }) by {
                if q < rows_view(before).len() {
                    assert(rows_view(out@)[q] == rows_view(before)[q]);
                }
            }
        }
    }
    proof {
        assert(rows_view(out@) =~= start + head);
        if files@.len() > 0 {
            assert(filesv.contains(filesv[0]));
            assert(files_in(cv, dv).contains(filesv[0]));
            let i = choose|i: int| 0 <= i < cv.len() && cv[i] == dv.push(filesv[0]);
            lemma_max_depth_ge(cv, i);
        }
    }
    let mut j: usize = 0;
    while j < files.len()
        invariant
            cv == comps_view(cs@),
            dv == names_view(d@),
            filesv == names_view(files@),
            lists_sorted(filesv, files_in(cv, dv)),
            j <= files@.len(),
            files@.len() > 0 ==> next_level <= max_depth(cv),
            0 <= next_level,
            max_depth(cv) < 0x3fff_ffff,
            items == Seq::new(
                filesv.len(),
                |q: int|
                    TreeRowView::Item {
                        label: indent(next_level as int) + filesv[q],
                        source: last_index(cv, dv.push(filesv[q])),
                    },
            ),
            rows_view(out@) == start + head + items.take(j as int),
            sources_below(out@, cs@.len() as int),
            items_named(rows_view(out@), cv),
        decreases files@.len() - j,
    {
        let f = files[j].as_str();
        proof {
            assert(filesv[j as int] == f@);
            assert(filesv.contains(f@));
        }
        let mut label = indent_str(next_level);
        push_str(&mut label, f);
        let source = find_last(cs, d, f);
        let ghost before = rows_view(out@);
        out.push(TreeRow::Item { label, source });
        proof {
            assert(items.take(j as int + 1) =~= items.take(j as int).push(items[j as int]));
            assert(rows_view(out@) =~= before.push(row_view(TreeRow::Item { label, source })));
            let c = dv.push(f@);
            assert(filesv.contains(f@));
            assert(files_in(cv, dv).contains(f@));
            let w = choose|w: int| 0 <= w < cv.len() && cv[w] == c;
            lemma_last_index_found(cv, c, w);
            let lab = indent(next_level as int) + filesv[j as int];
            assert(rows_view(out@).last() == items[j as int]);
            assert(cv[source as int] == c);
            assert(cv[source as int].last() == f@);
            assert(lab.skip(lab.len() - f@.len()) =~= f@);
            assert forall|q: int| 0 <= q < rows_view(out@).len() implies (#[trigger] rows_view(out@)[q] matches TreeRowView::Item { label, source } ==> {
                &&& 0 <= source < cv.len()
                &&& cv[source].len() >= 1
                &&& label.len() >= cv[source].last().len()
                &&& label.skip(label.len() - cv[source].last().len()) == cv[source].last()
            }) by {
                if q < before.len() {
                    assert(rows_view(out@)[q] == before[q]);
                }
            }
        }
        j += 1;
    }
    proof {
        assert(items.take(filesv.len() as int) =~= items);
        let hi = head + items;
        assert forall|q: int| 0 <= q < hi.len() && #[trigger] hi[q] is Item implies {
            let s = hi[q]->source;
            &&& 0 <= s < cv.len()
            &&& cv[s].len() == dv.len() + 1
            &&& cv[s].take(dv.len() as int) == dv
            &&& cv[s] == dv.push(filesv[q - head.len()])
        } by {
            let j = q - head.len();
            assert(hi[q] == items[j]);
            let f = filesv[j];
            assert(filesv.contains(f));
            assert(files_in(cv, dv).contains(f));
            let w = choose|w: int| 0 <= w < cv.len() && cv[w] == dv.push(f);
            lemma_last_index_found(cv, dv.push(f), w);
            assert(dv.push(f).take(dv.len() as int) =~= dv);
        }
        assert(sources_distinct(hi)) by {
            assert forall|p: int, q: int| 0 <= p < q < hi.len() && #[trigger] hi[p] is Item && #[trigger] hi[q] is Item implies hi[p]->source
                != hi[q]->source by {
                let fp = filesv[p - head.len()];
                let fq = filesv[q - head.len()];
                assert(name_lt(fp, fq));
                if fp == fq {
                    lemma_name_lt_irreflexive(fp);
                }
                assert(dv.push(fp)[dv.len() as int] == fp);
                assert(dv.push(fq)[dv.len() as int] == fq);
            }
        }
        let rv = rows_view(out@);
        let base = start.len() + head.len();
        assert forall|i: int|
            0 <= i < cv.len() && (#[trigger] cv[i]).len() == dv.len() + 1 && cv[i].take(dv.len() as int) == dv implies has_item_for(
            rv,
            last_index(cv, cv[i]),
        ) by {
            let f = cv[i][dv.len() as int];
            assert(cv[i] =~= dv.push(f));
            assert(files_in(cv, dv).contains(f));
            assert(filesv.contains(f));
            let q = choose|q: int| 0 <= q < filesv.len() && filesv[q] == f;
            assert(rv[base + q] == items[q]);
            assert(rv[base + q] is Item);
        }
    }
    let mut k: usize = 0;
    proof {
        assert(child_rows(cv, dv, dirsv, 0, next_parts@, next_level as int) == Seq::<TreeRowView>::empty());
        assert(rows_view(out@) =~= start + head + items + child_rows(cv, dv, dirsv, 0, next_parts@, next_level as int));
        assert(head + items + child_rows(cv, dv, dirsv, 0, next_parts@, next_level as int) =~= head + items);
    }
    while k < dirs.len()
        invariant
            cv == comps_view(cs@),
            dv == names_view(d@),
            dirsv == names_view(dirs@),
            lists_sorted(dirsv, dirs_in(cv, dv)),
            k <= dirs@.len(),
            0 <= next_level <= d@.len() + 1,
            max_depth(cv) < 0x3fff_ffff,
            rows_view(out@) == start + head + items + child_rows(cv, dv, dirsv, k as int, next_parts@, next_level as int),
            sources_below(out@, cs@.len() as int),
            items_named(rows_view(out@), cv),
            forall|i: int|
                0 <= i < cv.len() && (#[trigger] cv[i]).len() > dv.len() && cv[i].take(dv.len() as int) == dv && (cv[i].len()
                    == dv.len() + 1 || dirsv.take(k as int).contains(cv[i][dv.len() as int])) ==> has_item_for(
                    rows_view(out@),
                    last_index(cv, cv[i]),
                ),
            sources_distinct(head + items + child_rows(cv, dv, dirsv, k as int, next_parts@, next_level as int)),
            forall|q: int|
                0 <= q < (head + items + child_rows(cv, dv, dirsv, k as int, next_parts@, next_level as int)).len()
                    && #[trigger] (head + items + child_rows(cv, dv, dirsv, k as int, next_parts@, next_level as int))[q] is Item
                    ==> {
                    let s = (head + items + child_rows(cv, dv, dirsv, k as int, next_parts@, next_level as int))[q]->source;
                    &&& 0 <= s < cv.len()
                    &&& cv[s].len() > dv.len()
                    &&& cv[s].take(dv.len() as int) == dv
                    &&& (cv[s].len() == dv.len() + 1 || dirsv.take(k as int).contains(cv[s][dv.len() as int]))
                },
        decreases dirs@.len() - k,
    {
        let x = dirs[k].as_str();
        proof {
            assert(dirsv[k as int] == x@);
            assert(dirsv.contains(x@));
            lemma_dir_depth(cv, dv, x@);
        }
        let mut d2: Vec<String> = Vec::new();
        let mut q: usize = 0;
        while q < d.len()
            invariant
                q <= d@.len(),
                names_view(d2@) == names_view(d@).take(q as int),
            decreases d@.len() - q,
        {
            let ghost b = d2@;
            let s = to_owned_string(d[q].as_str());
            d2.push(s);
            proof {
                assert(names_view(d2@) =~= names_view(b).push(d@[q as int]@));
                assert(names_view(d2@) =~= names_view(d@).take(q as int + 1));
            }
            q += 1;
        }
        let ghost b2 = d2@;
        let xs = to_owned_string(x);
        d2.push(xs);
        proof {
            assert(names_view(d2@) =~= names_view(b2).push(x@));
            assert(names_view(d@).take(d@.len() as int) =~= names_view(d@));
            assert(names_view(d2@) =~= dv.push(x@));
        }
        let ghost before = rows_view(out@);
        let ghost dk = dirsv.take(k as int);
        emit_tree_rows(cs, &d2, next_parts.as_str(), next_level, out);
        proof {
            let added = tree_rows(cv, names_view(d2@), next_parts@, next_level as int);
            assert(rows_view(out@) == before + added);
            assert(dirsv.take(k as int + 1) =~= dk.push(x@));
            assert forall|i: int|
                0 <= i < cv.len() && (#[trigger] cv[i]).len() > dv.len() && cv[i].take(dv.len() as int) == dv && (cv[i].len()
                    == dv.len() + 1 || dirsv.take(k as int + 1).contains(cv[i][dv.len() as int])) implies has_item_for(
                rows_view(out@),
                last_index(cv, cv[i]),
            ) by {
                if cv[i].len() == dv.len() + 1 || dk.contains(cv[i][dv.len() as int]) {
                    lemma_has_item_append(before, added, last_index(cv, cv[i]));
                } else {
                    assert(cv[i][dv.len() as int] == x@);
                    assert(cv[i].take(dv.len() + 1int) =~= dv.push(x@));
                    assert(cv[i].take(names_view(d2@).len() as int) == names_view(d2@));
                }
            }
            let seg = head + items + child_rows(cv, dv, dirsv, k as int, next_parts@, next_level as int);
            assert(names_view(d2@) == dv.push(x@));
            assert(x@ == dirsv[k as int]);
            assert(!dk.contains(x@)) by {
                if dk.contains(x@) {
                    let w = choose|w: int| 0 <= w < dk.len() && dk[w] == x@;
                    assert(dirsv[w] == x@);
                    assert(name_lt(dirsv[w], dirsv[k as int]));
                    lemma_name_lt_irreflexive(x@);
                }
            }
            assert forall|q: int| 0 <= q < added.len() && #[trigger] added[q] is Item implies {
                let s = added[q]->source;
                &&& 0 <= s < cv.len()
                &&& cv[s].len() > dv.len() + 1
                &&& cv[s].take(dv.len() as int) == dv
                &&& cv[s][dv.len() as int] == x@
            } by {
                let s = added[q]->source;
                assert(cv[s].take(dv.len() + 1int) == dv.push(x@));
                assert(cv[s].take(dv.len() + 1int).take(dv.len() as int) =~= cv[s].take(dv.len() as int));
                assert(dv.push(x@).take(dv.len() as int) =~= dv);
                assert(cv[s].take(dv.len() + 1int)[dv.len() as int] == cv[s][dv.len() as int]);
            }
            assert(sources_apart(seg, added)) by {
                assert forall|p: int, q: int| 0 <= p < seg.len() && 0 <= q < added.len() && #[trigger] seg[p] is Item && #[trigger] added[q] is Item implies seg[p]->source
                    != added[q]->source by {
                    let s1 = seg[p]->source;
                    if cv[s1].len() != dv.len() + 1 {
                        assert(dk.contains(cv[s1][dv.len() as int]));
                    }
                }
            }
            lemma_distinct_concat(seg, added);
            let seg2 = head + items + child_rows(cv, dv, dirsv, k as int + 1, next_parts@, next_level as int);
            assert(seg2 =~= seg + added);
            assert forall|q: int| 0 <= q < seg2.len() && #[trigger] seg2[q] is Item implies {
                let s = seg2[q]->source;
                &&& 0 <= s < cv.len()
                &&& cv[s].len() > dv.len()
                &&& cv[s].take(dv.len() as int) == dv
                &&& (cv[s].len() == dv.len() + 1 || dirsv.take(k as int + 1).contains(cv[s][dv.len() as int]))
            } by {
                if q < seg.len() {
                    assert(seg2[q] == seg[q]);
                } else {
                    assert(seg2[q] == added[q - seg.len()]);
                    assert(dirsv.take(k as int + 1)[k as int] == x@);
                }
            }
        }
        proof {
            assert(child_rows(cv, dv, dirsv, k as int + 1, next_parts@, next_level as int) == child_rows(
                cv,
                dv,
                dirsv,
                k as int,
                next_parts@,
                next_level as int,
            ) + tree_rows(cv, dv.push(dirsv[k as int]), next_parts@, next_level as int));
        }
        k += 1;
    }
    proof {
        assert(dirsv.take(k as int) =~= dirsv);
        assert forall|i: int|
            0 <= i < cv.len() && (#[trigger] cv[i]).len() > dv.len() && cv[i].take(dv.len() as int) == dv implies has_item_for(
            rows_view(out@),
            last_index(cv, cv[i]),
        ) by {
            if cv[i].len() > dv.len() + 1 {
                let x = cv[i][dv.len() as int];
                assert(cv[i].take(dv.len() + 1int) =~= dv.push(x));
                assert(dirs_in(cv, dv).contains(x));
                assert(dirsv.contains(x));
            }
        }
    }
    proof {
        let whole = head + items + child_rows(cv, dv, dirsv, k as int, next_parts@, next_level as int);
        assert(sources_distinct(whole));
        assert forall|q: int| 0 <= q < whole.len() && #[trigger] whole[q] is Item implies {
            let s = whole[q]->source;
            &&& 0 <= s < cv.len()
            &&& cv[s].len() > dv.len()
            &&& cv[s].take(dv.len() as int) == dv
        } by {}
        assert(sources_within(whole, cv, dv));
    }
    proof {
        assert(tree_rows(cv, dv, parts@, level as int) == head + items + child_rows(
            cv,
            dv,
            dirsv,
            dirsv.len() as int,
            next_parts@,
            next_level as int,
        ));
    }
}

/// The components of each path.
pub open spec fn path_components(paths: Seq<Seq<char>>) -> Seq<Seq<Seq<char>>> {
    paths.map_values(|p: Seq<char>| components(p))
}

/// Whether some file row of `rows` names path `s`.
pub open spec fn has_item_for(rows: Seq<TreeRowView>, s: int) -> bool {
    exists|q: int| 0 <= q < rows.len() && #[trigger] rows[q] is Item && rows[q]->source == s
}

/// Whether every path below the directory `d` (its components begin with
/// `d`'s and are more) is named by a file row of `rows`, through the last
/// path with the same components.
pub open spec fn covers_below(rows: Seq<TreeRowView>, cs: Seq<Seq<Seq<char>>>, d: Seq<Seq<char>>) -> bool {
    forall|i: int|
        0 <= i < cs.len() && (#[trigger] cs[i]).len() > d.len() && cs[i].take(d.len() as int) == d ==> has_item_for(
            rows,
            last_index(cs, cs[i]),
        )
}

/// Whether no two file rows of `rows` name the same path.
pub open spec fn sources_distinct(rows: Seq<TreeRowView>) -> bool {
    forall|p: int, q: int|
        0 <= p < q < rows.len() && #[trigger] rows[p] is Item && #[trigger] rows[q] is Item ==> rows[p]->source
            != rows[q]->source
}

/// Whether every file row of `rows` names a path below the directory `d`.
pub open spec fn sources_within(rows: Seq<TreeRowView>, cs: Seq<Seq<Seq<char>>>, d: Seq<Seq<char>>) -> bool {
    forall|q: int|
        0 <= q < rows.len() && #[trigger] rows[q] is Item ==> {
            let s = rows[q]->source;
            &&& 0 <= s < cs.len()
            &&& cs[s].len() > d.len()
            &&& cs[s].take(d.len() as int) == d
        }
}

/// Whether no file row of `a` names a path that a file row of `b` names.
pub open spec fn sources_apart(a: Seq<TreeRowView>, b: Seq<TreeRowView>) -> bool {
    forall|p: int, q: int|
        0 <= p < a.len() && 0 <= q < b.len() && #[trigger] a[p] is Item && #[trigger] b[q] is Item ==> a[p]->source
            != b[q]->source
}

proof fn lemma_distinct_concat(a: Seq<TreeRowView>, b: Seq<TreeRowView>)
    requires
        sources_distinct(a),
        sources_distinct(b),
        sources_apart(a, b),
    ensures
        sources_distinct(a + b),
{
    let c = a + b;
    assert forall|p: int, q: int| 0 <= p < q < c.len() && #[trigger] c[p] is Item && #[trigger] c[q] is Item implies c[p]->source
        != c[q]->source by {
        if q < a.len() {
            assert(c[p] == a[p] && c[q] == a[q]);
        } else if p >= a.len() {
            assert(c[p] == b[p - a.len()] && c[q] == b[q - a.len()]);
        } else {
            assert(c[p] == a[p] && c[q] == b[q - a.len()]);
        }
    }
}

/// The number of file rows.
pub open spec fn item_count(rows: Seq<TreeRowView>) -> int
    decreases rows.len(),
{
    if rows.len() == 0 {
        0
    } else {
        item_count(rows.drop_last()) + if rows.last() is Item {
            1int
        } else {
            0int
        }
    }
}

/// The number of headings.
pub open spec fn section_count(rows: Seq<TreeRowView>) -> int
    decreases rows.len(),
{
    if rows.len() == 0 {
        0
    } else {
        section_count(rows.drop_last()) + if rows.last() is Section {
            1int
        } else {
            0int
        }
    }
}

/// The paths that file rows name.
pub open spec fn item_sources(rows: Seq<TreeRowView>) -> Set<int>
    decreases rows.len(),
{
    if rows.len() == 0 {
        Set::empty()
    } else if rows.last() is Item {
        item_sources(rows.drop_last()).insert(rows.last()->source)
    } else {
        item_sources(rows.drop_last())
    }
}

proof fn lemma_item_sources(rows: Seq<TreeRowView>)
    ensures
        item_sources(rows).finite(),
        forall|s: int| #[trigger] item_sources(rows).contains(s) <==> has_item_for(rows, s),
        sources_distinct(rows) ==> item_sources(rows).len() == item_count(rows),
        rows.len() == item_count(rows) + section_count(rows),
    decreases rows.len(),
{
    if rows.len() > 0 {
        let prev = rows.drop_last();
        lemma_item_sources(prev);
        assert forall|s: int| #[trigger] item_sources(rows).contains(s) <==> has_item_for(rows, s) by {
            if has_item_for(rows, s) {
                let q = choose|q: int| 0 <= q < rows.len() && #[trigger] rows[q] is Item && rows[q]->source == s;
                if q < prev.len() {
                    assert(prev[q] == rows[q]);
                    assert(has_item_for(prev, s));
                }
            }
            if has_item_for(prev, s) {
                let q = choose|q: int| 0 <= q < prev.len() && #[trigger] prev[q] is Item && prev[q]->source == s;
                assert(rows[q] == prev[q]);
            }
            if rows.last() is Item && rows.last()->source == s {
                assert(rows[rows.len() - 1] == rows.last());
            }
        }
        if sources_distinct(rows) {
            assert forall|p: int, q: int| 0 <= p < q < prev.len() && #[trigger] prev[p] is Item && #[trigger] prev[q] is Item implies prev[p]->source
                != prev[q]->source by {
                assert(prev[p] == rows[p] && prev[q] == rows[q]);
            }
            if rows.last() is Item {
                let s = rows.last()->source;
                if item_sources(prev).contains(s) {
                    let q = choose|q: int| 0 <= q < prev.len() && #[trigger] prev[q] is Item && prev[q]->source == s;
                    assert(rows[q] == prev[q]);
                    assert(rows[rows.len() - 1] == rows.last());
                }
            }
        }
    }
}

/// The rows name as many paths as there are paths, when they name each of
/// `n` paths once and only those.
pub proof fn lemma_item_count(rows: Seq<TreeRowView>, n: int)
    requires
        0 <= n,
        sources_distinct(rows),
        forall|q: int| 0 <= q < rows.len() && #[trigger] rows[q] is Item ==> 0 <= rows[q]->source < n,
        forall|i: int| 0 <= i < n ==> #[trigger] has_item_for(rows, i),
    ensures
        item_count(rows) == n,
        rows.len() == n + section_count(rows),
{
    lemma_item_sources(rows);
    assert(item_sources(rows) =~= vstd::set_lib::set_int_range(0, n)) by {
        assert forall|s: int| #[trigger] item_sources(rows).contains(s) implies 0 <= s < n by {
            assert(has_item_for(rows, s));
            let q = choose|q: int| 0 <= q < rows.len() && #[trigger] rows[q] is Item && rows[q]->source == s;
        }
        assert forall|s: int| 0 <= s < n implies #[trigger] item_sources(rows).contains(s) by {
            assert(has_item_for(rows, s));
        }
    }
    vstd::set_lib::lemma_int_range(0, n);
}

proof fn lemma_has_item_append(a: Seq<TreeRowView>, b: Seq<TreeRowView>, s: int)
    requires
        has_item_for(a, s),
    ensures
        has_item_for(a + b, s),
{
    let q = choose|q: int| 0 <= q < a.len() && #[trigger] a[q] is Item && a[q]->source == s;
    assert((a + b)[q] == a[q]);
}

/// Whether each file row of `rows` names one of the paths whose components
/// are `cs`, and its label ends with that path's last component.
pub open spec fn items_named(rows: Seq<TreeRowView>, cs: Seq<Seq<Seq<char>>>) -> bool {
    forall|q: int|
        0 <= q < rows.len() ==> (#[trigger] rows[q] matches TreeRowView::Item { label, source } ==> {
            &&& 0 <= source < cs.len()
            &&& cs[source].len() >= 1
            &&& label.len() >= cs[source].last().len()
            &&& label.skip(label.len() - cs[source].last().len()) == cs[source].last()
        })
}

/// Whether each file row of `rows` names one of `n` paths.
pub open spec fn sources_below(rows: Seq<TreeRow>, n: int) -> bool {
    forall|q: int| 0 <= q < rows.len() ==> (#[trigger] rows[q] matches TreeRow::Item { source, .. } ==> source < n)
}

proof fn lemma_max_depth_bound(cs: Seq<Seq<Seq<char>>>, b: int)
    requires
        0 <= b,
        forall|i: int| 0 <= i < cs.len() ==> (#[trigger] cs[i]).len() <= b,
    ensures
        max_depth(cs) <= b,
    decreases cs.len(),
{
    if cs.len() > 0 {
        assert forall|i: int| 0 <= i < cs.drop_last().len() implies (#[trigger] cs.drop_last()[i]).len() <= b by {
            assert(cs.drop_last()[i] == cs[i]);
        }
        lemma_max_depth_bound(cs.drop_last(), b);
    }
}

/// The rows of the tree of `paths` (see `tree_rows`).
#[verifier::rlimit(60)]
#[verifier::spinoff_prover]
pub fn file_tree_rows(paths: &Vec<String>) -> (r: Vec<TreeRow>)
    requires
        forall|i: int| 0 <= i < paths@.len() ==> (#[trigger] paths@[i])@.len() < 0x3fff_fff0,
    ensures
        rows_view(r@) == file_tree_spec(path_components(names_view(paths@))),
        sources_below(r@, paths@.len() as int),
        items_named(rows_view(r@), path_components(names_view(paths@))),
        sections_followed(rows_view(r@)),
        forall|i: int|
            0 <= i < paths@.len() ==> has_item_for(
                rows_view(r@),
                last_index(
                    path_components(names_view(paths@)),
                    #[trigger] path_components(names_view(paths@))[i],
                ),
            ),
        (forall|i: int, j: int| 0 <= i < j < paths@.len() ==> paths@[i]@ != paths@[j]@) ==> forall|i: int|
            0 <= i < paths@.len() ==> #[trigger] has_item_for(rows_view(r@), i),
        sources_distinct(rows_view(r@)),
        (forall|i: int, j: int| 0 <= i < j < paths@.len() ==> paths@[i]@ != paths@[j]@) ==> r@.len() == paths@.len()
            + section_count(rows_view(r@)),
{
    let mut cs: Vec<Vec<String>> = Vec::new();
    let mut i: usize = 0;
    while i < paths.len()
        invariant
            i <= paths@.len(),
            comps_view(cs@) == path_components(names_view(paths@)).take(i as int),
        decreases paths@.len() - i,
    {
        let c = split_path(paths[i].as_str());
        let ghost b = cs@;
        cs.push(c);
        proof {
            assert(comps_view(cs@) =~= comps_view(b).push(names_view(c@)));
            assert(path_components(names_view(paths@)).take(i as int + 1) =~= path_components(names_view(paths@)).take(
                i as int,
            ).push(components(paths@[i as int]@)));
        }
        i += 1;
    }
    proof {
        let cv = comps_view(cs@);
        assert(cv =~= path_components(names_view(paths@)));
        assert forall|k: int| 0 <= k < cv.len() implies (#[trigger] cv[k]).len() <= 0x3fff_fff0 by {
            lemma_components_from_len(Seq::empty(), paths@[k]@);
        }
        lemma_max_depth_bound(cv, 0x3fff_fff0);
    }
    let d: Vec<String> = Vec::new();
    let parts = String::new();
    let mut out: Vec<TreeRow> = Vec::new();
    proof {
        assert(names_view(d@) =~= Seq::<Seq<char>>::empty());
        assert(rows_view(out@) =~= Seq::<TreeRowView>::empty());
        assert(sources_below(out@, cs@.len() as int));
        assert(items_named(rows_view(out@), comps_view(cs@)));
    }
    emit_tree_rows(&cs, &d, parts.as_str(), 0, &mut out);
    proof {
        lemma_tree_rows_sections(comps_view(cs@), Seq::empty(), Seq::empty(), 0);
        let pc = path_components(names_view(paths@));
        assert(comps_view(cs@) == pc);
        assert forall|i: int| 0 <= i < paths@.len() implies has_item_for(
            rows_view(out@),
            last_index(pc, #[trigger] pc[i]),
        ) by {
            lemma_components_from_len(Seq::empty(), paths@[i]@);
            assert(names_view(paths@)[i] == paths@[i]@);
            assert(pc[i].take(0) =~= Seq::<Seq<char>>::empty());
            assert(names_view(d@) =~= Seq::<Seq<char>>::empty());
        }
        if forall|i: int, j: int| 0 <= i < j < paths@.len() ==> paths@[i]@ != paths@[j]@ {
            assert forall|i: int| 0 <= i < paths@.len() implies #[trigger] has_item_for(rows_view(out@), i) by {
                assert forall|j: int| 0 <= j < pc.len() && j != i implies pc[j] != pc[i] by {
                    assert(names_view(paths@)[i] == paths@[i]@);
                    assert(names_view(paths@)[j] == paths@[j]@);
                    if pc[j] == pc[i] {
                        lemma_components_injective(paths@[j]@, paths@[i]@);
                    }
                }
                lemma_last_index_unique(pc, i);
                assert(has_item_for(rows_view(out@), last_index(pc, pc[i])));
            }
            let rv = rows_view(out@);
            assert forall|q: int| 0 <= q < rv.len() && #[trigger] rv[q] is Item implies 0 <= rv[q]->source < paths@.len() by {
                assert(rv[q] == row_view(out@[q]));
                match out@[q] {
                    TreeRow::Item { source, .. } => {},
                    _ => {},
                }
            }
            lemma_item_count(rv, paths@.len() as int);
        }
        assert(rows_view(out@) =~= file_tree_spec(path_components(names_view(paths@))));
        assert(cs@.len() == paths@.len());
    }
    out
}

/// Each heading is followed by a file.
pub open spec fn sections_followed(rows: Seq<TreeRowView>) -> bool {
    forall|i: int| 0 <= i < rows.len() && #[trigger] rows[i] is Section ==> i + 1 < rows.len() && rows[i + 1] is Item
}

proof fn lemma_sections_followed_concat(a: Seq<TreeRowView>, b: Seq<TreeRowView>)
    requires
        sections_followed(a),
        sections_followed(b),
    ensures
        sections_followed(a + b),
{
    let c = a + b;
    assert forall|i: int| 0 <= i < c.len() && #[trigger] c[i] is Section implies i + 1 < c.len() && c[i + 1] is Item by {
        if i < a.len() {
            assert(a[i] is Section);
            assert(c[i + 1] == a[i + 1]);
        } else {
            assert(b[i - a.len()] is Section);
            assert(c[i + 1] == b[i + 1 - a.len()]);
        }
    }
}

/// In the rows of a directory, each heading is followed by a file.
pub proof fn lemma_tree_rows_sections(cs: Seq<Seq<Seq<char>>>, d: Seq<Seq<char>>, parts: Seq<char>, level: int)
    ensures
        sections_followed(tree_rows(cs, d, parts, level)),
    decreases max_depth(cs) - d.len(), sorted_names(dirs_in(cs, d)).len() + 1,
{
    let part = if d.len() == 0 {
        Seq::<char>::empty()
    } else {
        d.last()
    };
    let files = sorted_names(files_in(cs, d));
    let dirs = sorted_names(dirs_in(cs, d));
    let section = part.len() > 0 && files.len() > 0;
    let next_parts = if part.len() == 0 {
        parts
    } else if files.len() == 0 {
        parts + part + seq!['/']
    } else {
        Seq::empty()
    };
    let next_level = if section {
        level + 1
    } else {
        level
    };
    let head = if section {
        seq![TreeRowView::Section { label: indent(level) + parts + part + seq!['/'], dir: parts }]
    } else {
        Seq::empty()
    };
    let items = Seq::new(
        files.len(),
        |j: int|
            TreeRowView::Item {
                label: indent(next_level) + files[j],
                source: last_index(cs, d.push(files[j])),
            },
    );
    lemma_child_rows_sections(cs, d, dirs, dirs.len() as int, next_parts, next_level);
    let hi = head + items;
    assert forall|i: int| 0 <= i < hi.len() && #[trigger] hi[i] is Section implies i + 1 < hi.len() && hi[i + 1] is Item by {
        assert(i == 0);
        assert(hi[1] == items[0]);
    }
    lemma_sections_followed_concat(hi, child_rows(cs, d, dirs, dirs.len() as int, next_parts, next_level));
}

/// In the rows of the first `n` directories of `dirs`, each heading is
/// followed by a file.
pub proof fn lemma_child_rows_sections(
    cs: Seq<Seq<Seq<char>>>,
    d: Seq<Seq<char>>,
    dirs: Seq<Seq<char>>,
    n: int,
    parts: Seq<char>,
    level: int,
)
    ensures
        sections_followed(child_rows(cs, d, dirs, n, parts, level)),
    decreases max_depth(cs) - d.len(), n,
{
    if n <= 0 || d.len() >= max_depth(cs) {
    } else {
        lemma_child_rows_sections(cs, d, dirs, n - 1, parts, level);
        lemma_tree_rows_sections(cs, d.push(dirs[n - 1]), parts, level);
        lemma_sections_followed_concat(
            child_rows(cs, d, dirs, n - 1, parts, level),
            tree_rows(cs, d.push(dirs[n - 1]), parts, level),
        );
    }
}

} // verus!
