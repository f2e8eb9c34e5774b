//! The configuration that results from applying the configuration state:
//! the active mappings of all modules merged into one mapping per name.

use vstd::prelude::*;

use crate::config::insert_order_map::InsertOrderMap;
use crate::config::{ConditionalMapping, ConfigModule, ConfigState};
use crate::text::str_eq;
use crate::ui::style::{color_from_hex_spec, parse_u8, parse_u8_spec, Color};

verus! {

/// Settings of the editor.
#[derive(Debug)]
pub struct EditorConfig {
    pub indent_size: i32,
}

impl EditorConfig {
    /// The indent size comes from a `u8`.
    pub open spec fn wf(self) -> bool {
        0 <= self.indent_size <= u8::MAX
    }
}

impl Default for EditorConfig {
    fn default() -> (r: Self)
        ensures
            r.indent_size == 4,
    {
        Self { indent_size: 4 }
    }
}

/// The values of each entry of a mapping, as sequences of strings.
pub open spec fn entries_view(m: Map<Seq<char>, Vec<String>>) -> Map<Seq<char>, Seq<String>> {
    m.map_values(|v: Vec<String>| v@)
}

/// The mappings of `ms`, in order, whose selectors all hold for `states`.
pub open spec fn active_among(ms: Seq<ConditionalMapping>, states: Map<Seq<char>, Seq<char>>) -> Seq<
    ConditionalMapping,
>
    decreases ms.len(),
{
    if ms.len() == 0 {
        Seq::empty()
    } else {
        let r = active_among(ms.drop_last(), states);
        if ms.last().active_in(states) {
            r.push(ms.last())
        } else {
            r
        }
    }
}

/// The active mappings of all modules, module after module.
pub open spec fn active_mappings(mods: Seq<ConfigModule>, states: Map<Seq<char>, Seq<char>>) -> Seq<
    ConditionalMapping,
>
    decreases mods.len(),
{
    if mods.len() == 0 {
        Seq::empty()
    } else {
        active_mappings(mods.drop_last(), states) + active_among(mods.last().mappings@, states)
    }
}

/// `x` placed into `s` after every mapping that is no more specific than it.
pub open spec fn insert_by_specificity(s: Seq<ConditionalMapping>, x: ConditionalMapping) -> Seq<
    ConditionalMapping,
>
    decreases s.len(),
{
    if s.len() == 0 {
        seq![x]
    } else if s.last().selectors@.len() <= x.selectors@.len() {
        s.push(x)
    } else {
        insert_by_specificity(s.drop_last(), x).push(s.last())
    }
}

/// `s` ordered by increasing specificity, mappings of equal specificity
/// keeping their order.
pub open spec fn sort_by_specificity(s: Seq<ConditionalMapping>) -> Seq<ConditionalMapping>
    decreases s.len(),
{
    if s.len() == 0 {
        s
    } else {
        insert_by_specificity(sort_by_specificity(s.drop_last()), s.last())
    }
}

/// The mappings of `s` named `name`, in order.
pub open spec fn named(s: Seq<ConditionalMapping>, name: Seq<char>) -> Seq<ConditionalMapping>
    decreases s.len(),
{
    if s.len() == 0 {
        Seq::empty()
    } else {
        let r = named(s.drop_last(), name);
        if s.last().name@ == name {
            r.push(s.last())
        } else {
            r
        }
    }
}

/// The mappings of `s` on layer `layer`, in order.
pub open spec fn on_layer(s: Seq<ConditionalMapping>, layer: int) -> Seq<ConditionalMapping>
    decreases s.len(),
{
    if s.len() == 0 {
        Seq::empty()
    } else {
        let r = on_layer(s.drop_last(), layer);
        if s.last().layer == layer {
            r.push(s.last())
        } else {
            r
        }
    }
}

/// The highest layer among the mappings of `s` (0 when there is none).
pub open spec fn top_layer(s: Seq<ConditionalMapping>) -> int
    decreases s.len(),
{
    if s.len() == 0 {
        0
    } else if s.len() == 1 {
        s[0].layer as int
    } else {
        let t = top_layer(s.drop_last());
        if s.last().layer > t {
            s.last().layer as int
        } else {
            t
        }
    }
}

/// The entries `prev` updated by those of a later mapping, `next`: a new
/// entry is added; an existing one takes the later values, put before the
/// earlier ones when `merge`, in place of them otherwise.
pub open spec fn merge_entries_spec(
    prev: Map<Seq<char>, Seq<String>>,
    next: Map<Seq<char>, Seq<String>>,
    merge: bool,
) -> Map<Seq<char>, Seq<String>> {
    Map::new(
        |k: Seq<char>| prev.contains_key(k) || next.contains_key(k),
        |k: Seq<char>|
            if next.contains_key(k) {
                if merge && prev.contains_key(k) {
                    next[k] + prev[k]
                } else {
                    next[k]
                }
            } else {
                prev[k]
            },
    )
}

/// The entries of the mappings `g`, all named `name` and on one layer, taken
/// in order: a mapping as specific as the first one merges into what came
/// before, a more specific one replaces it, except in the mapping named
/// `hooks`, where all merge.
pub open spec fn merged_entries(name: Seq<char>, g: Seq<ConditionalMapping>) -> Map<
    Seq<char>,
    Seq<String>,
>
    decreases g.len(),
{
    if g.len() == 0 {
        Map::empty()
    } else {
        let merge = name == "hooks"@ || g.last().selectors@.len() == g[0].selectors@.len();
        merge_entries_spec(
            merged_entries(name, g.drop_last()),
            entries_view(g.last().entries.map_view()),
            merge,
        )
    }
}

/// For each name of a mapping of `s`, the merged entries of its mappings on
/// their highest layer.
pub open spec fn merged_mappings(s: Seq<ConditionalMapping>) -> Map<
    Seq<char>,
    Map<Seq<char>, Seq<String>>,
> {
    Map::new(
        |n: Seq<char>| named(s, n).len() > 0,
        |n: Seq<char>| merged_entries(n, on_layer(named(s, n), top_layer(named(s, n)))),
    )
}

/// The mappings that applying the state values `states` to `mods` gives:
/// the active mappings, by increasing specificity, merged by name.
pub open spec fn applied_mappings(mods: Seq<ConfigModule>, states: Map<Seq<char>, Seq<char>>) -> Map<
    Seq<char>,
    Map<Seq<char>, Seq<String>>,
> {
    merged_mappings(sort_by_specificity(active_mappings(mods, states)))
}

proof fn lemma_named_push(s: Seq<ConditionalMapping>, x: ConditionalMapping, n: Seq<char>)
    ensures
        named(s.push(x), n) == if x.name@ == n {
            named(s, n).push(x)
        } else {
            named(s, n)
        },
{
    assert(s.push(x).drop_last() =~= s);
}

proof fn lemma_on_layer_push(s: Seq<ConditionalMapping>, x: ConditionalMapping, l: int)
    ensures
        on_layer(s.push(x), l) == if x.layer == l {
            on_layer(s, l).push(x)
        } else {
            on_layer(s, l)
        },
{
    assert(s.push(x).drop_last() =~= s);
}

proof fn lemma_top_layer_push(s: Seq<ConditionalMapping>, x: ConditionalMapping)
    ensures
        top_layer(s.push(x)) == if s.len() == 0 || x.layer > top_layer(s) {
            x.layer as int
        } else {
            top_layer(s)
        },
{
    assert(s.push(x).drop_last() =~= s);
}

/// No mapping of `s` is above its top layer.
proof fn lemma_top_layer_bound(s: Seq<ConditionalMapping>)
    ensures
        forall|q: int| 0 <= q < s.len() ==> s[q].layer <= top_layer(s),
    decreases s.len(),
{
    if s.len() > 1 {
        lemma_top_layer_bound(s.drop_last());
        assert forall|q: int| 0 <= q < s.len() implies s[q].layer <= top_layer(s) by {
            if q < s.len() - 1 {
                assert(s[q] == s.drop_last()[q]);
            }
        }
    }
}

/// A layer that no mapping of `s` is on has no mapping.
proof fn lemma_on_layer_none(s: Seq<ConditionalMapping>, l: int)
    requires
        forall|q: int| 0 <= q < s.len() ==> s[q].layer != l,
    ensures
        on_layer(s, l).len() == 0,
    decreases s.len(),
{
    if s.len() > 0 {
        assert forall|q: int| 0 <= q < s.drop_last().len() implies s.drop_last()[q].layer != l by {
            assert(s.drop_last()[q] == s[q]);
        }
        lemma_on_layer_none(s.drop_last(), l);
    }
}

/// Placing `x` at `j`, after every mapping no more specific and before the
/// more specific ones behind it, is `insert_by_specificity`.
proof fn lemma_insert_position(t: Seq<ConditionalMapping>, x: ConditionalMapping, j: int)
    requires
        0 <= j <= t.len(),
        forall|q: int| j <= q < t.len() ==> t[q].selectors@.len() > x.selectors@.len(),
        j == 0 || t[j - 1].selectors@.len() <= x.selectors@.len(),
    ensures
        insert_by_specificity(t, x) == t.insert(j, x),
    decreases t.len(),
{
    if t.len() == 0 {
        assert(t.insert(j, x) =~= seq![x]);
    } else if j == t.len() {
        assert(t.insert(j, x) =~= t.push(x));
    } else {
        let d = t.drop_last();
        assert forall|q: int| j <= q < d.len() implies d[q].selectors@.len() > x.selectors@.len() by {
            assert(d[q] == t[q]);
        }
        if j > 0 {
            assert(d[j - 1] == t[j - 1]);
        }
        lemma_insert_position(d, x, j);
        assert(d.insert(j, x).push(t.last()) =~= t.insert(j, x));
    }
}

/// The mapping at position `p`: mapping `p.1` of module `p.0`.
spec fn mapping_at(mods: Seq<ConfigModule>, p: (usize, usize)) -> ConditionalMapping {
    mods[p.0 as int].mappings@[p.1 as int]
}

/// Whether `p` is the position of a mapping of `mods`.
spec fn position_valid(mods: Seq<ConfigModule>, p: (usize, usize)) -> bool {
    p.0 < mods.len() && p.1 < mods[p.0 as int].mappings@.len()
}

/// The mappings at the positions `idx`.
spec fn resolve(mods: Seq<ConfigModule>, idx: Seq<(usize, usize)>) -> Seq<ConditionalMapping> {
    Seq::new(idx.len(), |j: int| mapping_at(mods, idx[j]))
}

proof fn lemma_resolve_push(mods: Seq<ConfigModule>, idx: Seq<(usize, usize)>, p: (usize, usize))
    ensures
        resolve(mods, idx.push(p)) == resolve(mods, idx).push(mapping_at(mods, p)),
{
    assert(resolve(mods, idx.push(p)) =~= resolve(mods, idx).push(mapping_at(mods, p)));
}

/// A copy of the strings `v`.
fn clone_strings(v: &Vec<String>) -> (r: Vec<String>)
    ensures
        r@ == v@,
{
    let mut r: Vec<String> = Vec::new();
    let mut i: usize = 0;
    while i < v.len()
        invariant
            i <= v@.len(),
            r@ == v@.take(i as int),
        decreases v@.len() - i,
    {
        r.push(v[i].clone());
        proof {
            assert(v@.take(i as int + 1) =~= v@.take(i as int).push(v@[i as int]));
        }
        i += 1;
    }
    proof {
        assert(v@.take(v@.len() as int) =~= v@);
    }
    r
}

/// The strings of `a` followed by those of `b`.
fn concat_strings(a: &Vec<String>, b: &Vec<String>) -> (r: Vec<String>)
    ensures
        r@ == a@ + b@,
{
    let mut r = clone_strings(a);
    let mut i: usize = 0;
    while i < b.len()
        invariant
            i <= b@.len(),
            r@ == a@ + b@.take(i as int),
        decreases b@.len() - i,
    {
        r.push(b[i].clone());
        proof {
            assert(a@ + b@.take(i as int + 1) =~= (a@ + b@.take(i as int)).push(b@[i as int]));
        }
        i += 1;
    }
    proof {
        assert(b@.take(b@.len() as int) =~= b@);
    }
    r
}

/// The value an entry of `next` takes over the entries `prev` (see `merge_entries_spec`).
spec fn merged_value(
    prev: Map<Seq<char>, Seq<String>>,
    next: Map<Seq<char>, Seq<String>>,
    k: Seq<char>,
    merge: bool,
) -> Seq<String> {
    if merge && prev.contains_key(k) {
        next[k] + prev[k]
    } else {
        next[k]
    }
}

/// The entries `prev` updated by those of `next` (see `merge_entries_spec`).
fn merge_entries(prev: InsertOrderMap<Vec<String>>, next: &InsertOrderMap<Vec<String>>, merge: bool) -> (r:
    InsertOrderMap<Vec<String>>)
    requires
        prev.wf(),
        next.wf(),
    ensures
        r.wf(),
        entries_view(r.map_view()) == merge_entries_spec(
            entries_view(prev.map_view()),
            entries_view(next.map_view()),
            merge,
        ),
{
    let ghost pv = entries_view(prev.map_view());
    let ghost nv = entries_view(next.map_view());
    let mut cur = prev;
    let mut j: usize = 0;
    while j < next.entries.len()
        invariant
            cur.wf(),
            next.wf(),
            nv == entries_view(next.map_view()),
            j <= next.entries@.len(),
            forall|k: Seq<char>| #[trigger]
                cur.map_view().contains_key(k) == (pv.contains_key(k) || (next.has_key(k)
                    && next.index_of_key(k) < j)),
            forall|k: Seq<char>| #[trigger]
                cur.map_view().contains_key(k) ==> cur.map_view()[k]@ == if next.has_key(k)
                    && next.index_of_key(k) < j {
                    merged_value(pv, nv, k, merge)
                } else {
                    pv[k]
                },
        decreases next.entries@.len() - j,
    {
        let key = &next.entries[j].0;
        let vals = &next.entries[j].1;
        proof {
            next.lemma_index_of_key(j as int);
        }
        let ghost kj = key@;
        proof {
            assert(cur.map_view().contains_key(kj) == pv.contains_key(kj));
            if cur.map_view().contains_key(kj) {
                assert(cur.map_view()[kj]@ == pv[kj]);
            }
        }
        let newv = match cur.get(key.as_str()) {
            Some(old) => if merge {
                concat_strings(vals, old)
            } else {
                clone_strings(vals)
            },
            None => clone_strings(vals),
        };
        proof {
            assert(nv[kj] == vals@);
            assert(newv@ == merged_value(pv, nv, kj, merge));
        }
        let ghost before = cur;
        cur.insert(key.clone(), newv);
        proof {
            assert forall|k: Seq<char>| #[trigger]
                cur.map_view().contains_key(k) == (pv.contains_key(k) || (next.has_key(k)
                    && next.index_of_key(k) < j + 1)) by {
                if k != kj && next.has_key(k) {
                    assert(next.keys()[next.index_of_key(k)] == k);
                    assert(next.keys()[j as int] == kj);
                }
                assert(before.map_view().contains_key(k) == (pv.contains_key(k) || (next.has_key(k)
                    && next.index_of_key(k) < j)));
            }
            assert forall|k: Seq<char>| #[trigger] cur.map_view().contains_key(k) implies cur.map_view()[k]@
                == if next.has_key(k) && next.index_of_key(k) < j + 1 {
                merged_value(pv, nv, k, merge)
            } else {
                pv[k]
            } by {
                if k != kj {
                    if next.has_key(k) {
                        assert(next.keys()[next.index_of_key(k)] == k);
                        assert(next.keys()[j as int] == kj);
                    }
                    assert(before.map_view().contains_key(k));
                }
            }
        }
        j += 1;
    }
    proof {
        assert forall|k: Seq<char>| next.has_key(k) implies next.index_of_key(k) < j by {
            assert(next.keys()[next.index_of_key(k)] == k);
        }
        assert(entries_view(cur.map_view()) =~= merge_entries_spec(pv, nv, merge));
    }
    cur
}

/// The positions of the active mappings of `modules`, module after module.
fn active_positions(modules: &Vec<ConfigModule>, state: &ConfigState) -> (r: Vec<(usize, usize)>)
    requires
        state.wf(),
    ensures
        forall|j: int| 0 <= j < r@.len() ==> position_valid(modules@, #[trigger] r@[j]),
        resolve(modules@, r@) == active_mappings(modules@, state.view_spec()),
{
    let ghost st = state.view_spec();
    let mut r: Vec<(usize, usize)> = Vec::new();
    let mut i: usize = 0;
    proof {
        assert(resolve(modules@, r@) =~= active_mappings(modules@.take(0), st));
    }
    while i < modules.len()
        invariant
            state.wf(),
            st == state.view_spec(),
            i <= modules@.len(),
            forall|j: int| 0 <= j < r@.len() ==> position_valid(modules@, #[trigger] r@[j]),
            resolve(modules@, r@) == active_mappings(modules@.take(i as int), st),
        decreases modules@.len() - i,
    {
        let ms = &modules[i].mappings;
        let mut j: usize = 0;
        proof {
            assert(ms@.take(0) =~= Seq::<ConditionalMapping>::empty());
            assert(active_mappings(modules@.take(i as int), st) + active_among(ms@.take(0), st)
                =~= active_mappings(modules@.take(i as int), st));
        }
        while j < ms.len()
            invariant
                state.wf(),
                st == state.view_spec(),
                i < modules@.len(),
                *ms == modules@[i as int].mappings,
                j <= ms@.len(),
                forall|q: int| 0 <= q < r@.len() ==> position_valid(modules@, #[trigger] r@[q]),
                resolve(modules@, r@) == active_mappings(modules@.take(i as int), st) + active_among(
                    ms@.take(j as int),
                    st,
                ),
            decreases ms@.len() - j,
        {
            let ghost before = r@;
            proof {
                assert(ms@.take(j as int + 1).drop_last() =~= ms@.take(j as int));
                assert(ms@.take(j as int + 1).last() == ms@[j as int]);
            }
            if ms[j].is_active(state) {
                r.push((i, j));
                proof {
                    lemma_resolve_push(modules@, before, (i, j));
                    assert(active_mappings(modules@.take(i as int), st) + active_among(
                        ms@.take(j as int + 1),
                        st,
                    ) =~= (active_mappings(modules@.take(i as int), st) + active_among(
                        ms@.take(j as int),
                        st,
                    )).push(ms@[j as int]));
                }
            }
            j += 1;
        }
        proof {
            assert(ms@.take(ms@.len() as int) =~= ms@);
            assert(modules@.take(i as int + 1).drop_last() =~= modules@.take(i as int));
            assert(modules@.take(i as int + 1).last() == modules@[i as int]);
        }
        i += 1;
    }
    proof {
        assert(modules@.take(modules@.len() as int) =~= modules@);
    }
    r
}

/// The number of selectors of the mapping at `p`.
fn specificity_at(modules: &Vec<ConfigModule>, p: (usize, usize)) -> (r: usize)
    requires
        position_valid(modules@, p),
    ensures
        r == mapping_at(modules@, p).selectors@.len(),
{
    modules[p.0].mappings[p.1].specificity()
}

/// The positions `active` ordered by the specificity of their mappings, as
/// a stable sort does.
fn sort_positions(modules: &Vec<ConfigModule>, active: &Vec<(usize, usize)>) -> (r: Vec<(usize, usize)>)
    requires
        forall|j: int| 0 <= j < active@.len() ==> position_valid(modules@, #[trigger] active@[j]),
    ensures
        forall|j: int| 0 <= j < r@.len() ==> position_valid(modules@, #[trigger] r@[j]),
        resolve(modules@, r@) == sort_by_specificity(resolve(modules@, active@)),
{
    let ghost a = resolve(modules@, active@);
    let mut r: Vec<(usize, usize)> = Vec::new();
    let mut i: usize = 0;
    proof {
        assert(resolve(modules@, r@) =~= sort_by_specificity(a.take(0)));
    }
    while i < active.len()
        invariant
            a == resolve(modules@, active@),
            i <= active@.len(),
            forall|j: int| 0 <= j < active@.len() ==> position_valid(modules@, #[trigger] active@[j]),
            forall|j: int| 0 <= j < r@.len() ==> position_valid(modules@, #[trigger] r@[j]),
            resolve(modules@, r@) == sort_by_specificity(a.take(i as int)),
        decreases active@.len() - i,
    {
        let p = active[i];
        let key = specificity_at(modules, p);
        let mut j: usize = r.len();
        while j > 0 && specificity_at(modules, r[j - 1]) > key
            invariant
                j <= r@.len(),
                position_valid(modules@, p),
                key == mapping_at(modules@, p).selectors@.len(),
                forall|q: int| 0 <= q < r@.len() ==> position_valid(modules@, #[trigger] r@[q]),
                forall|q: int|
                    j <= q < r@.len() ==> #[trigger] resolve(modules@, r@)[q].selectors@.len() > key,
            decreases j,
        {
            j -= 1;
        }
        let ghost t = resolve(modules@, r@);
        proof {
            lemma_insert_position(t, mapping_at(modules@, p), j as int);
            assert(a.take(i as int + 1).drop_last() =~= a.take(i as int));
            assert(a.take(i as int + 1).last() == mapping_at(modules@, p));
        }
        let ghost before = r@;
        r.insert(j, p);
        proof {
            assert(resolve(modules@, r@) =~= t.insert(j as int, mapping_at(modules@, p)));
            assert forall|q: int| 0 <= q < r@.len() implies position_valid(modules@, #[trigger] r@[q]) by {
                if q < j {
                    assert(r@[q] == before[q]);
                } else if q > j {
                    assert(r@[q] == before[q - 1]);
                }
            }
        }
        i += 1;
    }
    proof {
        assert(a.take(active@.len() as int) =~= a);
    }
    r
}

/// The entries of each mapping of a map of mappings.
pub open spec fn nested_view(m: InsertOrderMap<InsertOrderMap<Vec<String>>>) -> Map<
    Seq<char>,
    Map<Seq<char>, Seq<String>>,
> {
    m.map_view().map_values(|e: InsertOrderMap<Vec<String>>| entries_view(e.map_view()))
}

/// No key appears twice, in the map or in any of its mappings.
pub open spec fn nested_wf(m: InsertOrderMap<InsertOrderMap<Vec<String>>>) -> bool {
    &&& m.wf()
    &&& forall|k: Seq<char>| #[trigger] m.map_view().contains_key(k) ==> m.map_view()[k].wf()
}

/// What merging keeps of the mappings named `n` among `t`: their top layer,
/// the specificity of the first of them on it, and their merged entries.
spec fn group_state(
    t: Seq<ConditionalMapping>,
    n: Seq<char>,
    info: (i32, usize),
    entries: Map<Seq<char>, Seq<String>>,
) -> bool {
    let g = named(t, n);
    let tg = on_layer(g, info.0 as int);
    &&& info.0 == top_layer(g)
    &&& tg.len() > 0
    &&& info.1 == tg[0].selectors@.len()
    &&& entries == merged_entries(n, tg)
}

proof fn lemma_merged_single(n: Seq<char>, m: ConditionalMapping)
    ensures
        merged_entries(n, Seq::empty().push(m)) == entries_view(m.entries.map_view()),
{
    let g = Seq::<ConditionalMapping>::empty().push(m);
    assert(g.drop_last() =~= Seq::<ConditionalMapping>::empty());
    assert(merged_entries(n, g.drop_last()) == Map::<Seq<char>, Seq<String>>::empty());
    assert(merged_entries(n, g) =~= entries_view(m.entries.map_view()));
}

/// The mappings at the positions `sorted` merged by name (see `merged_mappings`).
fn merge_by_name(modules: &Vec<ConfigModule>, sorted: &Vec<(usize, usize)>) -> (r: InsertOrderMap<
    InsertOrderMap<Vec<String>>,
>)
    requires
        forall|j: int| 0 <= j < sorted@.len() ==> position_valid(modules@, #[trigger] sorted@[j]),
        forall|i: int| 0 <= i < modules@.len() ==> (#[trigger] modules@[i]).wf(),
    ensures
        nested_wf(r),
        nested_view(r) == merged_mappings(resolve(modules@, sorted@)),
{
    let ghost s = resolve(modules@, sorted@);
    let mut info: InsertOrderMap<(i32, usize)> = InsertOrderMap::new();
    let mut ents: InsertOrderMap<InsertOrderMap<Vec<String>>> = InsertOrderMap::new();
    let mut i: usize = 0;
    while i < sorted.len()
        invariant
            s == resolve(modules@, sorted@),
            i <= sorted@.len(),
            forall|j: int| 0 <= j < sorted@.len() ==> position_valid(modules@, #[trigger] sorted@[j]),
            forall|q: int| 0 <= q < modules@.len() ==> (#[trigger] modules@[q]).wf(),
            info.wf(),
            nested_wf(ents),
            forall|n: Seq<char>| #[trigger]
                info.map_view().contains_key(n) == (named(s.take(i as int), n).len() > 0),
            forall|n: Seq<char>| #[trigger]
                ents.map_view().contains_key(n) == info.map_view().contains_key(n),
            forall|n: Seq<char>| #[trigger]
                info.map_view().contains_key(n) ==> group_state(
                    s.take(i as int),
                    n,
                    info.map_view()[n],
                    entries_view(ents.map_view()[n].map_view()),
                ),
        decreases sorted@.len() - i,
    {
        let p = sorted[i];
        let m = &modules[p.0].mappings[p.1];
        let ghost t = s.take(i as int);
        let ghost n0 = m.name@;
        proof {
            assert(s.take(i as int + 1) =~= t.push(*m));
            assert(modules@[p.0 as int].wf());
            assert(m.entries.wf());
        }
        let ghost old_info = info;
        let ghost old_ents = ents;
        let sp = m.specificity();
        let found: Option<(i32, usize)> = match info.get(m.name.as_str()) {
            Some(c) => Some(*c),
            None => None,
        };
        let fresh = match found {
            None => true,
            Some((top, _)) => m.layer > top,
        };
        if fresh {
            let empty: InsertOrderMap<Vec<String>> = InsertOrderMap::new();
            proof {
                assert(entries_view(empty.map_view()) =~= Map::<Seq<char>, Seq<String>>::empty());
            }
            let e = merge_entries(empty, &m.entries, false);
            info.insert(m.name.clone(), (m.layer, sp));
            ents.insert(m.name.clone(), e);
            proof {
                let g = named(t, n0);
                lemma_named_push(t, *m, n0);
                lemma_merged_single(n0, *m);
                assert(merge_entries_spec(Map::empty(), entries_view(m.entries.map_view()), false)
                    =~= entries_view(m.entries.map_view()));
                if g.len() == 0 {
                    assert(g =~= Seq::<ConditionalMapping>::empty());
                } else {
                    assert(old_info.map_view().contains_key(n0));
                    assert(group_state(t, n0, old_info.map_view()[n0], entries_view(old_ents.map_view()[n0].map_view())));
                    assert(m.layer > top_layer(g));
                    lemma_top_layer_bound(g);
                    lemma_on_layer_none(g, m.layer as int);
                    assert(on_layer(g, m.layer as int) =~= Seq::<ConditionalMapping>::empty());
                }
                lemma_top_layer_push(g, *m);
                lemma_on_layer_push(g, *m, m.layer as int);
                assert(on_layer(named(t.push(*m), n0), m.layer as int) =~= Seq::empty().push(*m));
                assert(top_layer(named(t.push(*m), n0)) == m.layer);
                assert(entries_view(ents.map_view()[n0].map_view()) == entries_view(m.entries.map_view()));
                assert(group_state(t.push(*m), n0, info.map_view()[n0], entries_view(ents.map_view()[n0].map_view())));
            }
        } else {
            let (top, sp0) = match found {
                Some(c) => c,
                None => (0, 0),
            };
            if m.layer == top {
                let merge = str_eq(m.name.as_str(), "hooks") || sp == sp0;
                proof {
                    assert(old_info.map_view().contains_key(n0));
                    assert(ents.map_view().contains_key(n0));
                    assert(ents.map_view()[n0].wf());
                }
                let prev = ents.remove(m.name.as_str());
                match prev {
                    Some(prev) => {
                        let e = merge_entries(prev, &m.entries, merge);
                        ents.insert(m.name.clone(), e);
                    },
                    None => {},
                }
                proof {
                    let g = named(t, n0);
                    assert(old_info.map_view().contains_key(n0));
                    assert(group_state(t, n0, old_info.map_view()[n0], entries_view(old_ents.map_view()[n0].map_view())));
                    lemma_named_push(t, *m, n0);
                    lemma_top_layer_push(g, *m);
                    lemma_on_layer_push(g, *m, top as int);
                    let tg = on_layer(g, top as int);
                    assert(tg.push(*m).drop_last() =~= tg);
                    assert(tg.push(*m)[0] == tg[0]);
                    assert(group_state(t.push(*m), n0, info.map_view()[n0], entries_view(ents.map_view()[n0].map_view())));
                }
            } else {
                proof {
                    let g = named(t, n0);
                    assert(old_info.map_view().contains_key(n0));
                    lemma_named_push(t, *m, n0);
                    lemma_top_layer_push(g, *m);
                    lemma_on_layer_push(g, *m, top as int);
                    assert(group_state(t, n0, old_info.map_view()[n0], entries_view(old_ents.map_view()[n0].map_view())));
                    assert(group_state(t.push(*m), n0, info.map_view()[n0], entries_view(ents.map_view()[n0].map_view())));
                }
            }
        }
        proof {
            assert forall|n: Seq<char>| n != n0 implies #[trigger] named(t.push(*m), n) == named(t, n) by {
                lemma_named_push(t, *m, n);
            }
            assert forall|n: Seq<char>| #[trigger]
                info.map_view().contains_key(n) == (named(s.take(i as int + 1), n).len() > 0) by {
                if n != n0 {
                    assert(named(t.push(*m), n) == named(t, n));
                    assert(old_info.map_view().contains_key(n) == (named(t, n).len() > 0));
                } else {
                    lemma_named_push(t, *m, n);
                }
            }
            assert forall|n: Seq<char>| #[trigger]
                ents.map_view().contains_key(n) == info.map_view().contains_key(n) by {
                assert(old_ents.map_view().contains_key(n) == old_info.map_view().contains_key(n));
            }
            assert forall|n: Seq<char>| #[trigger] info.map_view().contains_key(n) implies group_state(
                s.take(i as int + 1),
                n,
                info.map_view()[n],
                entries_view(ents.map_view()[n].map_view()),
            ) by {
                if n != n0 {
                    assert(named(t.push(*m), n) == named(t, n));
                    assert(old_info.map_view().contains_key(n));
                    assert(group_state(t, n, old_info.map_view()[n], entries_view(old_ents.map_view()[n].map_view())));
                }
            }
            assert forall|k: Seq<char>| #[trigger] ents.map_view().contains_key(k) implies ents.map_view()[k].wf() by {
                if k != n0 {
                    assert(old_ents.map_view().contains_key(k));
                }
            }
        }
        i += 1;
    }
    proof {
        assert(s.take(sorted@.len() as int) =~= s);
        assert forall|n: Seq<char>| #[trigger] info.map_view().contains_key(n) implies info.map_view()[n].0 == top_layer(named(s, n)) by {
            assert(group_state(s, n, info.map_view()[n], entries_view(ents.map_view()[n].map_view())));
        }
        assert(nested_view(ents) =~= merged_mappings(s));
    }
    ents
}

/// The `syntax` mapping of `mappings`: the patterns of each syntax rule.
pub open spec fn syntax_of(mappings: Map<Seq<char>, Map<Seq<char>, Seq<String>>>) -> Map<
    Seq<char>,
    Seq<String>,
> {
    if mappings.contains_key("syntax"@) {
        mappings["syntax"@]
    } else {
        Map::empty()
    }
}

/// The indent size that `mappings` sets: the first value of `indent-size`
/// in the `editor` mapping, read as a `u8`, and 4 failing that.
pub open spec fn indent_size_of(mappings: Map<Seq<char>, Map<Seq<char>, Seq<String>>>) -> int {
    if mappings.contains_key("editor"@) && mappings["editor"@].contains_key("indent-size"@)
        && mappings["editor"@]["indent-size"@].len() > 0 {
        match parse_u8_spec(mappings["editor"@]["indent-size"@][0]@) {
            Ok(n) => n as int,
            Err(_) => 4,
        }
    } else {
        4
    }
}

/// The color that the values of a theme entry give: the first value read
/// as `#rrggbb`.
pub open spec fn theme_color(values: Seq<String>) -> Result<Color, ()> {
    if values.len() > 0 {
        color_from_hex_spec(vstd::utf8::encode_utf8(values[0]@))
    } else {
        Err(())
    }
}

/// The colors of the `theme` mapping of `mappings`: each entry whose first
/// value is a color.
pub open spec fn theme_of(mappings: Map<Seq<char>, Map<Seq<char>, Seq<String>>>) -> Map<Seq<char>, Color> {
    let t = if mappings.contains_key("theme"@) {
        mappings["theme"@]
    } else {
        Map::empty()
    };
    Map::new(
        |k: Seq<char>| t.contains_key(k) && theme_color(t[k]).is_ok(),
        |k: Seq<char>| theme_color(t[k])->Ok_0,
    )
}

/// The configuration that applying the state gives.
#[derive(Debug)]
pub struct AppliedConfig {
    /// The entries of each mapping, by mapping name.
    pub mappings: InsertOrderMap<InsertOrderMap<Vec<String>>>,
    /// The patterns of each syntax rule.
    pub syntax: InsertOrderMap<Vec<String>>,
    pub editor: EditorConfig,
    pub theme: InsertOrderMap<Color>,
}

impl AppliedConfig {
    /// No key appears twice; the indent size comes from a `u8`.
    pub open spec fn wf(self) -> bool {
        &&& nested_wf(self.mappings)
        &&& self.syntax.wf()
        &&& self.editor.wf()
        &&& self.theme.wf()
    }

    /// The entries of each mapping.
    pub open spec fn mappings_view(self) -> Map<Seq<char>, Map<Seq<char>, Seq<String>>> {
        nested_view(self.mappings)
    }

    /// What an empty configuration applies: nothing, and the default editor settings.
    pub open spec fn is_empty_config(self) -> bool {
        &&& self.mappings_view() == Map::<Seq<char>, Map<Seq<char>, Seq<String>>>::empty()
        &&& self.syntax.map_view() == Map::<Seq<char>, Vec<String>>::empty()
        &&& self.editor.indent_size == 4
        &&& self.theme.map_view() == Map::<Seq<char>, Color>::empty()
    }

    /// The entries of mapping `key`.
    pub fn get(&self, key: &str) -> (r: Option<&InsertOrderMap<Vec<String>>>)
        requires
            self.wf(),
        ensures
            r.is_some() == self.mappings_view().contains_key(key@),
            r matches Some(e) ==> e.wf() && entries_view(e.map_view()) == self.mappings_view()[key@],
    {
        self.mappings.get(key)
    }
}

impl Default for AppliedConfig {
    fn default() -> (r: Self)
        ensures
            r.wf(),
            r.is_empty_config(),
    {
        let r = AppliedConfig {
            mappings: InsertOrderMap::new(),
            syntax: InsertOrderMap::new(),
            editor: EditorConfig::default(),
            theme: InsertOrderMap::new(),
        };
        proof {
            assert(nested_view(r.mappings) =~= Map::<Seq<char>, Map<Seq<char>, Seq<String>>>::empty());
        }
        r
    }
}

/// The colors of the theme entries `t` (see `theme_of`).
fn theme_colors(t: &InsertOrderMap<Vec<String>>) -> (r: InsertOrderMap<Color>)
    requires
        t.wf(),
    ensures
        r.wf(),
        r.map_view() == Map::new(
            |k: Seq<char>| entries_view(t.map_view()).contains_key(k) && theme_color(entries_view(t.map_view())[k]).is_ok(),
            |k: Seq<char>| theme_color(entries_view(t.map_view())[k])->Ok_0,
        ),
{
    let ghost tv = entries_view(t.map_view());
    let mut r: InsertOrderMap<Color> = InsertOrderMap::new();
    let mut j: usize = 0;
    while j < t.entries.len()
        invariant
            r.wf(),
            t.wf(),
            tv == entries_view(t.map_view()),
            j <= t.entries@.len(),
            forall|k: Seq<char>| #[trigger]
                r.map_view().contains_key(k) == (t.has_key(k) && t.index_of_key(k) < j && theme_color(tv[k]).is_ok()),
            forall|k: Seq<char>| #[trigger]
                r.map_view().contains_key(k) ==> r.map_view()[k] == theme_color(tv[k])->Ok_0,
        decreases t.entries@.len() - j,
    {
        let key = &t.entries[j].0;
        let vals = &t.entries[j].1;
        proof {
            t.lemma_index_of_key(j as int);
            assert(tv[key@] == vals@);
        }
        let ghost before = r;
        if vals.len() > 0 {
            match Color::from_hex(vals[0].as_str()) {
                Ok(c) => {
                    r.insert(key.clone(), c);
                },
                Err(()) => {},
            }
        }
        proof {
            assert forall|k: Seq<char>| #[trigger]
                r.map_view().contains_key(k) == (t.has_key(k) && t.index_of_key(k) < j + 1 && theme_color(tv[k]).is_ok()) by {
                if k != key@ && t.has_key(k) {
                    assert(t.keys()[t.index_of_key(k)] == k);
                    assert(t.keys()[j as int] == key@);
                }
                assert(before.map_view().contains_key(k) == (t.has_key(k) && t.index_of_key(k) < j && theme_color(tv[k]).is_ok()));
            }
            assert forall|k: Seq<char>| #[trigger] r.map_view().contains_key(k) implies r.map_view()[k] == theme_color(tv[k])->Ok_0 by {
                if k != key@ {
                    assert(before.map_view().contains_key(k));
                }
            }
        }
        j += 1;
    }
    proof {
        assert forall|k: Seq<char>| t.has_key(k) implies t.index_of_key(k) < j by {
            assert(t.keys()[t.index_of_key(k)] == k);
        }
        assert(r.map_view() =~= Map::new(
            |k: Seq<char>| tv.contains_key(k) && theme_color(tv[k]).is_ok(),
            |k: Seq<char>| theme_color(tv[k])->Ok_0,
        ));
    }
    r
}

/// Applies the configuration state `state` to the modules `modules`: the
/// active mappings, ordered by increasing specificity, are merged by name;
/// the syntax rules, editor settings and theme colors are read from the
/// result.
pub fn build_applied_config(modules: &Vec<ConfigModule>, state: &ConfigState) -> (r: AppliedConfig)
    requires
        state.wf(),
        forall|i: int| 0 <= i < modules@.len() ==> (#[trigger] modules@[i]).wf(),
    ensures
        r.wf(),
        r.mappings_view() == applied_mappings(modules@, state.view_spec()),
        entries_view(r.syntax.map_view()) == syntax_of(r.mappings_view()),
        r.editor.indent_size == indent_size_of(r.mappings_view()),
        r.theme.map_view() == theme_of(r.mappings_view()),
{
    let active = active_positions(modules, state);
    let sorted = sort_positions(modules, &active);
    let mappings = merge_by_name(modules, &sorted);
    let ghost mv = nested_view(mappings);
    let syntax = match mappings.get("syntax") {
        Some(e) => merge_entries(InsertOrderMap::new(), e, false),
        None => InsertOrderMap::new(),
    };
    proof {
        if mv.contains_key("syntax"@) {
            assert(mappings.map_view().contains_key("syntax"@));
        }
        assert(entries_view(syntax.map_view()) =~= syntax_of(mv));
    }
    let mut editor = EditorConfig::default();
    match mappings.get("editor") {
        Some(e) => {
            proof {
                assert(mappings.map_view().contains_key("editor"@));
            }
            match e.get("indent-size") {
                Some(v) => {
                    if v.len() > 0 {
                        match parse_u8(v[0].as_str()) {
                            Ok(n) => {
                                editor.indent_size = n as i32;
                            },
                            Err(()) => {},
                        }
                    }
                },
                None => {},
            }
        },
        None => {},
    }
    let theme = match mappings.get("theme") {
        Some(t) => {
            proof {
                assert(mappings.map_view().contains_key("theme"@));
            }
            theme_colors(t)
        },
        None => InsertOrderMap::new(),
    };
    proof {
        assert(theme.map_view() =~= theme_of(mv));
    }
    AppliedConfig { mappings, syntax, editor, theme }
}

/// A mapping without selectors is always active.
pub proof fn law_no_selectors_always_active(m: ConditionalMapping, states: Map<Seq<char>, Seq<char>>)
    requires
        m.selectors@.len() == 0,
    ensures
        m.active_in(states),
{
}

/// Adding a module none of whose mappings is active changes nothing.
pub proof fn law_inactive_module_changes_nothing(
    mods: Seq<ConfigModule>,
    module: ConfigModule,
    states: Map<Seq<char>, Seq<char>>,
)
    requires
        forall|j: int| 0 <= j < module.mappings@.len() ==> !(#[trigger] module.mappings@[j]).active_in(states),
    ensures
        applied_mappings(mods.push(module), states) == applied_mappings(mods, states),
{
    lemma_none_active(module.mappings@, states);
    assert(mods.push(module).drop_last() =~= mods);
    assert(active_mappings(mods.push(module), states) =~= active_mappings(mods, states));
}

proof fn lemma_none_active(ms: Seq<ConditionalMapping>, states: Map<Seq<char>, Seq<char>>)
    requires
        forall|j: int| 0 <= j < ms.len() ==> !(#[trigger] ms[j]).active_in(states),
    ensures
        active_among(ms, states) == Seq::<ConditionalMapping>::empty(),
    decreases ms.len(),
{
    if ms.len() > 0 {
        assert forall|j: int| 0 <= j < ms.drop_last().len() implies !(#[trigger] ms.drop_last()[j]).active_in(states) by {
            assert(ms.drop_last()[j] == ms[j]);
        }
        lemma_none_active(ms.drop_last(), states);
        assert(!ms[ms.len() - 1].active_in(states));
    }
}

/// Of two mappings of one name and layer, the more specific one's values
/// replace the other's (but in `hooks`).
pub proof fn law_more_specific_replaces(
    name: Seq<char>,
    m1: ConditionalMapping,
    m2: ConditionalMapping,
    k: Seq<char>,
)
    requires
        name != "hooks"@,
        m1.selectors@.len() < m2.selectors@.len(),
        entries_view(m2.entries.map_view()).contains_key(k),
    ensures
        merged_entries(name, seq![m1, m2]).contains_key(k),
        merged_entries(name, seq![m1, m2])[k] == entries_view(m2.entries.map_view())[k],
{
    assert(seq![m1, m2].drop_last() =~= seq![m1]);
    assert(seq![m1].drop_last() =~= Seq::<ConditionalMapping>::empty());
}

/// Of two equally specific mappings of one name and layer, the values of
/// the later one come first, followed by those of the earlier one.
pub proof fn law_equally_specific_merge(
    name: Seq<char>,
    m1: ConditionalMapping,
    m2: ConditionalMapping,
    k: Seq<char>,
)
    requires
        m1.selectors@.len() == m2.selectors@.len(),
        entries_view(m1.entries.map_view()).contains_key(k),
        entries_view(m2.entries.map_view()).contains_key(k),
    ensures
        merged_entries(name, seq![m1, m2]).contains_key(k),
        merged_entries(name, seq![m1, m2])[k] == entries_view(m2.entries.map_view())[k] + entries_view(
            m1.entries.map_view(),
        )[k],
{
    let e1 = entries_view(m1.entries.map_view());
    assert(seq![m1, m2].drop_last() =~= seq![m1]);
    assert(seq![m1].drop_last() =~= Seq::<ConditionalMapping>::empty());
    assert(merged_entries(name, Seq::<ConditionalMapping>::empty()) == Map::<Seq<char>, Seq<String>>::empty());
    let prev = merged_entries(name, seq![m1]);
    assert(prev.contains_key(k) && prev[k] == e1[k]);
    assert(seq![m1, m2][0] == m1);
    assert(seq![m1, m2].last() == m2);
}

/// Whether the state values `a` and `b` agree on every state that a
/// selector of `mods` targets.
pub open spec fn agree_on_targets(mods: Seq<ConfigModule>, a: Map<Seq<char>, Seq<char>>, b: Map<Seq<char>, Seq<char>>) -> bool {
    forall|i: int, j: int, k: int|
        0 <= i < mods.len() && 0 <= j < mods[i].mappings@.len() && 0 <= k < mods[i].mappings@[j].selectors@.len()
            ==> {
            let t = (#[trigger] mods[i].mappings@[j].selectors@[k]).targeted_state@;
            &&& a.contains_key(t) == b.contains_key(t)
            &&& a.contains_key(t) ==> a[t] == b[t]
        }
}

proof fn lemma_active_among_agree(ms: Seq<ConditionalMapping>, a: Map<Seq<char>, Seq<char>>, b: Map<Seq<char>, Seq<char>>)
    requires
        forall|j: int| 0 <= j < ms.len() ==> (#[trigger] ms[j]).active_in(a) == ms[j].active_in(b),
    ensures
        active_among(ms, a) == active_among(ms, b),
    decreases ms.len(),
{
    if ms.len() > 0 {
        assert forall|j: int| 0 <= j < ms.drop_last().len() implies (#[trigger] ms.drop_last()[j]).active_in(a)
            == ms.drop_last()[j].active_in(b) by {
            assert(ms.drop_last()[j] == ms[j]);
        }
        lemma_active_among_agree(ms.drop_last(), a, b);
        assert(ms.last() == ms[ms.len() - 1]);
    }
}

/// Changing states that no selector targets changes nothing: the applied
/// mappings depend on the targeted states alone.
pub proof fn law_untargeted_states_change_nothing(
    mods: Seq<ConfigModule>,
    a: Map<Seq<char>, Seq<char>>,
    b: Map<Seq<char>, Seq<char>>,
)
    requires
        agree_on_targets(mods, a, b),
    ensures
        applied_mappings(mods, a) == applied_mappings(mods, b),
{
    lemma_active_mappings_agree(mods, a, b);
}

proof fn lemma_active_mappings_agree(mods: Seq<ConfigModule>, a: Map<Seq<char>, Seq<char>>, b: Map<Seq<char>, Seq<char>>)
    requires
        agree_on_targets(mods, a, b),
    ensures
        active_mappings(mods, a) == active_mappings(mods, b),
    decreases mods.len(),
{
    if mods.len() > 0 {
        let d = mods.drop_last();
        assert forall|i: int, j: int, k: int|
            0 <= i < d.len() && 0 <= j < d[i].mappings@.len() && 0 <= k < d[i].mappings@[j].selectors@.len()
            implies {
            let t = (#[trigger] d[i].mappings@[j].selectors@[k]).targeted_state@;
            &&& a.contains_key(t) == b.contains_key(t)
            &&& a.contains_key(t) ==> a[t] == b[t]
        } by {
            assert(d[i] == mods[i]);
            assert(mods[i].mappings@[j].selectors@[k] == d[i].mappings@[j].selectors@[k]);
        }
        lemma_active_mappings_agree(d, a, b);
        let last = mods.len() - 1;
        let ms = mods.last().mappings@;
        assert forall|j: int| 0 <= j < ms.len() implies (#[trigger] ms[j]).active_in(a) == ms[j].active_in(b) by {
            assert forall|k: int| 0 <= k < ms[j].selectors@.len() implies (#[trigger] ms[j].selectors@[k]).selects(a)
                == ms[j].selectors@[k].selects(b) by {
                assert(mods[last].mappings@[j].selectors@[k] == ms[j].selectors@[k]);
            }
        }
        lemma_active_among_agree(ms, a, b);
    }
}

} // verus!
