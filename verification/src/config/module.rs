//! The mappings of a configuration module, read from its syntax tree.

use vstd::prelude::*;

use crate::config::insert_order_map::InsertOrderMap;
use crate::config::{Selector, anchored};
use crate::config_parser::ast::{Ast, Block, BlockKind, Entry, Template, TemplatePart};
use crate::pattern::regex_compiles_of;
use crate::text::{push_str, to_owned_string};

verus! {

/// A part of a templated string: text, or a substitution by name.
#[derive(Debug)]
pub enum TemplatedStringPart {
    String(String),
    Substitution(String),
}

/// A string made of text and substitutions.
#[derive(Debug)]
pub struct TemplatedString {
    pub parts: Vec<TemplatedStringPart>,
}

/// An entry of a mapping: its name and its values.
#[derive(Debug)]
pub struct MappingEntry {
    pub name: TemplatedString,
    pub values: Vec<TemplatedString>,
}

/// A mapping of a module: active when all its selectors hold, on its layer.
#[derive(Debug)]
pub struct ModuleMapping {
    pub name: String,
    pub selectors: Vec<Selector>,
    pub layer: i32,
    pub entries: Vec<MappingEntry>,
}

/// Why a module's tree gives no mappings.
#[derive(Debug)]
pub enum ModuleError {
    /// The text did not parse.
    Syntax,
    /// A selector's anchored pattern does not compile.
    InvalidSelector(String),
    /// A mixin inside another block.
    NestedMixin(String),
    /// A `use` of a mixin not defined before it.
    UnknownMixin(String),
    /// A layer past the range of `i32`.
    LayerOverflow,
}

/// A part of a templated string, as characters.
pub enum PartView {
    Text(Seq<char>),
    Substitution(Seq<char>),
}

pub open spec fn part_view(p: TemplatedStringPart) -> PartView {
    match p {
        TemplatedStringPart::String(s) => PartView::Text(s@),
        TemplatedStringPart::Substitution(s) => PartView::Substitution(s@),
    }
}

pub open spec fn parts_view(v: Seq<TemplatedStringPart>) -> Seq<PartView> {
    v.map_values(|p: TemplatedStringPart| part_view(p))
}

pub open spec fn template_view(t: TemplatedString) -> Seq<PartView> {
    parts_view(t.parts@)
}

pub open spec fn templates_view(v: Seq<TemplatedString>) -> Seq<Seq<PartView>> {
    v.map_values(|t: TemplatedString| template_view(t))
}

pub open spec fn entry_view(e: MappingEntry) -> (Seq<PartView>, Seq<Seq<PartView>>) {
    (template_view(e.name), templates_view(e.values@))
}

pub open spec fn entries_view(v: Seq<MappingEntry>) -> Seq<(Seq<PartView>, Seq<Seq<PartView>>)> {
    v.map_values(|e: MappingEntry| entry_view(e))
}

/// A mapping, as characters and integers.
pub struct MappingView {
    pub name: Seq<char>,
    /// Each selector's state and anchored pattern.
    pub selectors: Seq<(Seq<char>, Seq<char>)>,
    pub layer: int,
    pub entries: Seq<(Seq<PartView>, Seq<Seq<PartView>>)>,
}

pub open spec fn selector_view(s: Selector) -> (Seq<char>, Seq<char>) {
    (s.targeted_state@, s.pattern@)
}

pub open spec fn selectors_view(v: Seq<Selector>) -> Seq<(Seq<char>, Seq<char>)> {
    v.map_values(|s: Selector| selector_view(s))
}

pub open spec fn mapping_view(m: ModuleMapping) -> MappingView {
    MappingView {
        name: m.name@,
        selectors: selectors_view(m.selectors@),
        layer: m.layer as int,
        entries: entries_view(m.entries@),
    }
}

pub open spec fn mappings_view(v: Seq<ModuleMapping>) -> Seq<MappingView> {
    v.map_values(|m: ModuleMapping| mapping_view(m))
}

/// The mappings of each mixin.
pub open spec fn mixins_view(m: InsertOrderMap<Vec<ModuleMapping>>) -> Map<Seq<char>, Seq<MappingView>> {
    m.map_view().map_values(|v: Vec<ModuleMapping>| mappings_view(v@))
}

/// A module error, as characters.
pub enum ErrorView {
    Syntax,
    InvalidSelector(Seq<char>),
    NestedMixin(Seq<char>),
    UnknownMixin(Seq<char>),
    LayerOverflow,
}

pub open spec fn error_view(e: ModuleError) -> ErrorView {
    match e {
        ModuleError::Syntax => ErrorView::Syntax,
        ModuleError::InvalidSelector(p) => ErrorView::InvalidSelector(p@),
        ModuleError::NestedMixin(n) => ErrorView::NestedMixin(n@),
        ModuleError::UnknownMixin(n) => ErrorView::UnknownMixin(n@),
        ModuleError::LayerOverflow => ErrorView::LayerOverflow,
    }
}

/// Reading the parts of a value in order: the finished parts, and the text
/// gathered since the last substitution. Spans and escapes add to the text;
/// a substitution closes it (even when empty) and follows it.
pub open spec fn template_fold(parts: Seq<TemplatePart>) -> (Seq<PartView>, Seq<char>)
    decreases parts.len(),
{
    if parts.len() == 0 {
        (Seq::empty(), Seq::empty())
    } else {
        let (done, buf) = template_fold(parts.drop_last());
        match parts.last() {
            TemplatePart::Span(s) => (done, buf + s@),
            TemplatePart::Escape(w) => (done, buf + w@),
            TemplatePart::Substitution(n) => (done + seq![PartView::Text(buf), PartView::Substitution(n@)], Seq::empty()),
        }
    }
}

/// The templated string of a value: its finished parts, then the text
/// gathered last when there is some.
pub open spec fn template_of(parts: Seq<TemplatePart>) -> Seq<PartView> {
    let (done, buf) = template_fold(parts);
    if buf.len() > 0 {
        done.push(PartView::Text(buf))
    } else {
        done
    }
}

/// An entry of the tree as a mapping entry: its name as plain text, each
/// value as a templated string.
pub open spec fn entry_of(e: Entry) -> (Seq<PartView>, Seq<Seq<PartView>>) {
    (seq![PartView::Text(e.name@)], e.values@.map_values(|t: Template| template_of(t.parts@)))
}

/// The mappings of a mixin, used under the selectors `stack` of the `use`:
/// each mapping's layer raised by `parent_layer`, the selectors appended.
pub open spec fn used_mappings(ms: Seq<MappingView>, stack: Seq<(Seq<char>, Seq<char>)>, parent_layer: int) -> Seq<
    MappingView,
> {
    ms.map_values(
        |m: MappingView|
            MappingView { name: m.name, selectors: m.selectors + stack, layer: m.layer + parent_layer, entries: m.entries },
    )
}

/// The mappings that block `b` adds, and the mixins after it, under the
/// selectors `stack` and the layer `parent_layer`; `top` for a block at the
/// top level. An `override` block is on layer 1. A selector block adds its
/// selector to the stack of its children; a mapping block adds one mapping;
/// a mixin (at the top level only) keeps its children's mappings under its
/// name; a `use` adds the mappings of a mixin defined before it.
pub open spec fn walk_block(
    b: Block,
    stack: Seq<(Seq<char>, Seq<char>)>,
    parent_layer: int,
    top: bool,
    mx: Map<Seq<char>, Seq<MappingView>>,
) -> Result<(Seq<MappingView>, Map<Seq<char>, Seq<MappingView>>), ErrorView>
    decreases b,
{
    let layer = if b.is_override {
        1
    } else {
        parent_layer
    };
    match b.kind {
        BlockKind::Selector(sb) => {
            let pat = anchored(sb.pattern@);
            if !regex_compiles_of(pat) {
                Err(ErrorView::InvalidSelector(pat))
            } else {
                walk_blocks(sb.children@, stack.push((sb.state_name@, pat)), layer, false, mx)
            }
        },
        BlockKind::Mapping(mb) => Ok(
            (
                seq![MappingView {
                    name: mb.name@,
                    selectors: stack,
                    layer,
                    entries: mb.entries@.map_values(|e: Entry| entry_of(e)),
                }],
                mx,
            ),
        ),
        BlockKind::Mixin(xb) => {
            if !top {
                Err(ErrorView::NestedMixin(xb.name@))
            } else {
                match walk_blocks(xb.children@, stack, layer, false, mx) {
                    Ok((ms, mx2)) => Ok((Seq::empty(), mx2.insert(xb.name@, ms))),
                    Err(e) => Err(e),
                }
            }
        },
        BlockKind::Use(name) => {
            if !mx.contains_key(name@) {
                Err(ErrorView::UnknownMixin(name@))
            } else if exists|i: int| 0 <= i < mx[name@].len() && mx[name@][i].layer + parent_layer > i32::MAX {
                Err(ErrorView::LayerOverflow)
            } else {
                Ok((used_mappings(mx[name@], stack, parent_layer), mx))
            }
        },
    }
}

/// The mappings that the blocks `bs` add in order, and the mixins after
/// them (see `walk_block`); the first error stops the walk.
pub open spec fn walk_blocks(
    bs: Seq<Block>,
    stack: Seq<(Seq<char>, Seq<char>)>,
    layer: int,
    top: bool,
    mx: Map<Seq<char>, Seq<MappingView>>,
) -> Result<(Seq<MappingView>, Map<Seq<char>, Seq<MappingView>>), ErrorView>
    decreases bs,
{
    if bs.len() == 0 {
        Ok((Seq::empty(), mx))
    } else {
        match walk_blocks(bs.drop_last(), stack, layer, top, mx) {
            Err(e) => Err(e),
            Ok((ms, mx1)) => match walk_block(bs.last(), stack, layer, top, mx1) {
                Err(e) => Err(e),
                Ok((ms2, mx2)) => Ok((ms + ms2, mx2)),
            },
        }
    }
}

/// The mappings of a module read from its tree, from the top, with no
/// selector, on layer 0.
pub open spec fn module_spec(ast: Ast) -> Result<Seq<MappingView>, ErrorView> {
    match walk_blocks(ast.top_level_blocks@, Seq::empty(), 0, true, Map::empty()) {
        Ok((ms, _)) => Ok(ms),
        Err(e) => Err(e),
    }
}

fn clone_selector(s: &Selector) -> (r: Selector)
    ensures
        selector_view(r) == selector_view(*s),
{
    Selector { targeted_state: to_owned_string(s.targeted_state.as_str()), pattern: to_owned_string(s.pattern.as_str()) }
}

fn clone_selectors(v: &Vec<Selector>) -> (r: Vec<Selector>)
    ensures
        selectors_view(r@) == selectors_view(v@),
{
    let mut r: Vec<Selector> = Vec::new();
    let mut i: usize = 0;
    while i < v.len()
        invariant
            i <= v.len(),
            selectors_view(r@) == selectors_view(v@.take(i as int)),
        decreases v.len() - i,
    {
        let ghost b = r@;
        r.push(clone_selector(&v[i]));
        proof {
            assert(selectors_view(r@) =~= selectors_view(b).push(selector_view(v@[i as int])));
            assert(selectors_view(v@.take(i + 1)) =~= selectors_view(v@.take(i as int)).push(selector_view(v@[i as int])));
        }
        i += 1;
    }
    proof {
        assert(v@.take(i as int) =~= v@);
    }
    r
}

fn clone_template(t: &TemplatedString) -> (r: TemplatedString)
    ensures
        template_view(r) == template_view(*t),
{
    let mut parts: Vec<TemplatedStringPart> = Vec::new();
    let mut i: usize = 0;
    while i < t.parts.len()
        invariant
            i <= t.parts@.len(),
            parts@.map_values(|p: TemplatedStringPart| part_view(p)) == t.parts@.take(i as int).map_values(
                |p: TemplatedStringPart| part_view(p),
            ),
        decreases t.parts@.len() - i,
    {
        let p = match &t.parts[i] {
            TemplatedStringPart::String(s) => TemplatedStringPart::String(to_owned_string(s.as_str())),
            TemplatedStringPart::Substitution(s) => TemplatedStringPart::Substitution(to_owned_string(s.as_str())),
        };
        let ghost b = parts@;
        parts.push(p);
        proof {
            assert(parts@.map_values(|p: TemplatedStringPart| part_view(p)) =~= b.map_values(
                |p: TemplatedStringPart| part_view(p),
            ).push(part_view(t.parts@[i as int])));
            assert(t.parts@.take(i + 1).map_values(|p: TemplatedStringPart| part_view(p)) =~= t.parts@.take(
                i as int,
            ).map_values(|p: TemplatedStringPart| part_view(p)).push(part_view(t.parts@[i as int])));
        }
        i += 1;
    }
    proof {
        assert(t.parts@.take(i as int) =~= t.parts@);
    }
    TemplatedString { parts }
}

fn clone_templates(v: &Vec<TemplatedString>) -> (r: Vec<TemplatedString>)
    ensures
        templates_view(r@) == templates_view(v@),
{
    let mut r: Vec<TemplatedString> = Vec::new();
    let mut i: usize = 0;
    while i < v.len()
        invariant
            i <= v.len(),
            templates_view(r@) == templates_view(v@.take(i as int)),
        decreases v.len() - i,
    {
        let ghost b = r@;
        r.push(clone_template(&v[i]));
        proof {
            assert(templates_view(r@) =~= templates_view(b).push(template_view(v@[i as int])));
            assert(templates_view(v@.take(i + 1)) =~= templates_view(v@.take(i as int)).push(template_view(v@[i as int])));
        }
        i += 1;
    }
    proof {
        assert(v@.take(i as int) =~= v@);
    }
    r
}

fn clone_entries(v: &Vec<MappingEntry>) -> (r: Vec<MappingEntry>)
    ensures
        entries_view(r@) == entries_view(v@),
{
    let mut r: Vec<MappingEntry> = Vec::new();
    let mut i: usize = 0;
    while i < v.len()
        invariant
            i <= v.len(),
            entries_view(r@) == entries_view(v@.take(i as int)),
        decreases v.len() - i,
    {
        let e = MappingEntry { name: clone_template(&v[i].name), values: clone_templates(&v[i].values) };
        let ghost b = r@;
        r.push(e);
        proof {
            assert(entries_view(r@) =~= entries_view(b).push(entry_view(v@[i as int])));
            assert(entries_view(v@.take(i + 1)) =~= entries_view(v@.take(i as int)).push(entry_view(v@[i as int])));
        }
        i += 1;
    }
    proof {
        assert(v@.take(i as int) =~= v@);
    }
    r
}

/// The templated string of the parts of a value (see `template_of`).
fn build_template(t: &Template) -> (r: TemplatedString)
    ensures
        template_view(r) == template_of(t.parts@),
{
    let mut parts: Vec<TemplatedStringPart> = Vec::new();
    let mut buf = String::new();
    let mut i: usize = 0;
    proof {
        assert(t.parts@.take(0) =~= Seq::<TemplatePart>::empty());
    }
    while i < t.parts.len()
        invariant
            i <= t.parts@.len(),
            (parts_view(parts@), buf@) == template_fold(t.parts@.take(i as int)),
        decreases t.parts@.len() - i,
    {
        proof {
            let tk = t.parts@.take(i + 1);
            assert(tk.drop_last() =~= t.parts@.take(i as int));
            assert(tk.last() == t.parts@[i as int]);
        }
        match &t.parts[i] {
            TemplatePart::Span(s) => {
                push_str(&mut buf, s.as_str());
            },
            TemplatePart::Escape(w) => {
                push_str(&mut buf, w.as_str());
            },
            TemplatePart::Substitution(n) => {
                let ghost b = parts@;
                let ghost bv = buf@;
                let text = buf;
                parts.push(TemplatedStringPart::String(text));
                parts.push(TemplatedStringPart::Substitution(to_owned_string(n.as_str())));
                buf = String::new();
                proof {
                    assert(parts_view(parts@) =~= parts_view(b)
                        + seq![PartView::Text(bv), PartView::Substitution(n@)]);
                    assert(buf@ =~= Seq::<char>::empty());
                }
            },
        }
        i += 1;
    }
    proof {
        assert(t.parts@.take(i as int) =~= t.parts@);
    }
    if crate::text::char_count(buf.as_str()) > 0 {
        let ghost b = parts@;
        let ghost bv = buf@;
        parts.push(TemplatedStringPart::String(buf));
        proof {
            assert(parts_view(parts@) =~= parts_view(b).push(
                PartView::Text(bv),
            ));
        }
    } else {
        proof {
            assert(buf@.len() == 0);
        }
    }
    TemplatedString { parts }
}

/// The mapping entry of an entry of the tree (see `entry_of`).
fn build_entry(e: &Entry) -> (r: MappingEntry)
    ensures
        entry_view(r) == entry_of(*e),
{
    let mut name_parts: Vec<TemplatedStringPart> = Vec::new();
    name_parts.push(TemplatedStringPart::String(to_owned_string(e.name.as_str())));
    let name = TemplatedString { parts: name_parts };
    proof {
        assert(template_view(name) =~= seq![PartView::Text(e.name@)]);
    }
    let mut values: Vec<TemplatedString> = Vec::new();
    let mut i: usize = 0;
    while i < e.values.len()
        invariant
            i <= e.values@.len(),
            templates_view(values@) == e.values@.take(i as int).map_values(|t: Template| template_of(t.parts@)),
        decreases e.values@.len() - i,
    {
        let ghost b = values@;
        values.push(build_template(&e.values[i]));
        proof {
            assert(templates_view(values@) =~= templates_view(b).push(template_of(e.values@[i as int].parts@)));
            assert(e.values@.take(i + 1).map_values(|t: Template| template_of(t.parts@)) =~= e.values@.take(
                i as int,
            ).map_values(|t: Template| template_of(t.parts@)).push(template_of(e.values@[i as int].parts@)));
        }
        i += 1;
    }
    proof {
        assert(e.values@.take(i as int) =~= e.values@);
    }
    MappingEntry { name, values }
}

/// Once some first blocks fail, all the blocks fail with the same error.
proof fn lemma_walk_blocks_err(
    bs: Seq<Block>,
    k: int,
    stack: Seq<(Seq<char>, Seq<char>)>,
    layer: int,
    top: bool,
    mx: Map<Seq<char>, Seq<MappingView>>,
)
    requires
        0 <= k <= bs.len(),
        walk_blocks(bs.take(k), stack, layer, top, mx) is Err,
    ensures
        walk_blocks(bs, stack, layer, top, mx) == walk_blocks(bs.take(k), stack, layer, top, mx),
    decreases bs.len(),
{
    if k < bs.len() {
        assert(bs.drop_last().take(k) =~= bs.take(k));
        lemma_walk_blocks_err(bs.drop_last(), k, stack, layer, top, mx);
    } else {
        assert(bs.take(k) =~= bs);
    }
}

/// Appends the mappings that block `b` adds and updates the mixins (see
/// `walk_block`).
fn walk_block_exec(
    b: &Block,
    stack: &Vec<Selector>,
    parent_layer: i32,
    top: bool,
    out: &mut Vec<ModuleMapping>,
    mixins: &mut InsertOrderMap<Vec<ModuleMapping>>,
) -> (r: Result<(), ModuleError>)
    requires
        0 <= parent_layer <= 1,
        old(mixins).wf(),
    ensures
        final(mixins).wf(),
        match walk_block(*b, selectors_view(stack@), parent_layer as int, top, mixins_view(*old(mixins))) {
            Ok((ms, mx)) => r is Ok && mappings_view(final(out)@) == mappings_view(old(out)@) + ms && mixins_view(
                *final(mixins),
            ) == mx,
            Err(e) => r matches Err(x) && error_view(x) == e,
        },
    decreases b,
{
    let layer: i32 = if b.is_override {
        1
    } else {
        parent_layer
    };
    let ghost sv = selectors_view(stack@);
    match &b.kind {
        BlockKind::Selector(sb) => {
            let sel = match Selector::new(to_owned_string(sb.state_name.as_str()), sb.pattern.as_str()) {
                Ok(s) => s,
                Err(e) => {
                    return Err(ModuleError::InvalidSelector(e.pattern));
                },
            };
            let mut inner = clone_selectors(stack);
            let ghost sel_v = selector_view(sel);
            inner.push(sel);
            proof {
                assert(selectors_view(inner@) =~= sv.push(sel_v));
            }
            walk_blocks_exec(&sb.children, &inner, layer, false, out, mixins)
        },
        BlockKind::Mapping(mb) => {
            let mut entries: Vec<MappingEntry> = Vec::new();
            let mut i: usize = 0;
            while i < mb.entries.len()
                invariant
                    i <= mb.entries@.len(),
                    entries_view(entries@) == mb.entries@.take(i as int).map_values(|e: Entry| entry_of(e)),
                decreases mb.entries@.len() - i,
            {
                let ghost bf = entries@;
                entries.push(build_entry(&mb.entries[i]));
                proof {
                    assert(entries_view(entries@) =~= entries_view(bf).push(entry_of(mb.entries@[i as int])));
                    assert(mb.entries@.take(i + 1).map_values(|e: Entry| entry_of(e)) =~= mb.entries@.take(
                        i as int,
                    ).map_values(|e: Entry| entry_of(e)).push(entry_of(mb.entries@[i as int])));
                }
                i += 1;
            }
            proof {
                assert(mb.entries@.take(i as int) =~= mb.entries@);
            }
            let m = ModuleMapping {
                name: to_owned_string(mb.name.as_str()),
                selectors: clone_selectors(stack),
                layer,
                entries,
            };
            let ghost bo = out@;
            out.push(m);
            proof {
                assert(mappings_view(out@) =~= mappings_view(bo) + seq![mapping_view(m)]);
            }
            Ok(())
        },
        BlockKind::Mixin(xb) => {
            if !top {
                return Err(ModuleError::NestedMixin(to_owned_string(xb.name.as_str())));
            }
            let mut mm: Vec<ModuleMapping> = Vec::new();
            proof {
                assert(mappings_view(mm@) =~= Seq::<MappingView>::empty());
            }
            match walk_blocks_exec(&xb.children, stack, layer, false, &mut mm, mixins) {
                Ok(()) => {},
                Err(e) => {
                    return Err(e);
                },
            }
            let ghost before = *mixins;
            let ghost mmv = mappings_view(mm@);
            let _ = mixins.insert(to_owned_string(xb.name.as_str()), mm);
            proof {
                assert(mixins_view(*mixins) =~= mixins_view(before).insert(xb.name@, mmv));
                assert(mappings_view(out@) =~= mappings_view(out@) + Seq::<MappingView>::empty());
            }
            Ok(())
        },
        BlockKind::Use(name) => {
            let ms = match mixins.get(name.as_str()) {
                Some(v) => v,
                None => {
                    return Err(ModuleError::UnknownMixin(to_owned_string(name.as_str())));
                },
            };
            let ghost mx = mixins_view(*mixins);
            let ghost msv = mappings_view(ms@);
            proof {
                assert(mx.contains_key(name@));
                assert(mx[name@] == msv);
            }
            let mut i: usize = 0;
            while i < ms.len()
                invariant
                    i <= ms@.len(),
                    0 <= parent_layer <= 1,
                    msv == mappings_view(ms@),
                    forall|j: int| 0 <= j < i ==> msv[j].layer + parent_layer <= i32::MAX,
                    b.kind == BlockKind::Use(*name),
                    mixins.wf(),
                    mx == mixins_view(*mixins),
                    mx == mixins_view(*old(mixins)),
                    *mixins == *old(mixins),
                    mx.contains_key(name@),
                    mx[name@] == msv,
                decreases ms@.len() - i,
            {
                if ms[i].layer > i32::MAX - parent_layer {
                    proof {
                        assert(msv[i as int].layer + parent_layer > i32::MAX);
                        assert(mx[name@][i as int].layer + parent_layer > i32::MAX);
                    }
                    return Err(ModuleError::LayerOverflow);
                }
                i += 1;
            }
            let ghost bo = out@;
            let mut k: usize = 0;
            while k < ms.len()
                invariant
                    k <= ms@.len(),
                    0 <= parent_layer <= 1,
                    msv == mappings_view(ms@),
                    sv == selectors_view(stack@),
                    forall|j: int| 0 <= j < ms@.len() ==> msv[j].layer + parent_layer <= i32::MAX,
                    mappings_view(out@) == mappings_view(bo) + used_mappings(msv.take(k as int), sv, parent_layer as int),
                    mixins.wf(),
                    mx == mixins_view(*mixins),
                    mx == mixins_view(*old(mixins)),
                    *mixins == *old(mixins),
                    mx.contains_key(name@),
                    mx[name@] == msv,
                decreases ms@.len() - k,
            {
                let m = &ms[k];
                let mut sels = clone_selectors(&m.selectors);
                let mut q: usize = 0;
                let ghost s0 = selectors_view(sels@);
                while q < stack.len()
                    invariant
                        q <= stack@.len(),
                        selectors_view(sels@) == s0 + selectors_view(stack@.take(q as int)),
                    decreases stack@.len() - q,
                {
                    let ghost bs = sels@;
                    sels.push(clone_selector(&stack[q]));
                    proof {
                        assert(selectors_view(sels@) =~= selectors_view(bs).push(selector_view(stack@[q as int])));
                        assert(selectors_view(stack@.take(q + 1)) =~= selectors_view(stack@.take(q as int)).push(
                            selector_view(stack@[q as int]),
                        ));
                    }
                    q += 1;
                }
                proof {
                    assert(stack@.take(q as int) =~= stack@);
                    assert(msv[k as int] == mapping_view(ms@[k as int]));
                }
                let used = ModuleMapping {
                    name: to_owned_string(m.name.as_str()),
                    selectors: sels,
                    layer: m.layer + parent_layer,
                    entries: clone_entries(&m.entries),
                };
                let ghost bo2 = out@;
                out.push(used);
                proof {
                    assert(used_mappings(msv.take(k + 1), sv, parent_layer as int) =~= used_mappings(
                        msv.take(k as int),
                        sv,
                        parent_layer as int,
                    ).push(used_mappings(msv, sv, parent_layer as int)[k as int]));
                    assert(mappings_view(out@) =~= mappings_view(bo2).push(mapping_view(used)));
                }
                k += 1;
            }
            proof {
                assert(msv.take(k as int) =~= msv);
            }
            Ok(())
        },
    }
}

/// Appends the mappings that the blocks `bs` add in order and updates the
/// mixins (see `walk_blocks`).
fn walk_blocks_exec(
    bs: &Vec<Block>,
    stack: &Vec<Selector>,
    layer: i32,
    top: bool,
    out: &mut Vec<ModuleMapping>,
    mixins: &mut InsertOrderMap<Vec<ModuleMapping>>,
) -> (r: Result<(), ModuleError>)
    requires
        0 <= layer <= 1,
        old(mixins).wf(),
    ensures
        final(mixins).wf(),
        match walk_blocks(bs@, selectors_view(stack@), layer as int, top, mixins_view(*old(mixins))) {
            Ok((ms, mx)) => r is Ok && mappings_view(final(out)@) == mappings_view(old(out)@) + ms && mixins_view(
                *final(mixins),
            ) == mx,
            Err(e) => r matches Err(x) && error_view(x) == e,
        },
    decreases bs,
{
    let ghost sv = selectors_view(stack@);
    let ghost mx0 = mixins_view(*mixins);
    let ghost o0 = mappings_view(out@);
    let mut i: usize = 0;
    proof {
        assert(bs@.take(0) =~= Seq::<Block>::empty());
        assert(o0 + Seq::<MappingView>::empty() =~= o0);
    }
    while i < bs.len()
        invariant
            i <= bs@.len(),
            0 <= layer <= 1,
            sv == selectors_view(stack@),
            mixins.wf(),
            mx0 == mixins_view(*old(mixins)),
            o0 == mappings_view(old(out)@),
            walk_blocks(bs@.take(i as int), sv, layer as int, top, mx0) matches Ok((ms, mx)) && mappings_view(out@)
                == o0 + ms && mixins_view(*mixins) == mx,
        decreases bs@.len() - i,
    {
        let ghost prev = walk_blocks(bs@.take(i as int), sv, layer as int, top, mx0);
        proof {
            let t = bs@.take(i + 1);
            assert(t.drop_last() =~= bs@.take(i as int));
            assert(t.last() == bs@[i as int]);
        }
        let ghost before_out = mappings_view(out@);
        match walk_block_exec(&bs[i], stack, layer, top, out, mixins) {
            Ok(()) => {
                proof {
                    let ms = prev->Ok_0.0;
                    let step = walk_block(bs@[i as int], sv, layer as int, top, prev->Ok_0.1);
                    assert(mappings_view(out@) =~= o0 + (ms + step->Ok_0.0));
                }
            },
            Err(e) => {
                proof {
                    let mx1 = prev->Ok_0.1;
                    assert(walk_block(bs@[i as int], sv, layer as int, top, mx1) == Err::<
                        (Seq<MappingView>, Map<Seq<char>, Seq<MappingView>>),
                        ErrorView,
                    >(error_view(e)));
                    assert(walk_blocks(bs@.take(i + 1), sv, layer as int, top, mx0) == Err::<
                        (Seq<MappingView>, Map<Seq<char>, Seq<MappingView>>),
                        ErrorView,
                    >(error_view(e)));
                    lemma_walk_blocks_err(bs@, i + 1, sv, layer as int, top, mx0);
                }
                return Err(e);
            },
        }
        i += 1;
    }
    proof {
        assert(bs@.take(i as int) =~= bs@);
    }
    Ok(())
}

/// The mappings of a module, read from its syntax tree and the errors met
/// while parsing it (see `module_spec`): `Syntax` when there are errors.
/// A tree that cannot be read (a selector pattern that does not compile, a
/// mixin inside another block, the use of an unknown mixin, a layer out of
/// range) gives the error that says why.
pub fn parse_module<E>(ast: &Ast, errors: &Vec<E>) -> (r: Result<Vec<ModuleMapping>, ModuleError>)
    ensures
        errors@.len() > 0 ==> r matches Err(ModuleError::Syntax),
        errors@.len() == 0 ==> match module_spec(*ast) {
            Ok(ms) => r matches Ok(v) && mappings_view(v@) == ms,
            Err(e) => r matches Err(x) && error_view(x) == e,
        },
{
    if errors.len() > 0 {
        return Err(ModuleError::Syntax);
    }
    let mut out: Vec<ModuleMapping> = Vec::new();
    let mut mixins: InsertOrderMap<Vec<ModuleMapping>> = InsertOrderMap::new();
    let stack: Vec<Selector> = Vec::new();
    proof {
        assert(mixins_view(mixins) =~= Map::<Seq<char>, Seq<MappingView>>::empty());
        assert(selectors_view(stack@) =~= Seq::<(Seq<char>, Seq<char>)>::empty());
        assert(mappings_view(out@) =~= Seq::<MappingView>::empty());
    }
    match walk_blocks_exec(&ast.top_level_blocks, &stack, 0, true, &mut out, &mut mixins) {
        Ok(()) => {
            proof {
                let ms = walk_blocks(ast.top_level_blocks@, Seq::empty(), 0, true, Map::empty())->Ok_0.0;
                assert(mappings_view(out@) =~= ms);
            }
            Ok(out)
        },
        Err(e) => Err(e),
    }
}

} // verus!
