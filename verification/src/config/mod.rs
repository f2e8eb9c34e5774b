//! Configuration: the state that selects mappings and the editor settings.

pub mod applied_config;
pub mod insert_order_map;
pub mod module;

use vstd::prelude::*;

use crate::config::applied_config::{
    build_applied_config, entries_view, indent_size_of, syntax_of, theme_of, AppliedConfig, EditorConfig,
    applied_mappings,
};
use crate::config::insert_order_map::InsertOrderMap;
use crate::input::{input_from_captures, Input, RE_KEY, RE_MOD};
use crate::pattern::regex_captures_of;
use crate::ui::style::Color;
use crate::pattern::{regex_compile, regex_compiles_of, regex_is_match_at, regex_is_match_at_of};
use crate::text::{push_char, push_str};

verus! {

/// The named states that select which configuration mappings are active,
/// such as the path of the active file or the current mode.
#[derive(Debug)]
pub struct ConfigState {
    pub states: InsertOrderMap<String>,
}

/// The value of each state, by name.
pub open spec fn state_values(states: InsertOrderMap<String>) -> Map<Seq<char>, Seq<char>> {
    Map::new(|k: Seq<char>| states.has_key(k), |k: Seq<char>| states.entries@[states.index_of_key(k)].1@)
}

impl ConfigState {
    /// Active buffer's file path.
    pub const FILE: &'static str = "file";

    /// Active buffer's file format (language).
    pub const FORMAT: &'static str = "format";

    pub open spec fn wf(self) -> bool {
        self.states.wf()
    }

    /// The value of each state, by name.
    pub open spec fn view_spec(self) -> Map<Seq<char>, Seq<char>> {
        state_values(self.states)
    }

    /// No state set.
    pub fn new() -> (r: Self)
        ensures
            r.wf(),
            r.view_spec() == Map::<Seq<char>, Seq<char>>::empty(),
    {
        let r = ConfigState { states: InsertOrderMap::new() };
        proof {
            assert(r.view_spec() =~= Map::<Seq<char>, Seq<char>>::empty());
        }
        r
    }

    /// Sets state `state_name` to `value`.
    pub fn set(&mut self, state_name: String, value: String)
        requires
            old(self).wf(),
        ensures
            final(self).wf(),
            final(self).view_spec() == old(self).view_spec().insert(state_name@, value@),
    {
        let ghost name = state_name@;
        let ghost val = value@;
        self.states.insert(state_name, value);
        proof {
            let old_states = old(self).states;
            let kept = if old_states.has_key(name) {
                old_states.entries@.remove(old_states.index_of_key(name))
            } else {
                old_states.entries@
            };
            let n = kept.len() as int;
            let st = self.states;
            assert forall|k: Seq<char>| #[trigger] st.has_key(k) == (old_states.has_key(k) || k == name) by {
                if st.has_key(k) {
                    let j = st.index_of_key(k);
                    assert(st.keys()[j] == k);
                    if j < n {
                        assert(st.entries@[j] == kept[j]);
                        if old_states.has_key(name) {
                            let i = old_states.index_of_key(name);
                            let j0 = if j < i { j } else { j + 1 };
                            assert(kept[j] == old_states.entries@[j0]);
                            assert(old_states.keys()[j0] == k);
                        } else {
                            assert(old_states.keys()[j] == k);
                        }
                    }
                }
                if old_states.has_key(k) && k != name {
                    let j = old_states.index_of_key(k);
                    assert(old_states.keys()[j] == k);
                    let j1 = if old_states.has_key(name) && j > old_states.index_of_key(name) { j - 1 } else { j };
                    if old_states.has_key(name) {
                        assert(j != old_states.index_of_key(name));
                    }
                    assert(kept[j1] == old_states.entries@[j]);
                    assert(st.entries@[j1] == kept[j1]);
                    assert(st.keys()[j1] == k);
                }
                if k == name {
                    assert(st.keys()[n] == k);
                }
            }
            assert forall|k: Seq<char>| #[trigger] st.has_key(k) implies st.entries@[st.index_of_key(k)].1@ == (
            if k == name {
                val
            } else {
                old_states.entries@[old_states.index_of_key(k)].1@
            }) by {
                let j = st.index_of_key(k);
                assert(st.keys()[j] == k);
                if k == name {
                    if j < n {
                        assert(st.entries@[j] == kept[j]);
                        assert(st.entries@[j].0@ != st.entries@[n].0@);
                    }
                } else {
                    assert(j != n);
                    assert(st.entries@[j] == kept[j]);
                    let i0 = old_states.index_of_key(k);
                    assert(old_states.keys()[i0] == k);
                    if old_states.has_key(name) {
                        let i = old_states.index_of_key(name);
                        let j0 = if j < i { j } else { j + 1 };
                        assert(kept[j] == old_states.entries@[j0]);
                        assert(old_states.keys()[j0] == k);
                        if j0 != i0 {
                            if j0 < i0 {
                                assert(old_states.entries@[j0].0@ != old_states.entries@[i0].0@);
                            } else {
                                assert(old_states.entries@[i0].0@ != old_states.entries@[j0].0@);
                            }
                        }
                    } else {
                        assert(kept[j] == old_states.entries@[j]);
                        assert(old_states.keys()[j] == k);
                        if j != i0 {
                            if j < i0 {
                                assert(old_states.entries@[j].0@ != old_states.entries@[i0].0@);
                            } else {
                                assert(old_states.entries@[i0].0@ != old_states.entries@[j].0@);
                            }
                        }
                    }
                }
            }
            assert(self.view_spec() =~= old(self).view_spec().insert(name, val));
        }
    }

    /// The value of state `state_name`.
    pub fn get(&self, state_name: &str) -> (r: Option<&str>)
        requires
            self.wf(),
        ensures
            r.is_some() == self.view_spec().contains_key(state_name@),
            r.is_some() ==> r->Some_0@ == self.view_spec()[state_name@],
    {
        match self.states.get(state_name) {
            Some(v) => Some(v.as_str()),
            None => None,
        }
    }
}

/// The pattern `p` anchored at both ends, so that it must match a whole value.
pub open spec fn anchored(p: Seq<char>) -> Seq<char> {
    seq!['^'] + p + seq!['$']
}

/// A condition on one state: its value must match a pattern as a whole.
#[derive(Debug)]
pub struct Selector {
    pub targeted_state: String,
    /// The pattern, anchored at both ends.
    pub pattern: String,
}

/// A selector pattern that the regex engine refuses.
#[derive(Debug)]
pub struct InvalidPattern {
    /// The anchored pattern.
    pub pattern: String,
}

impl Selector {
    /// A selector of state `targeted_state` by the whole-value pattern `regex`;
    /// refused when the anchored pattern does not compile.
    pub fn new(targeted_state: String, regex: &str) -> (r: Result<Selector, InvalidPattern>)
        ensures
            r.is_ok() == regex_compiles_of(anchored(regex@)),
            r matches Ok(s) ==> s.targeted_state@ == targeted_state@ && s.pattern@ == anchored(regex@),
            r matches Err(e) ==> e.pattern@ == anchored(regex@),
    {
        let mut pattern = String::new();
        push_char(&mut pattern, '^');
        push_str(&mut pattern, regex);
        push_char(&mut pattern, '$');
        proof {
            assert(pattern@ =~= anchored(regex@));
        }
        match regex_compile(pattern.as_str()) {
            Ok(()) => Ok(Selector { targeted_state, pattern }),
            Err(_) => Err(InvalidPattern { pattern }),
        }
    }

    /// Whether the selector holds for the state values `states`.
    pub open spec fn selects(self, states: Map<Seq<char>, Seq<char>>) -> bool {
        &&& states.contains_key(self.targeted_state@)
        &&& regex_compiles_of(self.pattern@)
        &&& regex_is_match_at_of(self.pattern@, states[self.targeted_state@])
    }

    /// Whether the targeted state is set and its value matches the pattern.
    pub fn is_selected(&self, state: &ConfigState) -> (r: bool)
        requires
            state.wf(),
        ensures
            r == self.selects(state.view_spec()),
    {
        match state.get(self.targeted_state.as_str()) {
            None => false,
            Some(target) => match regex_is_match_at(self.pattern.as_str(), target) {
                Ok(b) => b,
                Err(()) => false,
            },
        }
    }
}

/// A mapping of entry names to values, active when all its selectors hold.
#[derive(Debug)]
pub struct ConditionalMapping {
    pub name: String,
    /// All must hold for the mapping to be active (none: always active).
    pub selectors: Vec<Selector>,
    /// Active mappings of one layer merge; a higher layer replaces lower ones.
    pub layer: i32,
    pub entries: InsertOrderMap<Vec<String>>,
}

impl ConditionalMapping {
    /// Whether every selector holds for the state values `states`.
    pub open spec fn active_in(self, states: Map<Seq<char>, Seq<char>>) -> bool {
        forall|i: int| 0 <= i < self.selectors@.len() ==> #[trigger] self.selectors@[i].selects(states)
    }

    /// Whether every selector holds.
    pub fn is_active(&self, state: &ConfigState) -> (r: bool)
        requires
            state.wf(),
        ensures
            r == self.active_in(state.view_spec()),
    {
        let mut i: usize = 0;
        while i < self.selectors.len()
            invariant
                state.wf(),
                i <= self.selectors@.len(),
                forall|j: int| 0 <= j < i ==> #[trigger] self.selectors@[j].selects(state.view_spec()),
            decreases self.selectors@.len() - i,
        {
            if !self.selectors[i].is_selected(state) {
                return false;
            }
            i += 1;
        }
        true
    }

    /// The number of selectors: more selectors, more specific.
    pub fn specificity(&self) -> (r: usize)
        ensures
            r == self.selectors@.len(),
    {
        self.selectors.len()
    }
}

/// The mappings of one configuration module.
#[derive(Debug)]
pub struct ConfigModule {
    pub mappings: Vec<ConditionalMapping>,
}

impl ConfigModule {
    /// No mapping names an entry twice.
    pub open spec fn wf(self) -> bool {
        forall|j: int| 0 <= j < self.mappings@.len() ==> (#[trigger] self.mappings@[j]).entries.wf()
    }
}

/// Whether `applied` is what applying the state values `states` to `mods` gives.
pub open spec fn applied_from(
    applied: AppliedConfig,
    mods: Seq<ConfigModule>,
    states: Map<Seq<char>, Seq<char>>,
) -> bool {
    &&& applied.wf()
    &&& applied.mappings_view() == applied_mappings(mods, states)
    &&& entries_view(applied.syntax.map_view()) == syntax_of(applied.mappings_view())
    &&& applied.editor.indent_size == indent_size_of(applied.mappings_view())
    &&& applied.theme.map_view() == theme_of(applied.mappings_view())
}

/// The input that the text `k` of a key binding stands for (see `Input::parse`).
pub open spec fn keybind_input(k: Seq<char>) -> Result<Input, ()> {
    input_from_captures(regex_captures_of(RE_MOD@, k), regex_captures_of(RE_KEY@, k), k)
}

/// Whether the key binding written `k` is for `input`.
pub open spec fn binds(k: Seq<char>, input: Input) -> bool {
    keybind_input(k) matches Ok(i) && i.normalized_spec() == input.normalized_spec()
}

/// The configuration modules, the state that selects among their mappings,
/// and the configuration that applying the state gives.
pub struct Config {
    modules: Vec<ConfigModule>,
    state: ConfigState,
    current_config: AppliedConfig,
}

impl Config {
    /// The applied configuration is kept in step with the modules and state.
    pub closed spec fn wf(self) -> bool {
        &&& self.state.wf()
        &&& forall|i: int| 0 <= i < self.modules@.len() ==> (#[trigger] self.modules@[i]).wf()
        &&& applied_from(self.current_config, self.modules@, self.state.view_spec())
    }

    /// The modules, in the order they were added.
    pub closed spec fn modules_spec(self) -> Seq<ConfigModule> {
        self.modules@
    }

    /// The state values.
    pub closed spec fn states(self) -> Map<Seq<char>, Seq<char>> {
        self.state.view_spec()
    }

    /// The applied mappings.
    pub open spec fn applied(self) -> Map<Seq<char>, Map<Seq<char>, Seq<String>>> {
        applied_mappings(self.modules_spec(), self.states())
    }

    /// The entries of the `keybinds` mapping.
    pub open spec fn keybinds(self) -> Map<Seq<char>, Seq<String>> {
        if self.applied().contains_key("keybinds"@) {
            self.applied()["keybinds"@]
        } else {
            Map::empty()
        }
    }

    /// No module, no state.
    pub fn new() -> (r: Self)
        ensures
            r.wf(),
            r.modules_spec() == Seq::<ConfigModule>::empty(),
            r.states() == Map::<Seq<char>, Seq<char>>::empty(),
    {
        let modules: Vec<ConfigModule> = Vec::new();
        let state = ConfigState::new();
        let current_config = build_applied_config(&modules, &state);
        Config { modules, state, current_config }
    }

    /// Adds `module` after the others and applies the state again.
    pub fn add_module(&mut self, module: ConfigModule)
        requires
            old(self).wf(),
            module.wf(),
        ensures
            final(self).wf(),
            final(self).modules_spec() == old(self).modules_spec().push(module),
            final(self).states() == old(self).states(),
    {
        self.modules.push(module);
        self.rebuild_current_config();
    }

    /// The entries of mapping `key`.
    pub fn get(&self, key: &str) -> (r: Option<&InsertOrderMap<Vec<String>>>)
        requires
            self.wf(),
        ensures
            r.is_some() == self.applied().contains_key(key@),
            r matches Some(e) ==> e.wf() && entries_view(e.map_view()) == self.applied()[key@],
    {
        self.current_config.get(key)
    }

    /// The first value of entry `entry_name` of mapping `mapping`, or a
    /// message saying that there is none.
    pub fn get_entry_value(&self, mapping: &str, entry_name: &str) -> (r: Result<&str, String>)
        requires
            self.wf(),
        ensures
            r.is_ok() == (self.applied().contains_key(mapping@) && self.applied()[mapping@].contains_key(entry_name@)
                && self.applied()[mapping@][entry_name@].len() > 0),
            r matches Ok(v) ==> v@ == self.applied()[mapping@][entry_name@][0]@,
            r matches Err(e) ==> e@ == "entry not found '"@ + entry_name@ + "' of '"@ + mapping@ + "'"@,
    {
        match self.get(mapping) {
            Some(m) => {
                match m.get(entry_name) {
                    Some(values) => {
                        proof {
                            assert(m.map_view().contains_key(entry_name@));
                        }
                        if values.len() > 0 {
                            return Ok(values[0].as_str());
                        }
                    },
                    None => {},
                }
            },
            None => {},
        }
        let mut e = String::new();
        push_str(&mut e, "entry not found '");
        push_str(&mut e, entry_name);
        push_str(&mut e, "' of '");
        push_str(&mut e, mapping);
        push_str(&mut e, "'");
        Err(e)
    }

    /// The value of state `state_name`.
    pub fn state_value(&self, state_name: &str) -> (r: Option<&str>)
        requires
            self.wf(),
        ensures
            r.is_some() == self.states().contains_key(state_name@),
            r matches Some(v) ==> v@ == self.states()[state_name@],
    {
        self.state.get(state_name)
    }

    /// Sets state `state_name` to `value` and applies the state again.
    pub fn set_state(&mut self, state_name: String, value: String)
        requires
            old(self).wf(),
        ensures
            final(self).wf(),
            final(self).modules_spec() == old(self).modules_spec(),
            final(self).states() == old(self).states().insert(state_name@, value@),
    {
        self.state.set(state_name, value);
        self.rebuild_current_config();
    }

    /// The commands bound to `input`: the values of a `keybinds` entry whose
    /// key stands for an input equal to it.
    pub fn get_keybind(&self, input: Input) -> (r: Option<&[String]>)
        requires
            self.wf(),
        ensures
            r.is_some() == exists|k: Seq<char>| #[trigger] self.keybinds().contains_key(k) && binds(k, input),
            r matches Some(v) ==> exists|k: Seq<char>|
                #[trigger] self.keybinds().contains_key(k) && binds(k, input) && v@ == self.keybinds()[k],
    {
        let kb = match self.get("keybinds") {
            Some(kb) => kb,
            None => {
                return None;
            },
        };
        let ghost kv = entries_view(kb.map_view());
        let mut j: usize = 0;
        while j < kb.entries.len()
            invariant
                kb.wf(),
                kv == entries_view(kb.map_view()),
                kv == self.keybinds(),
                j <= kb.entries@.len(),
                forall|q: int| 0 <= q < j ==> !binds((#[trigger] kb.entries@[q]).0@, input),
            decreases kb.entries@.len() - j,
        {
            let key = &kb.entries[j].0;
            match Input::parse(key.as_str()) {
                Ok(k_input) => {
                    if k_input == input {
                        proof {
                            kb.lemma_index_of_key(j as int);
                            assert(kv.contains_key(key@));
                            assert(binds(key@, input));
                        }
                        return Some(kb.entries[j].1.as_slice());
                    }
                },
                Err(()) => {},
            }
            j += 1;
        }
        proof {
            assert forall|k: Seq<char>| #[trigger] kv.contains_key(k) implies !binds(k, input) by {
                let q = kb.index_of_key(k);
                assert(kb.keys()[q] == k);
                assert(kb.entries@[q].0@ == k);
            }
        }
        None
    }

    /// The patterns of each syntax rule.
    pub fn get_syntax(&self) -> (r: &InsertOrderMap<Vec<String>>)
        requires
            self.wf(),
        ensures
            r.wf(),
            entries_view(r.map_view()) == syntax_of(self.applied()),
    {
        &self.current_config.syntax
    }

    /// The editor settings.
    pub fn get_editor(&self) -> (r: &EditorConfig)
        requires
            self.wf(),
        ensures
            r.wf(),
            r.indent_size == indent_size_of(self.applied()),
    {
        &self.current_config.editor
    }

    /// The theme colors, by name.
    pub fn get_theme(&self) -> (r: &InsertOrderMap<Color>)
        requires
            self.wf(),
        ensures
            r.wf(),
            r.map_view() == theme_of(self.applied()),
    {
        &self.current_config.theme
    }

    /// The theme color named `name`.
    pub fn get_theme_color(&self, name: &str) -> (r: Option<Color>)
        requires
            self.wf(),
        ensures
            r.is_some() == theme_of(self.applied()).contains_key(name@),
            r matches Some(c) ==> c == theme_of(self.applied())[name@],
    {
        match self.current_config.theme.get(name) {
            Some(c) => Some(*c),
            None => None,
        }
    }

    /// The commands of the `else` entry of the `keybinds` mapping.
    pub fn get_keybind_else(&self) -> (r: Option<&[String]>)
        requires
            self.wf(),
        ensures
            r.is_some() == self.keybinds().contains_key("else"@),
            r matches Some(v) ==> v@ == self.keybinds()["else"@],
    {
        match self.get("keybinds") {
            Some(kb) => match kb.get("else") {
                Some(v) => {
                    proof {
                        assert(kb.map_view().contains_key("else"@));
                    }
                    Some(v.as_slice())
                },
                None => None,
            },
            None => None,
        }
    }

    fn rebuild_current_config(&mut self)
        requires
            old(self).state.wf(),
            forall|i: int| 0 <= i < old(self).modules@.len() ==> (#[trigger] old(self).modules@[i]).wf(),
        ensures
            final(self).wf(),
            final(self).modules == old(self).modules,
            final(self).state == old(self).state,
    {
        self.current_config = build_applied_config(&self.modules, &self.state);
    }
}

impl Default for Config {
    fn default() -> (r: Self)
        ensures
            r.wf(),
            r.modules_spec() == Seq::<ConfigModule>::empty(),
            r.states() == Map::<Seq<char>, Seq<char>>::empty(),
    {
        Config::new()
    }
}

} // verus!
