use vstd::prelude::*;

use crate::assoc::assoc;
use crate::error::ConfigError;
use crate::scheme::{all_present, inherited, last_index_of, lemma_missing_source_none, renamed, Color, Colorscheme};

verus! {

/// How a colorscheme is built from others: the colorschemes it inherits, in
/// order, and the renames applied to the inherited colors.
pub struct SettingsIntermediate {
    pub inherit: Vec<String>,
    pub rename: Vec<(String, String)>,
}

/// A validated colorscheme definition: its settings and its own colors.
pub struct ColorschemeIntermediate {
    pub settings: SettingsIntermediate,
    pub colors: Vec<(String, Color)>,
}

/// The `settings` table of a colorscheme as written in the configuration.
pub struct SettingsInput {
    pub inherit: Option<Vec<String>>,
    pub rename: Option<Vec<(String, String)>>,
}

/// One entry of a colorscheme table: the settings table or a color.
pub enum ColorschemeValue {
    Settings(SettingsInput),
    Color(Color),
}

/// A colorscheme table as written in the configuration, entries in order.
pub struct ColorschemeInput(pub Vec<(String, ColorschemeValue)>);

/// The reserved key of the settings entry.
pub open spec fn settings_key() -> Seq<char> {
    seq!['s', 'e', 't', 't', 'i', 'n', 'g', 's']
}

/// The value of the last entry with the reserved settings key, if any.
pub open spec fn settings_of(e: Seq<(String, ColorschemeValue)>) -> Option<ColorschemeValue>
    decreases e.len(),
{
    if e.len() == 0 {
        None
    } else if e.last().0@ == settings_key() {
        Some(e.last().1)
    } else {
        settings_of(e.drop_last())
    }
}

/// An entry outside the settings key whose value is not a color.
pub open spec fn is_bad_entry(p: (String, ColorschemeValue)) -> bool {
    p.0@ != settings_key() && p.1 is Settings
}

/// The settings entry is a color rather than a settings table.
pub open spec fn settings_bad(e: Seq<(String, ColorschemeValue)>) -> bool {
    settings_of(e) matches Some(ColorschemeValue::Color(_))
}

/// The names and values of the color entries, in order.
pub open spec fn colors_of(e: Seq<(String, ColorschemeValue)>) -> Seq<(Seq<char>, Seq<char>)>
    decreases e.len(),
{
    if e.len() == 0 {
        Seq::empty()
    } else {
        let rest = colors_of(e.drop_last());
        let p = e.last();
        if p.0@ == settings_key() {
            rest
        } else {
            match p.1 {
                ColorschemeValue::Color(c) => rest.push((p.0@, c@)),
                ColorschemeValue::Settings(_) => rest,
            }
        }
    }
}

/// The names and values of a list of colors.
pub open spec fn color_pairs(c: Seq<(String, Color)>) -> Seq<(Seq<char>, Seq<char>)> {
    c.map_values(|p: (String, Color)| (p.0@, p.1@))
}

/// Whether `v` holds the strings of `o`, or nothing when `o` is absent.
pub open spec fn list_or_empty<T>(o: Option<Vec<T>>, v: Seq<T>) -> bool {
    match o {
        Some(x) => v == x@,
        None => v.len() == 0,
    }
}

/// The table has a well-formed settings entry, if any, and colors elsewhere.
pub open spec fn scheme_input_ok(e: Seq<(String, ColorschemeValue)>) -> bool {
    !settings_bad(e) && !(exists|i: int| 0 <= i < e.len() && is_bad_entry(#[trigger] e[i]))
}

/// `d` holds the settings and the colors of the table `e`.
pub open spec fn validated_as(e: Seq<(String, ColorschemeValue)>, d: ColorschemeIntermediate) -> bool {
    &&& color_pairs(d.colors@) == colors_of(e)
    &&& match settings_of(e) {
        Some(ColorschemeValue::Settings(s)) => list_or_empty(s.inherit, d.settings.inherit@) && list_or_empty(s.rename, d.settings.rename@),
        _ => d.settings.inherit@.len() == 0 && d.settings.rename@.len() == 0,
    }
}

/// The compiled colors of `def` given the compiled colorschemes `env` it
/// inherits from: inherited colors merged in order, renamed, then overridden
/// by its own colors. `Err` holds the first rename source that is missing.
pub open spec fn compile_spec(def: ColorschemeIntermediate, env: Map<Seq<char>, Map<Seq<char>, Seq<char>>>) -> Result<Map<Seq<char>, Seq<char>>, Seq<char>> {
    match renamed(inherited(env, def.settings.inherit@), def.settings.rename@) {
        Ok(m) => Ok(m.union_prefer_right(assoc(def.colors@))),
        Err(k) => Err(k),
    }
}

/// A colorscheme's own colors always win: when every rename source is an
/// inherited color, compilation succeeds and every color the colorscheme
/// declares itself has the value it declares, whatever it inherits or renames.
pub proof fn lemma_own_colors_win(def: ColorschemeIntermediate, env: Map<Seq<char>, Map<Seq<char>, Seq<char>>>, key: Seq<char>)
    requires
        forall|k: int| 0 <= k < def.settings.rename@.len()
            ==> inherited(env, def.settings.inherit@).contains_key(#[trigger] def.settings.rename@[k].0@),
        assoc(def.colors@).contains_key(key),
    ensures
        compile_spec(def, env) is Ok,
        compile_spec(def, env)->Ok_0.contains_key(key),
        compile_spec(def, env)->Ok_0[key] == assoc(def.colors@)[key],
{
    lemma_missing_source_none(inherited(env, def.settings.inherit@), def.settings.rename@);
}

fn settings_key_string() -> (r: String)
    ensures
        r@ == settings_key(),
{
    proof {
        reveal_strlit("settings");
    }
    String::from_str("settings")
}

fn copy_strings(v: &Vec<String>) -> (r: Vec<String>)
    ensures
        r@ == v@,
{
    let mut r: Vec<String> = Vec::new();
    for i in 0..v.len()
        invariant
            r@ == v@.take(i as int),
    {
        r.push(v[i].clone());
        assert(r@ =~= v@.take(i + 1));
    }
    assert(v@.take(v@.len() as int) =~= v@);
    r
}

fn copy_pairs(v: &Vec<(String, String)>) -> (r: Vec<(String, String)>)
    ensures
        r@ == v@,
{
    let mut r: Vec<(String, String)> = Vec::new();
    for i in 0..v.len()
        invariant
            r@ == v@.take(i as int),
    {
        r.push((v[i].0.clone(), v[i].1.clone()));
        assert(r@ =~= v@.take(i + 1));
    }
    assert(v@.take(v@.len() as int) =~= v@);
    r
}

proof fn lemma_settings_of(e: Seq<(String, ColorschemeValue)>, i: int)
    requires
        0 <= i < e.len(),
        e[i].0@ == settings_key(),
        forall|j: int| i < j < e.len() ==> e[j].0@ != settings_key(),
    ensures
        settings_of(e) == Some(e[i].1),
    decreases e.len(),
{
    if i < e.len() - 1 {
        lemma_settings_of(e.drop_last(), i);
    }
}

proof fn lemma_settings_of_none(e: Seq<(String, ColorschemeValue)>)
    requires
        forall|j: int| 0 <= j < e.len() ==> e[j].0@ != settings_key(),
    ensures
        settings_of(e) is None,
    decreases e.len(),
{
    if e.len() > 0 {
        lemma_settings_of_none(e.drop_last());
    }
}

impl ColorschemeInput {
    /// Splits the table into its settings and its colors.
    ///
    /// Fails with `InvalidSettings` when the settings entry is a color, and
    /// otherwise with `InvalidColor` when another entry is a settings table.
    pub fn validate(&self) -> (r: Result<ColorschemeIntermediate, ConfigError>)
        ensures
            settings_bad(self.0@) ==> r matches Err(ConfigError::InvalidSettings),
            !settings_bad(self.0@) && (exists|i: int| 0 <= i < self.0@.len() && is_bad_entry(#[trigger] self.0@[i]))
                ==> (r matches Err(ConfigError::InvalidColor(k)) && exists|i: int| 0 <= i < self.0@.len() && is_bad_entry(#[trigger] self.0@[i]) && self.0@[i].0@ == k@),
            scheme_input_ok(self.0@) ==> (r matches Ok(d) && validated_as(self.0@, d)),
    {
        let e = &self.0;
        let key = settings_key_string();
        let settings = match last_index_of(e, &key) {
            Some(i) => {
                proof {
                    lemma_settings_of(e@, i as int);
                }
                match &e[i].1 {
                    ColorschemeValue::Settings(s) => SettingsIntermediate {
                        inherit: match &s.inherit {
                            Some(v) => copy_strings(v),
                            None => Vec::new(),
                        },
                        rename: match &s.rename {
                            Some(v) => copy_pairs(v),
                            None => Vec::new(),
                        },
                    },
                    ColorschemeValue::Color(_) => {
                        return Err(ConfigError::InvalidSettings);
                    },
                }
            },
            None => {
                proof {
                    lemma_settings_of_none(e@);
                }
                SettingsIntermediate { inherit: Vec::new(), rename: Vec::new() }
            },
        };
        let mut colors: Vec<(String, Color)> = Vec::new();
        for i in 0..e.len()
            invariant
                key@ == settings_key(),
                e@ == self.0@,
                !settings_bad(e@),
                match settings_of(e@) {
                    Some(ColorschemeValue::Settings(s)) => list_or_empty(s.inherit, settings.inherit@) && list_or_empty(s.rename, settings.rename@),
                    _ => settings.inherit@.len() == 0 && settings.rename@.len() == 0,
                },
                color_pairs(colors@) == colors_of(e@.take(i as int)),
                forall|j: int| 0 <= j < i ==> !is_bad_entry(#[trigger] e@[j]),
        {
            proof {
                assert(e@.take(i + 1).drop_last() =~= e@.take(i as int));
            }
            let entry = &e[i];
            if entry.0 != key {
                match &entry.1 {
                    ColorschemeValue::Color(c) => {
                        colors.push((entry.0.clone(), c.duplicate()));
                        assert(color_pairs(colors@) =~= colors_of(e@.take(i + 1)));
                    },
                    ColorschemeValue::Settings(_) => {
                        assert(is_bad_entry(e@[i as int]));

                        return Err(ConfigError::InvalidColor(entry.0.clone()));
                    },
                }
            } else {
                assert(color_pairs(colors@) =~= colors_of(e@.take(i + 1)));
            }
        }
        proof {
            assert(e@.take(e@.len() as int) =~= e@);
        }
        Ok(ColorschemeIntermediate { settings, colors })
    }
}

impl ColorschemeIntermediate {
    /// Compiles this definition against the already compiled colorschemes
    /// in `current_state`, each of which it may inherit from.
    ///
    /// Fails with `UnknownColorscheme` when it inherits a colorscheme that
    /// `current_state` lacks, and otherwise with `RenameSourceMissing` when a
    /// rename source is not an inherited color.
    pub fn compile(&self, current_state: &Vec<(String, Colorscheme)>) -> (r: Result<Colorscheme, ConfigError>)
        ensures
            all_present(assoc(current_state@), self.settings.inherit@) ==> match compile_spec(*self, assoc(current_state@)) {
                Ok(m) => r matches Ok(c) && c@ == m,
                Err(k) => r matches Err(ConfigError::RenameSourceMissing(f)) && f@ == k,
            },
            !all_present(assoc(current_state@), self.settings.inherit@) ==> (r matches Err(ConfigError::UnknownColorscheme(n))
                && !assoc(current_state@).contains_key(n@)
                && exists|k: int| 0 <= k < self.settings.inherit@.len() && #[trigger] self.settings.inherit@[k]@ == n@),
    {
        let mut colorscheme = Colorscheme::new();
        match colorscheme.inherit_all(&self.settings.inherit, current_state) {
            Ok(()) => {},
            Err(e) => {
                return Err(e);
            },
        }
        assert(colorscheme@ =~= inherited(assoc(current_state@), self.settings.inherit@));
        match colorscheme.rename_all(&self.settings.rename) {
            Ok(()) => {},
            Err(e) => {
                return Err(e);
            },
        }
        colorscheme.insert(&self.colors);
        Ok(colorscheme)
    }
}

} // verus!
