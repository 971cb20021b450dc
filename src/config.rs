use vstd::prelude::*;

use crate::assoc::{assoc, lemma_assoc_absent, lemma_assoc_last, lemma_assoc_push};
use crate::definition::{
    compile_spec, is_bad_entry, scheme_input_ok, settings_bad, validated_as, ColorschemeInput, ColorschemeIntermediate,
    ColorschemeValue,
};
use crate::error::ConfigError;
use crate::render::{render, render_text};
use crate::resolve::{
    all_defined, compilation_strategy, has_topological_order, is_done, is_ready,
    is_resolution, lemma_resolution_topological, names_distinct, order_names, resolution,
    strategy_result,
};
use crate::scheme::{last_index_of, Colorscheme};

verus! {

/// The name of the colorscheme that must exist and that templates use by default.
pub open spec fn default_name() -> Seq<char> {
    seq!['d', 'e', 'f', 'a', 'u', 'l', 't']
}

fn default_name_string() -> (r: String)
    ensures
        r@ == default_name(),
{
    proof {
        reveal_strlit("default");
    }
    String::from_str("default")
}

/// A template entry as written in the configuration.
pub struct TemplateInput {
    /// The colorscheme to use.
    pub theme: Option<String>,
    /// The output directory.
    pub output: Option<String>,
    /// The output file name.
    pub name: Option<String>,
}

/// A validated template: its colorscheme and where its output goes.
pub struct TemplateIntermediate {
    pub theme: String,
    pub output_dir: String,
    pub output_name: String,
}

/// A template ready to render: its compiled colorscheme, its source file
/// name in the templates directory, and its output location.
pub struct Template {
    pub theme: Colorscheme,
    pub input: String,
    pub output_dir: String,
    pub output_name: String,
}

/// The configuration as read: colorscheme tables and explicit template entries.
pub struct ConfigInput {
    pub colorschemes: Vec<(String, ColorschemeInput)>,
    pub templates: Option<Vec<(String, TemplateInput)>>,
}

/// The validated configuration: colorscheme definitions and all templates.
pub struct ConfigIntermediate {
    pub colorschemes: Vec<(String, ColorschemeIntermediate)>,
    pub templates: Vec<(String, TemplateIntermediate)>,
}

/// The templates to render.
pub struct Config {
    pub templates: Vec<Template>,
}

/// No two entries share a name.
pub open spec fn keys_distinct<V>(s: Seq<(String, V)>) -> bool {
    forall|i: int, j: int| 0 <= i < j < s.len() ==> s[i].0@ != s[j].0@
}

/// Some entry of `s` is named `n`.
pub open spec fn has_key<V>(s: Seq<(String, V)>, n: Seq<char>) -> bool {
    exists|i: int| 0 <= i < s.len() && s[i].0@ == n
}

/// Some string of `s` before position `upto` is `n`.
pub open spec fn listed(s: Seq<String>, upto: int, n: Seq<char>) -> bool {
    exists|j: int| 0 <= j < upto && s[j]@ == n
}

/// `d` is the template for file `filename` that entry `t` describes.
pub open spec fn template_spec(t: TemplateInput, filename: Seq<char>, output_root: Seq<char>, d: TemplateIntermediate) -> bool {
    &&& d.theme@ == match t.theme {
        Some(x) => x@,
        None => default_name(),
    }
    &&& d.output_dir@ == match t.output {
        Some(x) => x@,
        None => output_root,
    }
    &&& d.output_name@ == match t.name {
        Some(x) => x@,
        None => filename,
    }
}

/// `d` is the template for file `filename` that has no entry: the default
/// colorscheme, written under the same name in `output_root`.
pub open spec fn implicit_spec(filename: Seq<char>, output_root: Seq<char>, d: TemplateIntermediate) -> bool {
    d.theme@ == default_name() && d.output_dir@ == output_root && d.output_name@ == filename
}

/// Entry `t` for file `filename` names a file that the templates directory
/// lacks, or a colorscheme that `g` lacks.
pub open spec fn template_entry_bad(t: TemplateInput, filename: Seq<char>, files: Seq<String>, g: Seq<(String, ColorschemeInput)>) -> bool {
    !listed(files, files.len() as int, filename) || (t.theme is Some && !has_key(g, t.theme->Some_0@))
}

/// The explicit template entries.
pub open spec fn explicit_entries(c: ConfigInput) -> Seq<(String, TemplateInput)> {
    match c.templates {
        Some(v) => v@,
        None => Seq::empty(),
    }
}

/// The files that get a template without an entry: those no entry names,
/// each once, in order.
pub open spec fn implicit_files(files: Seq<String>, explicit: Seq<(String, TemplateInput)>) -> Seq<Seq<char>>
    decreases files.len(),
{
    if files.len() == 0 {
        Seq::empty()
    } else {
        let rest = implicit_files(files.drop_last(), explicit);
        let f = files.last()@;
        if has_key(explicit, f) || listed(files, files.len() - 1, f) {
            rest
        } else {
            rest.push(f)
        }
    }
}

/// `ci` is the validated form of `c` for the files `files` and the output
/// directory `output_root`.
pub open spec fn config_validated_as(c: ConfigInput, files: Seq<String>, output_root: Seq<char>, ci: ConfigIntermediate) -> bool {
    let ex = explicit_entries(c);
    let imp = implicit_files(files, ex);
    &&& ci.colorschemes@.len() == c.colorschemes@.len()
    &&& forall|k: int| 0 <= k < c.colorschemes@.len() ==> (#[trigger] ci.colorschemes@[k]).0@ == c.colorschemes@[k].0@
        && validated_as(c.colorschemes@[k].1.0@, ci.colorschemes@[k].1)
    &&& ci.templates@.len() == ex.len() + imp.len()
    &&& forall|k: int| 0 <= k < ex.len() ==> (#[trigger] ci.templates@[k]).0@ == ex[k].0@
        && template_spec(ex[k].1, ex[k].0@, output_root, ci.templates@[k].1)
    &&& forall|k: int| 0 <= k < imp.len() ==> (#[trigger] ci.templates@[ex.len() + k]).0@ == imp[k]
        && implicit_spec(imp[k], output_root, ci.templates@[ex.len() + k].1)
}

/// The compiled colorschemes of those that `o` lists, in that order;
/// `Err` holds the first missing rename source.
pub open spec fn compiled_env(g: Seq<(String, ColorschemeIntermediate)>, o: Seq<int>) -> Result<Map<Seq<char>, Map<Seq<char>, Seq<char>>>, Seq<char>>
    decreases o.len(),
{
    if o.len() == 0 {
        Ok(Map::empty())
    } else {
        match compiled_env(g, o.drop_last()) {
            Ok(env) => match compile_spec(g[o.last()].1, env) {
                Ok(m) => Ok(env.insert(g[o.last()].0@, m)),
                Err(k) => Err(k),
            },
            Err(k) => Err(k),
        }
    }
}

/// The compiled colorschemes of `g`, by name, compiled in resolution order.
pub open spec fn compiled_schemes(g: Seq<(String, ColorschemeIntermediate)>) -> Result<Map<Seq<char>, Map<Seq<char>, Seq<char>>>, Seq<char>> {
    compiled_env(g, resolution(g))
}

/// `ts` holds, in order, a template for each of `tpl`, with its colorscheme
/// compiled as `env` has it.
pub open spec fn templates_built(tpl: Seq<(String, TemplateIntermediate)>, env: Map<Seq<char>, Map<Seq<char>, Seq<char>>>, ts: Seq<Template>) -> bool {
    &&& ts.len() == tpl.len()
    &&& forall|k: int| 0 <= k < tpl.len() ==> {
        &&& (#[trigger] ts[k]).input@ == tpl[k].0@
        &&& ts[k].output_dir@ == tpl[k].1.output_dir@
        &&& ts[k].output_name@ == tpl[k].1.output_name@
        &&& env.contains_key(tpl[k].1.theme@)
        &&& ts[k].theme@ == env[tpl[k].1.theme@]
    }
}

/// What `ConfigIntermediate::construct` returns for `c`.
pub open spec fn construct_result(c: ConfigIntermediate, r: Result<Vec<Template>, ConfigError>) -> bool {
    let g = c.colorschemes@;
    if !all_defined(g) || !has_topological_order(g) {
        r matches Err(e) && strategy_result(g, Err(e))
    } else {
        match compiled_schemes(g) {
            Err(k) => r matches Err(ConfigError::RenameSourceMissing(f)) && f@ == k,
            Ok(env) => if exists|k: int| 0 <= k < c.templates@.len() && !env.contains_key(#[trigger] c.templates@[k].1.theme@) {
                r matches Err(ConfigError::UnknownColorscheme(n))
                    && exists|k: int| 0 <= k < c.templates@.len() && #[trigger] c.templates@[k].1.theme@ == n@ && !env.contains_key(n@)
            } else {
                r matches Ok(ts) && templates_built(c.templates@, env, ts@)
            },
        }
    }
}

/// The colorscheme tables and explicit template entries of `c` are valid
/// for the files `files`.
pub open spec fn input_valid(c: ConfigInput, files: Seq<String>) -> bool {
    &&& has_key(c.colorschemes@, default_name())
    &&& forall|k: int| 0 <= k < c.colorschemes@.len() ==> scheme_input_ok((#[trigger] c.colorschemes@[k]).1.0@)
    &&& forall|k: int| 0 <= k < explicit_entries(c).len() ==> !template_entry_bad((#[trigger] explicit_entries(c)[k]).1, explicit_entries(c)[k].0@, files, c.colorschemes@)
}

/// The error that validating the colorscheme table `e` gives.
pub open spec fn scheme_error(e: Seq<(String, ColorschemeValue)>, err: ConfigError) -> bool {
    if settings_bad(e) {
        err is InvalidSettings
    } else {
        err matches ConfigError::InvalidColor(k) && exists|i: int| 0 <= i < e.len() && is_bad_entry(#[trigger] e[i]) && e[i].0@ == k@
    }
}

/// The error that validating entry `t` for file `filename` gives.
pub open spec fn template_error(t: TemplateInput, filename: Seq<char>, files: Seq<String>, err: ConfigError) -> bool {
    if !listed(files, files.len() as int, filename) {
        err matches ConfigError::TemplateSourceMissing(n) && n@ == filename
    } else {
        err matches ConfigError::UnknownColorscheme(n) && t.theme is Some && n@ == t.theme->Some_0@
    }
}

/// Table `k` is the first colorscheme table that is invalid.
pub open spec fn first_bad_scheme(g: Seq<(String, ColorschemeInput)>, k: int) -> bool {
    0 <= k < g.len() && !scheme_input_ok(g[k].1.0@) && forall|j: int| 0 <= j < k ==> scheme_input_ok(#[trigger] g[j].1.0@)
}

/// Entry `k` is the first explicit template entry that is invalid.
pub open spec fn first_bad_template(c: ConfigInput, files: Seq<String>, k: int) -> bool {
    let ex = explicit_entries(c);
    &&& 0 <= k < ex.len()
    &&& template_entry_bad(ex[k].1, ex[k].0@, files, c.colorschemes@)
    &&& forall|j: int| 0 <= j < k ==> !template_entry_bad((#[trigger] ex[j]).1, ex[j].0@, files, c.colorschemes@)
}

/// The error that validating `c` gives: that of the first failed check, in
/// the order default colorscheme, colorscheme tables, template entries.
pub open spec fn validation_error(c: ConfigInput, files: Seq<String>, err: ConfigError) -> bool {
    if !has_key(c.colorschemes@, default_name()) {
        err is NoDefaultColorscheme
    } else if exists|k: int| 0 <= k < c.colorschemes@.len() && !scheme_input_ok((#[trigger] c.colorschemes@[k]).1.0@) {
        exists|k: int| #[trigger] first_bad_scheme(c.colorschemes@, k) && scheme_error(c.colorschemes@[k].1.0@, err)
    } else {
        exists|k: int| #[trigger] first_bad_template(c, files, k) && template_error(explicit_entries(c)[k].1, explicit_entries(c)[k].0@, files, err)
    }
}

proof fn lemma_implicit_files_contains(files: Seq<String>, explicit: Seq<(String, TemplateInput)>, j: int)
    requires
        0 <= j < files.len(),
        !has_key(explicit, files[j]@),
    ensures
        implicit_files(files, explicit).contains(files[j]@),
    decreases files.len(),
{
    let front = files.drop_last();
    let rest = implicit_files(front, explicit);
    if j < files.len() - 1 {
        assert(front[j] == files[j]);
        lemma_implicit_files_contains(front, explicit, j);
        let m = choose|m: int| 0 <= m < rest.len() && rest[m] == files[j]@;
        assert(implicit_files(files, explicit)[m] == files[j]@);
    } else if listed(files, files.len() - 1, files[j]@) {
        let i = choose|i: int| 0 <= i < files.len() - 1 && files[i]@ == files[j]@;
        assert(front[i] == files[i]);
        lemma_implicit_files_contains(front, explicit, i);
        let m = choose|m: int| 0 <= m < rest.len() && rest[m] == files[j]@;
        assert(implicit_files(files, explicit)[m] == files[j]@);
    } else {
        assert(implicit_files(files, explicit)[rest.len() as int] == files[j]@);
    }
}

/// A file of the templates directory that no entry names gets a template of
/// its own, with the default colorscheme, written under its own name to the
/// output root.
pub proof fn lemma_unnamed_file_gets_default(c: ConfigInput, files: Seq<String>, output_root: Seq<char>, ci: ConfigIntermediate, j: int)
    requires
        config_validated_as(c, files, output_root, ci),
        0 <= j < files.len(),
        !has_key(explicit_entries(c), files[j]@),
    ensures
        exists|k: int| 0 <= k < ci.templates@.len() && (#[trigger] ci.templates@[k]).0@ == files[j]@
            && implicit_spec(files[j]@, output_root, ci.templates@[k].1),
{
    let ex = explicit_entries(c);
    let imp = implicit_files(files, ex);
    lemma_implicit_files_contains(files, ex, j);
    let m = choose|m: int| 0 <= m < imp.len() && imp[m] == files[j]@;
    assert(ci.templates@[ex.len() + m].0@ == imp[m]);
}

/// Once compiling a colorscheme has failed, compiling later ones keeps that failure.
proof fn lemma_env_err_stays(g: Seq<(String, ColorschemeIntermediate)>, o: Seq<int>, i: int)
    requires
        0 <= i <= o.len(),
        compiled_env(g, o.take(i)) is Err,
    ensures
        compiled_env(g, o) == compiled_env(g, o.take(i)),
    decreases o.len() - i,
{
    if i < o.len() {
        assert(o.take(i + 1).drop_last() =~= o.take(i));
        lemma_env_err_stays(g, o, i + 1);
    } else {
        assert(o.take(i) =~= o);
    }
}

impl TemplateIntermediate {
    /// The template for a file without an entry: the default colorscheme,
    /// written under the same file name in `output`.
    pub fn new(name: &String, output: &String) -> (r: Self)
        ensures
            implicit_spec(name@, output@, r),
    {
        TemplateIntermediate { theme: default_name_string(), output_dir: output.clone(), output_name: name.clone() }
    }
}

fn file_listed(files: &Vec<String>, upto: usize, name: &String) -> (r: bool)
    requires
        upto <= files@.len(),
    ensures
        r == listed(files@, upto as int, name@),
{
    for j in 0..upto
        invariant
            upto <= files@.len(),
            forall|i: int| 0 <= i < j ==> files@[i]@ != name@,
    {
        if files[j] == *name {
            return true;
        }
    }
    false
}

fn some_or(o: &Option<String>, fallback: &String) -> (r: String)
    ensures
        r@ == match o {
            Some(x) => x@,
            None => fallback@,
        },
{
    match o {
        Some(x) => x.clone(),
        None => fallback.clone(),
    }
}

fn scheme_named<V>(g: &Vec<(String, V)>, name: &String) -> (r: bool)
    ensures
        r == has_key(g@, name@),
{
    last_index_of(g, name).is_some()
}

impl TemplateInput {
    /// Checks this entry for file `filename` against the files of the
    /// templates directory and the colorschemes, and resolves its defaults.
    pub fn validate(&self, filename: &String, colorschemes: &Vec<(String, ColorschemeInput)>, template_files: &Vec<String>, output_root: &String) -> (r: Result<TemplateIntermediate, ConfigError>)
        ensures
            !listed(template_files@, template_files@.len() as int, filename@) ==> (r matches Err(ConfigError::TemplateSourceMissing(f)) && f@ == filename@),
            listed(template_files@, template_files@.len() as int, filename@) && self.theme is Some && !has_key(colorschemes@, self.theme->Some_0@)
                ==> (r matches Err(ConfigError::UnknownColorscheme(n)) && n@ == self.theme->Some_0@),
            !template_entry_bad(*self, filename@, template_files@, colorschemes@) ==> (r matches Ok(d) && template_spec(*self, filename@, output_root@, d)),
    {
        if !file_listed(template_files, template_files.len(), filename) {
            return Err(ConfigError::TemplateSourceMissing(filename.clone()));
        }
        if let Some(theme) = &self.theme {
            if !scheme_named(colorschemes, theme) {
                return Err(ConfigError::UnknownColorscheme(theme.clone()));
            }
        }
        let default = default_name_string();
        let theme = some_or(&self.theme, &default);
        let output_dir = some_or(&self.output, output_root);
        let output_name = some_or(&self.name, filename);
        Ok(TemplateIntermediate { theme, output_dir, output_name })
    }
}

impl ConfigInput {
    /// Validates the colorschemes and the explicit template entries, and adds
    /// a default template for each file of `template_files` that no entry
    /// names, to be written to `output_root`.
    pub fn validate(&self, template_files: &Vec<String>, output_root: &String) -> (r: Result<ConfigIntermediate, ConfigError>)
        ensures
            !input_valid(*self, template_files@) ==> (r matches Err(e) && validation_error(*self, template_files@, e)),
            input_valid(*self, template_files@) ==> (r matches Ok(ci) && config_validated_as(*self, template_files@, output_root@, ci)),
    {
        let default = default_name_string();
        if !scheme_named(&self.colorschemes, &default) {
            return Err(ConfigError::NoDefaultColorscheme);
        }
        let mut colorschemes: Vec<(String, ColorschemeIntermediate)> = Vec::new();
        for k in 0..self.colorschemes.len()
            invariant
                has_key(self.colorschemes@, default_name()),
                colorschemes@.len() == k,
                forall|j: int| 0 <= j < k ==> (#[trigger] colorschemes@[j]).0@ == self.colorschemes@[j].0@
                    && validated_as(self.colorschemes@[j].1.0@, colorschemes@[j].1),
                forall|j: int| 0 <= j < k ==> scheme_input_ok((#[trigger] self.colorschemes@[j]).1.0@),
        {
            let entry = &self.colorschemes[k];
            match entry.1.validate() {
                Ok(d) => {
                    colorschemes.push((entry.0.clone(), d));
                },
                Err(e) => {
                    assert(!scheme_input_ok(self.colorschemes@[k as int].1.0@));
                    assert(scheme_error(self.colorschemes@[k as int].1.0@, e));
                    assert(first_bad_scheme(self.colorschemes@, k as int));
                    return Err(e);
                },
            }
        }
        let empty: Vec<(String, TemplateInput)> = Vec::new();
        let ex = match &self.templates {
            Some(v) => v,
            None => &empty,
        };
        assert(ex@ == explicit_entries(*self));
        let mut templates: Vec<(String, TemplateIntermediate)> = Vec::new();
        for k in 0..ex.len()
            invariant
                has_key(self.colorschemes@, default_name()),
                forall|j: int| 0 <= j < self.colorschemes@.len() ==> scheme_input_ok((#[trigger] self.colorschemes@[j]).1.0@),
                colorschemes@.len() == self.colorschemes@.len(),
                forall|j: int| 0 <= j < self.colorschemes@.len() ==> (#[trigger] colorschemes@[j]).0@ == self.colorschemes@[j].0@
                    && validated_as(self.colorschemes@[j].1.0@, colorschemes@[j].1),
                ex@ == explicit_entries(*self),
                templates@.len() == k,
                forall|j: int| 0 <= j < k ==> (#[trigger] templates@[j]).0@ == ex@[j].0@
                    && template_spec(ex@[j].1, ex@[j].0@, output_root@, templates@[j].1),
                forall|j: int| 0 <= j < k ==> !template_entry_bad((#[trigger] ex@[j]).1, ex@[j].0@, template_files@, self.colorschemes@),
        {
            let entry = &ex[k];
            match entry.1.validate(&entry.0, &self.colorschemes, template_files, output_root) {
                Ok(d) => {
                    templates.push((entry.0.clone(), d));
                },
                Err(e) => {
                    assert(template_entry_bad(ex@[k as int].1, ex@[k as int].0@, template_files@, self.colorschemes@));
                    assert(template_error(ex@[k as int].1, ex@[k as int].0@, template_files@, e));
                    assert(first_bad_template(*self, template_files@, k as int));
                    return Err(e);
                },
            }
        }
        let ghost nex = ex@.len() as int;
        for k in 0..template_files.len()
            invariant
                input_valid(*self, template_files@),
                colorschemes@.len() == self.colorschemes@.len(),
                forall|j: int| 0 <= j < self.colorschemes@.len() ==> (#[trigger] colorschemes@[j]).0@ == self.colorschemes@[j].0@
                    && validated_as(self.colorschemes@[j].1.0@, colorschemes@[j].1),
                ex@ == explicit_entries(*self),
                nex == ex@.len(),
                templates@.len() == nex + implicit_files(template_files@.take(k as int), ex@).len(),
                forall|j: int| 0 <= j < nex ==> (#[trigger] templates@[j]).0@ == ex@[j].0@
                    && template_spec(ex@[j].1, ex@[j].0@, output_root@, templates@[j].1),
                forall|j: int| 0 <= j < implicit_files(template_files@.take(k as int), ex@).len()
                    ==> (#[trigger] templates@[nex + j]).0@ == implicit_files(template_files@.take(k as int), ex@)[j]
                    && implicit_spec(implicit_files(template_files@.take(k as int), ex@)[j], output_root@, templates@[nex + j].1),
        {
            let ghost before = template_files@.take(k as int);
            let ghost after = template_files@.take(k + 1);
            proof {
                assert(after.drop_last() =~= before);
                assert(listed(after, k as int, template_files@[k as int]@) == listed(template_files@, k as int, template_files@[k as int]@)) by {
                    if listed(after, k as int, template_files@[k as int]@) {
                        let j = choose|j: int| 0 <= j < k && after[j]@ == template_files@[k as int]@;
                        assert(template_files@[j] == after[j]);
                    }
                    if listed(template_files@, k as int, template_files@[k as int]@) {
                        let j = choose|j: int| 0 <= j < k && template_files@[j]@ == template_files@[k as int]@;
                        assert(template_files@[j] == after[j]);
                    }
                }
            }
            let file = &template_files[k];
            if !scheme_named(ex, file) && !file_listed(template_files, k, file) {
                let t = TemplateIntermediate::new(file, output_root);
                templates.push((file.clone(), t));
            }
        }
        assert(template_files@.take(template_files@.len() as int) =~= template_files@);
        let ci = ConfigIntermediate { colorschemes, templates };
        assert(config_validated_as(*self, template_files@, output_root@, ci));
        Ok(ci)
    }
}

impl ConfigIntermediate {
    /// Compiles every colorscheme, in resolution order.
    fn construct_colorschemes(&self) -> (r: Result<Vec<(String, Colorscheme)>, ConfigError>)
        requires
            names_distinct(self.colorschemes@),
        ensures
            match r {
                Ok(cs) => all_defined(self.colorschemes@) && has_topological_order(self.colorschemes@)
                    && compiled_schemes(self.colorschemes@) == Ok::<Map<Seq<char>, Map<Seq<char>, Seq<char>>>, Seq<char>>(assoc(cs@)),
                Err(ConfigError::RenameSourceMissing(k)) => all_defined(self.colorschemes@) && has_topological_order(self.colorschemes@)
                    && compiled_schemes(self.colorschemes@) == Err::<Map<Seq<char>, Map<Seq<char>, Seq<char>>>, Seq<char>>(k@),
                Err(e) => strategy_result(self.colorschemes@, Err(e)),
            },
    {
        let g = &self.colorschemes;
        let order = match compilation_strategy(g) {
            Ok(order) => order,
            Err(e) => {
                return Err(e);
            },
        };
        let ghost o = resolution(g@);
        proof {
            lemma_resolution_topological(g@, o);
            assert(order@.len() == o.len()) by {
                assert(order@.map_values(|s: String| s@).len() == order@.len());
            }
        }
        let mut res: Vec<(String, Colorscheme)> = Vec::new();
        for k in 0..order.len()
            invariant
                g@ == self.colorschemes@,
                names_distinct(g@),
                all_defined(g@),
                has_topological_order(g@),
                is_resolution(g@, o),
                o == resolution(g@),
                order@.len() == o.len(),
                order@.map_values(|s: String| s@) == order_names(g@, o),
                compiled_env(g@, o.take(k as int)) == Ok::<Map<Seq<char>, Map<Seq<char>, Seq<char>>>, Seq<char>>(assoc(res@)),
                forall|j: int| 0 <= j < k ==> assoc(res@).contains_key(#[trigger] g@[o[j]].0@),
        {
            let ghost ok = o[k as int];
            proof {
                assert(is_ready(g@, o.take(k as int), ok));
                assert(order@[k as int]@ == order@.map_values(|s: String| s@)[k as int]);
                assert(order@[k as int]@ == g@[ok].0@);
            }
            let name = &order[k];
            let i = match last_index_of(g, name) {
                Some(i) => i,
                None => {
                    assert(g@[ok].0@ == name@);
                    unreached()
                },
            };
            proof {
                if i as int != ok {
                    assert(g@[i as int].0@ == g@[ok].0@);
                }
                assert forall|d: int| 0 <= d < g@[ok].1.settings.inherit@.len()
                    implies assoc(res@).contains_key(#[trigger] g@[ok].1.settings.inherit@[d]@) by {
                    assert(is_done(g@, o.take(k as int), g@[ok].1.settings.inherit@[d]@));
                    let j = choose|j: int| 0 <= j < o.take(k as int).len() && g@[o.take(k as int)[j]].0@ == g@[ok].1.settings.inherit@[d]@;
                    assert(o.take(k as int)[j] == o[j]);
                }
                assert(o.take(k + 1).drop_last() =~= o.take(k as int));
                assert(o.take(k + 1).last() == ok);
            }
            match g[i].1.compile(&res) {
                Ok(c) => {
                    let p = (name.clone(), c);
                    proof {
                        lemma_assoc_push(res@, p);
                    }
                    res.push(p);
                },
                Err(e) => {
                    proof {
                        assert(g@[i as int] == g@[ok]);
                        let ks = compile_spec(g@[ok].1, assoc(res@))->Err_0;
                        assert(compile_spec(g@[ok].1, assoc(res@)) is Err);
                        assert(compiled_env(g@, o.take(k + 1)) == Err::<Map<Seq<char>, Map<Seq<char>, Seq<char>>>, Seq<char>>(ks));
                        lemma_env_err_stays(g@, o, k + 1);
                    }
                    return Err(e);
                },
            }
        }
        assert(o.take(o.len() as int) =~= o);
        Ok(res)
    }

    /// Builds the template list, each with its compiled colorscheme.
    fn construct_templates(&self, colorschemes: &Vec<(String, Colorscheme)>) -> (r: Result<Vec<Template>, ConfigError>)
        ensures
            (exists|k: int| 0 <= k < self.templates@.len() && !assoc(colorschemes@).contains_key(#[trigger] self.templates@[k].1.theme@))
                ==> (r matches Err(ConfigError::UnknownColorscheme(n))
                    && exists|k: int| 0 <= k < self.templates@.len() && #[trigger] self.templates@[k].1.theme@ == n@ && !assoc(colorschemes@).contains_key(n@)),
            !(exists|k: int| 0 <= k < self.templates@.len() && !assoc(colorschemes@).contains_key(#[trigger] self.templates@[k].1.theme@))
                ==> (r matches Ok(ts) && templates_built(self.templates@, assoc(colorschemes@), ts@)),
    {
        let ghost env = assoc(colorschemes@);
        let mut res: Vec<Template> = Vec::new();
        for k in 0..self.templates.len()
            invariant
                env == assoc(colorschemes@),
                res@.len() == k,
                forall|j: int| 0 <= j < k ==> env.contains_key(#[trigger] self.templates@[j].1.theme@),
                templates_built(self.templates@.take(k as int), env, res@),
        {
            let entry = &self.templates[k];
            match last_index_of(colorschemes, &entry.1.theme) {
                Some(j) => {
                    proof {
                        lemma_assoc_last(colorschemes@, j as int);
                    }
                    let t = Template {
                        theme: colorschemes[j].1.duplicate(),
                        input: entry.0.clone(),
                        output_dir: entry.1.output_dir.clone(),
                        output_name: entry.1.output_name.clone(),
                    };
                    res.push(t);
                    assert(self.templates@.take(k + 1) =~= self.templates@.take(k as int).push(*entry));
                },
                None => {
                    proof {
                        lemma_assoc_absent(colorschemes@, entry.1.theme@);
                    }
                    return Err(ConfigError::UnknownColorscheme(entry.1.theme.clone()));
                },
            }
        }
        assert(self.templates@.take(self.templates@.len() as int) =~= self.templates@);
        Ok(res)
    }

    /// Compiles all colorschemes and builds every template with its
    /// compiled colorscheme.
    pub fn construct(&self) -> (r: Result<Vec<Template>, ConfigError>)
        requires
            names_distinct(self.colorschemes@),
        ensures
            construct_result(*self, r),
    {
        let colorschemes = match self.construct_colorschemes() {
            Ok(c) => c,
            Err(e) => {
                return Err(e);
            },
        };
        self.construct_templates(&colorschemes)
    }
}

impl Template {
    /// Substitutes the colors of this template's colorscheme for their
    /// placeholders in `input`.
    pub fn insert_colors(&self, input: String) -> (r: String)
        ensures
            r@ == render(self.theme@, input@),
    {
        render_text(&self.theme, input.as_str())
    }
}

/// What `Config::new` returns: nothing when the input is invalid, and
/// otherwise what constructing its validated form gives.
pub open spec fn config_result(input: ConfigInput, files: Seq<String>, output_root: Seq<char>, r: Result<Config, ConfigError>) -> bool {
    if !input_valid(input, files) {
        r matches Err(e) && validation_error(input, files, e)
    } else {
        exists|ci: ConfigIntermediate| #[trigger] config_validated_as(input, files, output_root, ci)
            && construct_result(ci, match r {
                Ok(c) => Ok(c.templates),
                Err(e) => Err(e),
            })
    }
}

/// Construction gives a template without an entry the compiled default
/// colorscheme, its own file as input, and the output root and file name as
/// output.
pub proof fn lemma_implicit_template_built(ci: ConfigIntermediate, output_root: Seq<char>, ts: Vec<Template>, k: int)
    requires
        construct_result(ci, Ok(ts)),
        0 <= k < ci.templates@.len(),
        implicit_spec(ci.templates@[k].0@, output_root, ci.templates@[k].1),
    ensures
        compiled_schemes(ci.colorschemes@) is Ok,
        compiled_schemes(ci.colorschemes@)->Ok_0.contains_key(default_name()),
        ts@[k].theme@ == compiled_schemes(ci.colorschemes@)->Ok_0[default_name()],
        ts@[k].input@ == ci.templates@[k].0@,
        ts@[k].output_dir@ == output_root,
        ts@[k].output_name@ == ci.templates@[k].0@,
{
    assert(templates_built(ci.templates@, compiled_schemes(ci.colorschemes@)->Ok_0, ts@));
}

/// A file of the templates directory that no entry names is rendered with
/// the compiled default colorscheme and written under its own name to the
/// output root.
pub proof fn lemma_unnamed_file_rendered_with_default(input: ConfigInput, files: Seq<String>, output_root: Seq<char>, config: Config, j: int)
    requires
        config_result(input, files, output_root, Ok(config)),
        0 <= j < files.len(),
        !has_key(explicit_entries(input), files[j]@),
    ensures
        exists|k: int| 0 <= k < config.templates@.len()
            && (#[trigger] config.templates@[k]).input@ == files[j]@
            && config.templates@[k].output_dir@ == output_root
            && config.templates@[k].output_name@ == files[j]@
            && exists|ci: ConfigIntermediate| #[trigger] config_validated_as(input, files, output_root, ci)
                && compiled_schemes(ci.colorschemes@) is Ok
                && compiled_schemes(ci.colorschemes@)->Ok_0.contains_key(default_name())
                && config.templates@[k].theme@ == compiled_schemes(ci.colorschemes@)->Ok_0[default_name()],
{
    let ci = choose|ci: ConfigIntermediate| #[trigger] config_validated_as(input, files, output_root, ci)
        && construct_result(ci, Ok(config.templates));
    lemma_unnamed_file_gets_default(input, files, output_root, ci, j);
    let k = choose|k: int| 0 <= k < ci.templates@.len() && (#[trigger] ci.templates@[k]).0@ == files[j]@
        && implicit_spec(files[j]@, output_root, ci.templates@[k].1);
    let env = compiled_schemes(ci.colorschemes@)->Ok_0;
    assert(templates_built(ci.templates@, env, config.templates@));
    assert(config.templates@[k].input@ == ci.templates@[k].0@);
}

impl Config {
    /// Validates the configuration against the files of the templates
    /// directory, compiles the colorschemes and builds the templates.
    pub fn new(input: &ConfigInput, template_files: &Vec<String>, output_root: &String) -> (r: Result<Config, ConfigError>)
        requires
            keys_distinct(input.colorschemes@),
        ensures
            config_result(*input, template_files@, output_root@, r),
            !has_key(input.colorschemes@, default_name()) ==> r matches Err(ConfigError::NoDefaultColorscheme),
    {
        let ci = match input.validate(template_files, output_root) {
            Ok(ci) => ci,
            Err(e) => {
                return Err(e);
            },
        };
        proof {
            assert(names_distinct(ci.colorschemes@)) by {
                assert forall|i: int, j: int| 0 <= i < j < ci.colorschemes@.len() implies ci.colorschemes@[i].0@ != ci.colorschemes@[j].0@ by {
                    assert(ci.colorschemes@[i].0@ == input.colorschemes@[i].0@);
                    assert(ci.colorschemes@[j].0@ == input.colorschemes@[j].0@);
                }
            }
        }
        match ci.construct() {
            Ok(templates) => Ok(Config { templates }),
            Err(e) => Err(e),
        }
    }
}

} // verus!
