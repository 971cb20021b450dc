use colgen::{
    compilation_strategy, Color, Colorscheme, ColorschemeIntermediate, ConfigError, ConfigIntermediate,
    SettingsIntermediate, TemplateIntermediate,
};

fn s(x: &str) -> String {
    x.to_string()
}

fn scheme(colors: &[(&str, &str)], inherit: &[&str], rename: &[(&str, &str)]) -> ColorschemeIntermediate {
    ColorschemeIntermediate {
        settings: SettingsIntermediate {
            inherit: inherit.iter().map(|n| s(n)).collect(),
            rename: rename.iter().map(|(a, b)| (s(a), s(b))).collect(),
        },
        colors: colors.iter().map(|(k, v)| (s(k), Color(s(v)))).collect(),
    }
}

fn lookup(c: &Colorscheme, key: &str) -> Option<String> {
    c.get(&s(key)).map(|c| c.0.clone())
}

fn compile_all(schemes: Vec<(&str, ColorschemeIntermediate)>) -> Result<Vec<(String, Colorscheme)>, ConfigError> {
    let names: Vec<String> = schemes.iter().map(|(n, _)| s(n)).collect();
    let config = ConfigIntermediate {
        colorschemes: schemes.into_iter().map(|(n, d)| (s(n), d)).collect(),
        templates: names
            .iter()
            .map(|n| (n.clone(), TemplateIntermediate { theme: n.clone(), output_dir: s("out"), output_name: n.clone() }))
            .collect(),
    };
    let templates = config.construct()?;
    Ok(templates.into_iter().map(|t| (t.input, t.theme)).collect())
}

fn compiled<'a>(all: &'a [(String, Colorscheme)], name: &str) -> &'a Colorscheme {
    &all.iter().find(|(n, _)| n == name).unwrap().1
}

fn key_count(c: &Colorscheme) -> usize {
    let mut keys: Vec<&String> = c.entries.iter().map(|(k, _)| k).collect();
    keys.sort();
    keys.dedup();
    keys.len()
}

#[test]
fn two_node_cycle_is_an_error() {
    let g = vec![(s("A"), scheme(&[], &["B"], &[])), (s("B"), scheme(&[], &["A"], &[]))];
    match compilation_strategy(&g) {
        Err(ConfigError::CyclicDependency { dependent, dependency }) => {
            assert_eq!(dependent, "A");
            assert_eq!(dependency, "B");
        },
        _ => panic!("expected a cycle"),
    }
}

#[test]
fn self_inheritance_is_an_error() {
    let g = vec![(s("default"), scheme(&[], &[], &[])), (s("A"), scheme(&[], &["A"], &[]))];
    match compilation_strategy(&g) {
        Err(ConfigError::CyclicDependency { dependent, dependency }) => {
            assert_eq!(dependent, "A");
            assert_eq!(dependency, "A");
        },
        _ => panic!("expected a cycle"),
    }
}

#[test]
fn unknown_inherit_is_an_error() {
    let g = vec![(s("default"), scheme(&[], &["missing"], &[]))];
    match compilation_strategy(&g) {
        Err(ConfigError::UnknownColorscheme(n)) => assert_eq!(n, "missing"),
        _ => panic!("expected an unknown colorscheme"),
    }
}

#[test]
fn order_puts_dependencies_first_and_is_stable() {
    let g = vec![
        (s("c"), scheme(&[], &["b", "a"], &[])),
        (s("b"), scheme(&[], &["a"], &[])),
        (s("a"), scheme(&[], &[], &[])),
        (s("d"), scheme(&[], &[], &[])),
    ];
    let first = compilation_strategy(&g).ok().unwrap();
    let second = compilation_strategy(&g).ok().unwrap();
    assert_eq!(first, vec![s("a"), s("b"), s("c"), s("d")]);
    assert_eq!(first, second);
}

#[test]
fn ties_go_to_the_least_name() {
    let g = vec![(s("x"), scheme(&[], &[], &[])), (s("default"), scheme(&[], &[], &[]))];
    assert_eq!(compilation_strategy(&g).ok().unwrap(), vec![s("default"), s("x")]);
}

#[test]
fn order_does_not_depend_on_input_order() {
    let a = vec![
        (s("zeta"), scheme(&[], &["default"], &[])),
        (s("default"), scheme(&[], &[], &[])),
        (s("alpha"), scheme(&[], &["zeta"], &[])),
        (s("beta"), scheme(&[], &[], &[])),
    ];
    let b = vec![
        (s("beta"), scheme(&[], &[], &[])),
        (s("alpha"), scheme(&[], &["zeta"], &[])),
        (s("default"), scheme(&[], &[], &[])),
        (s("zeta"), scheme(&[], &["default"], &[])),
    ];
    let expected = vec![s("beta"), s("default"), s("zeta"), s("alpha")];
    assert_eq!(compilation_strategy(&a).ok().unwrap(), expected);
    assert_eq!(compilation_strategy(&b).ok().unwrap(), expected);
}

#[test]
fn chained_renames_do_not_feed_each_other() {
    let r = compile_all(vec![
        ("default", scheme(&[("a", "1")], &[], &[])),
        ("c", scheme(&[], &["default"], &[("a", "f"), ("f", "g")])),
    ]);
    match r {
        Err(ConfigError::RenameSourceMissing(k)) => assert_eq!(k, "f"),
        _ => panic!("expected a missing rename source"),
    }
}

#[test]
fn renames_apply_together() {
    let all = compile_all(vec![
        ("default", scheme(&[("a", "1"), ("b", "2")], &[], &[])),
        ("swap", scheme(&[], &["default"], &[("a", "b"), ("b", "a")])),
    ])
    .ok()
    .unwrap();
    let swap = compiled(&all, "swap");
    assert_eq!(lookup(swap, "a"), Some(s("2")));
    assert_eq!(lookup(swap, "b"), Some(s("1")));
}

#[test]
fn rename_of_own_color_is_an_error() {
    let r = compile_all(vec![
        ("default", scheme(&[("x", "0")], &[], &[])),
        ("base", scheme(&[("one", "#111111")], &["default"], &[("one", "two")])),
    ]);
    match r {
        Err(ConfigError::RenameSourceMissing(k)) => assert_eq!(k, "one"),
        _ => panic!("expected a missing rename source"),
    }
}

#[test]
fn rename_all_leaves_colorscheme_unchanged_on_failure() {
    let mut c = Colorscheme::new();
    c.set(s("a"), Color(s("1")));
    let r = c.rename_all(&vec![(s("a"), s("f")), (s("f"), s("g"))]);
    assert!(matches!(r, Err(ConfigError::RenameSourceMissing(ref k)) if k == "f"));
    assert_eq!(lookup(&c, "a"), Some(s("1")));
    assert_eq!(lookup(&c, "f"), None);
}

#[test]
fn inherit_then_own_colors() {
    let all = compile_all(vec![
        ("default", scheme(&[("bg", "#000000")], &[], &[])),
        ("dark", scheme(&[("fg", "#ffffff")], &["default"], &[])),
    ])
    .ok()
    .unwrap();
    let dark = compiled(&all, "dark");
    assert_eq!(lookup(dark, "bg"), Some(s("#000000")));
    assert_eq!(lookup(dark, "fg"), Some(s("#ffffff")));
    assert_eq!(key_count(dark), 2);
}

#[test]
fn rename_moves_inherited_color() {
    let all = compile_all(vec![
        ("default", scheme(&[("one", "#111111")], &[], &[])),
        ("base", scheme(&[], &["default"], &[("one", "two")])),
    ])
    .ok()
    .unwrap();
    let base = compiled(&all, "base");
    assert_eq!(lookup(base, "two"), Some(s("#111111")));
    assert_eq!(lookup(base, "one"), None);
}

#[test]
fn rename_of_missing_color_is_an_error() {
    let r = compile_all(vec![("default", scheme(&[("one", "#111111")], &[], &[("one", "two")]))]);
    match r {
        Err(ConfigError::RenameSourceMissing(k)) => assert_eq!(k, "one"),
        _ => panic!("expected a missing rename source"),
    }
}

#[test]
fn own_colors_win_over_inherited() {
    let all = compile_all(vec![
        ("default", scheme(&[("a", "X")], &[], &[])),
        ("mine", scheme(&[("a", "Y")], &["default"], &[])),
    ])
    .ok()
    .unwrap();
    assert_eq!(lookup(compiled(&all, "mine"), "a"), Some(s("Y")));
}

#[test]
fn later_inherit_wins() {
    let all = compile_all(vec![
        ("default", scheme(&[("a", "1")], &[], &[])),
        ("other", scheme(&[("a", "2"), ("b", "3")], &[], &[])),
        ("both", scheme(&[], &["default", "other"], &[])),
        ("reverse", scheme(&[], &["other", "default"], &[])),
    ])
    .ok()
    .unwrap();
    assert_eq!(lookup(compiled(&all, "both"), "a"), Some(s("2")));
    assert_eq!(lookup(compiled(&all, "reverse"), "a"), Some(s("1")));
    assert_eq!(lookup(compiled(&all, "reverse"), "b"), Some(s("3")));
}

#[test]
fn rename_target_wins_over_inherited() {
    let all = compile_all(vec![
        ("default", scheme(&[("a", "1"), ("b", "2")], &[], &[])),
        ("r", scheme(&[], &["default"], &[("a", "b")])),
    ])
    .ok()
    .unwrap();
    let r = compiled(&all, "r");
    assert_eq!(lookup(r, "b"), Some(s("1")));
    assert_eq!(lookup(r, "a"), None);
}

#[test]
fn transitive_inheritance() {
    let all = compile_all(vec![
        ("top", scheme(&[("c", "3")], &["mid"], &[])),
        ("mid", scheme(&[("b", "2")], &["default"], &[])),
        ("default", scheme(&[("a", "1")], &[], &[])),
    ])
    .ok()
    .unwrap();
    let top = compiled(&all, "top");
    assert_eq!(lookup(top, "a"), Some(s("1")));
    assert_eq!(lookup(top, "b"), Some(s("2")));
    assert_eq!(lookup(top, "c"), Some(s("3")));
}

#[test]
fn template_with_unknown_theme_fails_construction() {
    let config = ConfigIntermediate {
        colorschemes: vec![(s("default"), scheme(&[], &[], &[]))],
        templates: vec![(s("t"), TemplateIntermediate { theme: s("nope"), output_dir: s("o"), output_name: s("t") })],
    };
    match config.construct() {
        Err(ConfigError::UnknownColorscheme(n)) => assert_eq!(n, "nope"),
        _ => panic!("expected an unknown colorscheme"),
    }
}

#[test]
fn colorscheme_set_remove_and_duplicate() {
    let mut c = Colorscheme::new();
    c.set(s("a"), Color(s("1")));
    c.set(s("a"), Color(s("2")));
    assert_eq!(lookup(&c, "a"), Some(s("2")));
    assert_eq!(c.entries.len(), 1);
    let d = c.duplicate();
    c.remove(&s("a"));
    assert_eq!(lookup(&c, "a"), None);
    assert_eq!(lookup(&d, "a"), Some(s("2")));
}

#[test]
fn inheriting_a_missing_colorscheme_is_a_typed_error() {
    let mut c = Colorscheme::new();
    c.set(s("a"), Color(s("1")));
    let state = vec![(s("default"), Colorscheme::new())];
    let r = c.inherit_all(&vec![s("default"), s("missing")], &state);
    assert!(matches!(r, Err(ConfigError::UnknownColorscheme(ref n)) if n == "missing"));
    assert_eq!(lookup(&c, "a"), Some(s("1")));
    let d = scheme(&[], &["missing"], &[]);
    assert!(matches!(d.compile(&state), Err(ConfigError::UnknownColorscheme(ref n)) if n == "missing"));
}

#[test]
fn cycle_error_names_least_left_out_colorscheme_and_first_unfinished_entry() {
    let a = vec![
        (s("d"), scheme(&[], &["c"], &[])),
        (s("default"), scheme(&[], &[], &[])),
        (s("c"), scheme(&[], &["default", "d"], &[])),
        (s("e"), scheme(&[], &["default"], &[])),
    ];
    let mut b = a.iter().map(|(n, d)| (n.clone(), scheme(&[], &d.settings.inherit.iter().map(|x| x.as_str()).collect::<Vec<_>>(), &[]))).collect::<Vec<_>>();
    b.reverse();
    for g in [a, b] {
        match compilation_strategy(&g) {
            Err(ConfigError::CyclicDependency { dependent, dependency }) => {
                assert_eq!(dependent, "c");
                assert_eq!(dependency, "d");
            },
            _ => panic!("expected a cycle"),
        }
    }
}

#[test]
fn unknown_error_names_least_colorscheme_and_first_unknown_entry() {
    let a = vec![
        (s("z"), scheme(&[], &["m1"], &[])),
        (s("default"), scheme(&[], &[], &[])),
        (s("b"), scheme(&[], &["default", "m2", "m3"], &[])),
    ];
    let b = vec![
        (s("b"), scheme(&[], &["default", "m2", "m3"], &[])),
        (s("default"), scheme(&[], &[], &[])),
        (s("z"), scheme(&[], &["m1"], &[])),
    ];
    for g in [a, b] {
        match compilation_strategy(&g) {
            Err(ConfigError::UnknownColorscheme(n)) => assert_eq!(n, "m2"),
            _ => panic!("expected an unknown colorscheme"),
        }
    }
}
