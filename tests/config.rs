use colgen::{
    Color, ColorschemeInput, ColorschemeValue, Config, ConfigError, ConfigInput, SettingsInput, TemplateInput,
};

fn s(x: &str) -> String {
    x.to_string()
}

fn colors(pairs: &[(&str, &str)]) -> Vec<(String, ColorschemeValue)> {
    pairs.iter().map(|(k, v)| (s(k), ColorschemeValue::Color(Color(s(v))))).collect()
}

fn with_settings(mut entries: Vec<(String, ColorschemeValue)>, inherit: &[&str], rename: &[(&str, &str)]) -> Vec<(String, ColorschemeValue)> {
    entries.push((
        s("settings"),
        ColorschemeValue::Settings(SettingsInput {
            inherit: Some(inherit.iter().map(|n| s(n)).collect()),
            rename: Some(rename.iter().map(|(a, b)| (s(a), s(b))).collect()),
        }),
    ));
    entries
}

fn basic_input(templates: Option<Vec<(String, TemplateInput)>>) -> ConfigInput {
    ConfigInput {
        colorschemes: vec![
            (s("dark"), ColorschemeInput(with_settings(colors(&[("fg", "#ffffff")]), &["default"], &[]))),
            (s("default"), ColorschemeInput(colors(&[("bg", "#000000")]))),
        ],
        templates,
    }
}

fn lookup(c: &colgen::Colorscheme, key: &str) -> Option<String> {
    c.get(&s(key)).map(|c| c.0.clone())
}

#[test]
fn file_without_entry_uses_default() {
    let files = vec![s("alacritty.toml")];
    let config = Config::new(&basic_input(None), &files, &s("/out")).ok().unwrap();
    assert_eq!(config.templates.len(), 1);
    let t = &config.templates[0];
    assert_eq!(t.input, "alacritty.toml");
    assert_eq!(t.output_dir, "/out");
    assert_eq!(t.output_name, "alacritty.toml");
    assert_eq!(lookup(&t.theme, "bg"), Some(s("#000000")));
    assert_eq!(lookup(&t.theme, "fg"), None);
    assert_eq!(t.insert_colors(s("bg={bg}")), "bg=#000000");
}

#[test]
fn explicit_entry_overrides_defaults() {
    let entry = TemplateInput { theme: Some(s("dark")), output: Some(s("/elsewhere")), name: Some(s("renamed")) };
    let files = vec![s("a"), s("b")];
    let config = Config::new(&basic_input(Some(vec![(s("a"), entry)])), &files, &s("/out")).ok().unwrap();
    assert_eq!(config.templates.len(), 2);
    let a = &config.templates[0];
    assert_eq!(a.input, "a");
    assert_eq!(a.output_dir, "/elsewhere");
    assert_eq!(a.output_name, "renamed");
    assert_eq!(lookup(&a.theme, "fg"), Some(s("#ffffff")));
    assert_eq!(lookup(&a.theme, "bg"), Some(s("#000000")));
    let b = &config.templates[1];
    assert_eq!(b.input, "b");
    assert_eq!(b.output_dir, "/out");
    assert_eq!(b.output_name, "b");
}

#[test]
fn explicit_entry_without_options_writes_to_output_root() {
    let entry = TemplateInput { theme: None, output: None, name: None };
    let files = vec![s("a")];
    let config = Config::new(&basic_input(Some(vec![(s("a"), entry)])), &files, &s("/out")).ok().unwrap();
    assert_eq!(config.templates.len(), 1);
    assert_eq!(config.templates[0].output_dir, "/out");
    assert_eq!(config.templates[0].output_name, "a");
}

#[test]
fn missing_default_is_an_error() {
    let input = ConfigInput { colorschemes: vec![(s("dark"), ColorschemeInput(colors(&[("a", "1")])))], templates: None };
    assert!(matches!(Config::new(&input, &vec![], &s("/out")), Err(ConfigError::NoDefaultColorscheme)));
}

#[test]
fn template_for_missing_file_is_an_error() {
    let entry = TemplateInput { theme: None, output: None, name: None };
    let r = Config::new(&basic_input(Some(vec![(s("ghost"), entry)])), &vec![s("a")], &s("/out"));
    match r {
        Err(ConfigError::TemplateSourceMissing(f)) => assert_eq!(f, "ghost"),
        _ => panic!("expected a missing template source"),
    }
}

#[test]
fn template_with_unknown_theme_is_an_error() {
    let entry = TemplateInput { theme: Some(s("light")), output: None, name: None };
    let r = Config::new(&basic_input(Some(vec![(s("a"), entry)])), &vec![s("a")], &s("/out"));
    match r {
        Err(ConfigError::UnknownColorscheme(n)) => assert_eq!(n, "light"),
        _ => panic!("expected an unknown colorscheme"),
    }
}

#[test]
fn settings_that_are_a_color_is_an_error() {
    let input = ConfigInput {
        colorschemes: vec![(s("default"), ColorschemeInput(colors(&[("settings", "#000")])))],
        templates: None,
    };
    assert!(matches!(Config::new(&input, &vec![], &s("/out")), Err(ConfigError::InvalidSettings)));
}

#[test]
fn color_that_is_a_table_is_an_error() {
    let mut entries = colors(&[("a", "1")]);
    entries.push((s("b"), ColorschemeValue::Settings(SettingsInput { inherit: None, rename: None })));
    let input = ConfigInput { colorschemes: vec![(s("default"), ColorschemeInput(entries))], templates: None };
    match Config::new(&input, &vec![], &s("/out")) {
        Err(ConfigError::InvalidColor(k)) => assert_eq!(k, "b"),
        _ => panic!("expected an invalid color"),
    }
}

#[test]
fn cycle_in_configuration_is_an_error() {
    let input = ConfigInput {
        colorschemes: vec![
            (s("default"), ColorschemeInput(with_settings(colors(&[]), &["x"], &[]))),
            (s("x"), ColorschemeInput(with_settings(colors(&[]), &["default"], &[]))),
        ],
        templates: None,
    };
    assert!(matches!(Config::new(&input, &vec![], &s("/out")), Err(ConfigError::CyclicDependency { .. })));
}

#[test]
fn rename_in_configuration() {
    let input = ConfigInput {
        colorschemes: vec![
            (s("default"), ColorschemeInput(colors(&[("one", "#111111")]))),
            (s("base"), ColorschemeInput(with_settings(colors(&[]), &["default"], &[("one", "two")]))),
        ],
        templates: Some(vec![(s("t"), TemplateInput { theme: Some(s("base")), output: None, name: None })]),
    };
    let config = Config::new(&input, &vec![s("t")], &s("/out")).ok().unwrap();
    let t = &config.templates[0];
    assert_eq!(lookup(&t.theme, "two"), Some(s("#111111")));
    assert_eq!(lookup(&t.theme, "one"), None);
    assert_eq!(t.insert_colors(s("{one}{two}")), "{one}#111111");
}

#[test]
fn color_name_with_brace_is_accepted_and_rendered() {
    let input = ConfigInput { colorschemes: vec![(s("default"), ColorschemeInput(colors(&[("{x}", "1"), ("a}b", "2")])))], templates: None };
    let config = Config::new(&input, &vec![s("t")], &s("/out")).ok().unwrap();
    let t = &config.templates[0];
    assert_eq!(lookup(&t.theme, "{x}"), Some(s("1")));
    assert_eq!(t.insert_colors(s("[{{x}}] [{a}b}] [{x}]")), "[1] [2] [{x}]");
}

#[test]
fn rename_target_with_brace_is_accepted() {
    let input = ConfigInput {
        colorschemes: vec![
            (s("default"), ColorschemeInput(colors(&[("a", "1")]))),
            (s("x"), ColorschemeInput(with_settings(colors(&[]), &["default"], &[("a", "{b")]))),
        ],
        templates: Some(vec![(s("t"), TemplateInput { theme: Some(s("x")), output: None, name: None })]),
    };
    let config = Config::new(&input, &vec![s("t")], &s("/out")).ok().unwrap();
    assert_eq!(config.templates[0].insert_colors(s("{{b}")), "1");
}
