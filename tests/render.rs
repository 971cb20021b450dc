use colgen::{render_text, Color, Colorscheme, Template};

fn s(x: &str) -> String {
    x.to_string()
}

fn theme(colors: &[(&str, &str)]) -> Colorscheme {
    let mut c = Colorscheme::new();
    for (k, v) in colors {
        c.set(s(k), Color(s(v)));
    }
    c
}

fn template(colors: &[(&str, &str)]) -> Template {
    Template { theme: theme(colors), input: s("in"), output_dir: s("out"), output_name: s("in") }
}

#[test]
fn placeholder_is_replaced() {
    let t = template(&[("bg", "#000000")]);
    assert_eq!(t.insert_colors(s("background: {bg}")), "background: #000000");
}

#[test]
fn unknown_placeholder_is_kept() {
    let t = template(&[("bg", "#000000")]);
    assert_eq!(t.insert_colors(s("x {unknown} y")), "x {unknown} y");
}

#[test]
fn every_occurrence_is_replaced() {
    let t = template(&[("a", "1"), ("b", "2")]);
    assert_eq!(t.insert_colors(s("{a}{b}{a} {b}")), "121 2");
}

#[test]
fn inserted_values_are_not_rescanned() {
    let t = template(&[("a", "{b}"), ("b", "2")]);
    assert_eq!(t.insert_colors(s("{a} {b}")), "{b} 2");
}

#[test]
fn only_whole_tokens_match() {
    let t = template(&[("a", "1"), ("ab", "2")]);
    assert_eq!(t.insert_colors(s("{ab} {a} {abc} a}")), "2 1 {abc} a}");
}

#[test]
fn empty_and_unbalanced_text() {
    let t = template(&[("a", "1")]);
    assert_eq!(t.insert_colors(s("")), "");
    assert_eq!(t.insert_colors(s("{")), "{");
    assert_eq!(t.insert_colors(s("{{a}")), "{1");
    assert_eq!(t.insert_colors(s("{a}}")), "1}");
    assert_eq!(t.insert_colors(s("{a")), "{a");
}

#[test]
fn non_ascii_text_is_kept() {
    let c = theme(&[("fg", "#fff")]);
    assert_eq!(render_text(&c, "é {fg} ü"), "é #fff ü");
}

#[test]
fn empty_colorscheme_keeps_text() {
    let c = theme(&[]);
    assert_eq!(render_text(&c, "{a} b"), "{a} b");
}

#[test]
fn longest_key_wins_where_placeholders_overlap() {
    let t = template(&[("a", "1"), ("a}b", "2")]);
    assert_eq!(t.insert_colors(s("{a}b}")), "2");
    assert_eq!(t.insert_colors(s("{a}c}")), "1c}");
}
