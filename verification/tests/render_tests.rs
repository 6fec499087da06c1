use weavesolve::render_path;

/// The line without the escape sequences for green and for reset.
fn plain(line: &str) -> String {
    line.replace("\u{1b}[32m", "").replace("\u{1b}[0m", "")
}

#[test]
fn line_joins_words_with_arrows() {
    let path = vec!["cold", "cord", "card", "ward", "warm"];
    assert_eq!(plain(&render_path(&path, "warm")), "cold -> cord -> card -> ward -> warm");
}

#[test]
fn line_ends_at_the_stop_word() {
    let path = vec!["cold", "cord", "card", "ward"];
    assert_eq!(plain(&render_path(&path, "cord")), "cold -> cord");
}

#[test]
fn line_without_the_stop_word_ends_with_an_arrow() {
    let path = vec!["cold", "cord"];
    assert_eq!(plain(&render_path(&path, "warm")), "cold -> cord -> ");
}

#[test]
fn empty_path_gives_empty_line() {
    let path: Vec<&str> = Vec::new();
    assert_eq!(render_path(&path, "warm"), "");
}

#[test]
fn characters_without_counterpart_are_not_drawn() {
    let path = vec!["colder", "co"];
    assert_eq!(plain(&render_path(&path, "cold")), "cold -> co -> ");
}

#[test]
fn agreeing_characters_are_green_when_colours_are_on() {
    colored::control::set_override(true);
    let path = vec!["cold", "cord", "card"];
    let g = |c: char| format!("\u{1b}[32m{}\u{1b}[0m", c);
    let expected = format!(
        "{}ol{} -> {}o{}{} -> {}{}{}{}",
        g('c'),
        g('d'),
        g('c'),
        g('r'),
        g('d'),
        g('c'),
        g('a'),
        g('r'),
        g('d')
    );
    assert_eq!(render_path(&path, "card"), expected);
    colored::control::set_override(false);
    assert_eq!(render_path(&path, "card"), "cold -> cord -> card");
    colored::control::unset_override();
}
