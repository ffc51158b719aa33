use reviewbuddy::render::{escape_into, render_line, Token};

fn token(start: usize, end: usize, class: &'static str) -> Token {
    Token { start, end, class }
}

/// What a browser shows: the tags taken out and the references resolved.
fn shown(html: &str) -> String {
    let mut out = String::new();
    let mut inside = false;
    for c in html.chars() {
        match (inside, c) {
            (false, '<') => inside = true,
            (true, '>') => inside = false,
            (false, c) => out.push(c),
            (true, _) => {}
        }
    }
    out.replace("&lt;", "<").replace("&gt;", ">").replace("&amp;", "&")
}

#[test]
fn plain_line_is_escaped() {
    assert_eq!(render_line("a < b && c > d", &[], &[]), "a &lt; b &amp;&amp; c &gt; d");
}

#[test]
fn empty_line_stays_empty() {
    assert_eq!(render_line("", &[token(0, 3, "k")], &[(0, 1)]), "");
}

#[test]
fn classes_become_spans() {
    assert_eq!(
        render_line("let x", &[token(0, 3, "k")], &[]),
        "<span class=\"k\">let</span> x"
    );
}

#[test]
fn emphasis_without_a_class_is_an_x() {
    assert_eq!(render_line("ab", &[], &[(1, 2)]), "a<span class=\"x\">b</span>");
}

#[test]
fn emphasis_overlays_classes() {
    assert_eq!(
        render_line("abcdef", &[token(0, 4, "s")], &[(2, 6)]),
        "<span class=\"s\">ab</span><span class=\"s x\">cd</span><span class=\"x\">ef</span>"
    );
}

#[test]
fn the_first_token_over_a_byte_decides() {
    assert_eq!(
        render_line("abc", &[token(0, 2, "k"), token(1, 3, "s")], &[]),
        "<span class=\"k\">a</span><span class=\"k\">b</span><span class=\"s\">c</span>"
    );
}

#[test]
fn ranges_behind_the_line_are_clipped() {
    assert_eq!(
        render_line("ab", &[token(1, 99, "c")], &[(50, 60)]),
        "a<span class=\"c\">b</span>"
    );
}

#[test]
fn cuts_inside_a_character_are_left_out() {
    // The range starts in the middle of the two bytes of the first character.
    assert_eq!(render_line("éa", &[token(1, 2, "k")], &[]), "éa");
    assert_eq!(
        render_line("éa", &[token(1, 3, "k")], &[(2, 3)]),
        "é<span class=\"k x\">a</span>"
    );
}

#[test]
fn a_browser_shows_the_line() {
    let line = "if a < b && s == \"<é>\" { &amp; }";
    let tokens = [token(0, 2, "k"), token(5, 6, "o"), token(17, 23, "s")];
    for emphasis in [vec![], vec![(0, 3)], vec![(1, 7), (9, 20)], vec![(0, 200)]] {
        assert_eq!(shown(&render_line(line, &tokens, &emphasis)), line);
    }
}

#[test]
fn escaping_adds_to_what_is_there() {
    let mut out = String::from("<b>");
    escape_into(&mut out, "1<2>&");
    assert_eq!(out, "<b>1&lt;2&gt;&amp;");
}
