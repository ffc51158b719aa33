use reviewbuddy::highlight::{
    alias_for, keep_rules, push_token, render_line, rule_table, Highlighter, Token,
    MAX_HIGHLIGHT_BYTES, MAX_HIGHLIGHT_LINES,
};
use reviewbuddy::scopes::ScopeOp;
use syntect::parsing::Scope;

fn spans(tokens: &[Token]) -> Vec<(usize, usize, &'static str)> {
    tokens.iter().map(|t| (t.start, t.end, t.class)).collect()
}

fn scope(name: &str) -> Scope {
    Scope::new(name).unwrap()
}

fn classified(lines: &[&str], ops: Vec<Vec<(usize, ScopeOp)>>) -> Vec<Vec<(usize, usize, &'static str)>> {
    let lines: Vec<String> = lines.iter().map(|line| line.to_string()).collect();
    let result = Highlighter::load().classify(&lines, &ops);
    result.iter().map(|tokens| spans(tokens)).collect()
}

#[test]
fn languages_are_found_by_extension() {
    let highlighter = Highlighter::load();
    assert_eq!(highlighter.language("src/main.rs"), Some("Rust".to_string()));
    assert_eq!(highlighter.language("UPPER.RS"), Some("Rust".to_string()));
    assert_eq!(highlighter.language("a.b.py"), Some("Python".to_string()));
}

#[test]
fn languages_are_found_by_whole_name() {
    let highlighter = Highlighter::load();
    assert_eq!(highlighter.language("deep/down/Makefile"), Some("Makefile".to_string()));
}

#[test]
fn languages_are_found_by_alias() {
    let highlighter = Highlighter::load();
    assert_eq!(highlighter.language("app.tsx"), Some("JavaScript".to_string()));
    assert_eq!(highlighter.language("Main.kt"), Some("Java".to_string()));
    assert_eq!(highlighter.language("App.vue"), Some("HTML".to_string()));
    assert_eq!(alias_for("fish"), Some("Bourne Again Shell (bash)"));
    assert_eq!(alias_for("rs"), None);
    assert_eq!(alias_for(""), None);
}

#[test]
fn files_without_a_grammar_have_no_language() {
    let highlighter = Highlighter::load();
    assert_eq!(highlighter.language("notes.unknown-extension"), None);
    assert_eq!(highlighter.language("a.rs/README-without-dot"), None);
    assert_eq!(highlighter.language("notes.txt"), None);
}

#[test]
fn keywords_and_names_are_classified() {
    let highlighter = Highlighter::load();
    let text = "fn main() {}\n";
    let tokens = highlighter.tokenize("a.rs", text);
    assert_eq!(tokens.len(), 1);
    assert_eq!(
        render_line("fn main() {}", &tokens[0], &[]),
        "<span class=\"k\">fn</span> <span class=\"f\">main</span>() {}"
    );
}

#[test]
fn quotes_belong_to_the_string() {
    let highlighter = Highlighter::load();
    let tokens = highlighter.tokenize("a.rs", "let s = \"x\";\n");
    assert!(spans(&tokens[0]).contains(&(8, 11, "s")));
}

#[test]
fn state_is_carried_from_line_to_line() {
    let highlighter = Highlighter::load();
    let tokens = highlighter.tokenize("a.rs", "/* a\nb */ 1\n");
    assert_eq!(tokens.len(), 2);
    assert_eq!(spans(&tokens[0])[0].2, "c");
    assert_eq!(spans(&tokens[1])[0], (0, 4, "c"));
}

#[test]
fn plain_text_is_not_classified() {
    let highlighter = Highlighter::load();
    let tokens = highlighter.tokenize("notes.unknown-extension", "fn main() {}\n\"x\"");
    assert_eq!(tokens.len(), 2);
    assert!(tokens.iter().all(|line| line.is_empty()));
}

#[test]
fn there_is_one_entry_per_line() {
    let highlighter = Highlighter::load();
    for text in ["", "\n", "a", "a\n\nb", "fn\r\nx"] {
        assert_eq!(highlighter.tokenize("a.rs", text).len(), text.lines().count());
    }
}

#[test]
fn too_many_lines_are_plain() {
    let highlighter = Highlighter::load();
    let text = "fn\n".repeat(MAX_HIGHLIGHT_LINES + 1);
    let tokens = highlighter.tokenize("a.rs", &text);
    assert_eq!(tokens.len(), MAX_HIGHLIGHT_LINES + 1);
    assert!(tokens.iter().all(|line| line.is_empty()));
}

#[test]
fn too_many_bytes_are_plain() {
    let highlighter = Highlighter::load();
    let text = format!("fn x\n{}", "a".repeat(MAX_HIGHLIGHT_BYTES));
    let tokens = highlighter.tokenize("a.rs", &text);
    assert_eq!(tokens.len(), 2);
    assert!(tokens.iter().all(|line| line.is_empty()));
}

#[test]
fn tokens_follow_one_another() {
    let highlighter = Highlighter::load();
    let text = "pub fn f(x: &str) -> u8 { x.len() as u8 + 1 } // \"done\"\n";
    let tokens = highlighter.tokenize("a.rs", text);
    let mut end = 0;
    for token in &tokens[0] {
        assert!(end <= token.start && token.start < token.end && token.end <= text.len());
        assert!(!token.class.is_empty());
        end = token.end;
    }
}

#[test]
fn ranges_of_one_class_are_joined() {
    let mut tokens = Vec::new();
    push_token(&mut tokens, 0, 2, "k");
    push_token(&mut tokens, 2, 4, "k");
    push_token(&mut tokens, 4, 6, "s");
    push_token(&mut tokens, 7, 8, "s");
    assert_eq!(spans(&tokens), [(0, 4, "k"), (4, 6, "s"), (7, 8, "s")]);
}

#[test]
fn empty_ranges_and_classes_are_left_out() {
    let mut tokens = Vec::new();
    push_token(&mut tokens, 3, 3, "k");
    push_token(&mut tokens, 3, 2, "k");
    push_token(&mut tokens, 0, 5, "");
    assert!(tokens.is_empty());
}

#[test]
fn the_innermost_known_scope_decides() {
    let ops = vec![vec![
        (0, ScopeOp::Push(scope("source.rust"))),
        (0, ScopeOp::Push(scope("string.quoted"))),
        (1, ScopeOp::Push(scope("punctuation.definition.string"))),
        (2, ScopeOp::Pop(1)),
        (3, ScopeOp::Push(scope("constant.character.escape.rust"))),
        (5, ScopeOp::Pop(1)),
    ]];
    assert_eq!(classified(&["012345\n"], ops), [vec![(0, 3, "s"), (3, 5, "e"), (5, 7, "s")]]);
}

#[test]
fn the_more_specific_rule_decides() {
    for (name, class) in [
        ("constant.numeric.integer", "n"),
        ("constant.language", "k"),
        ("constant.other", "n"),
        ("keyword.operator.assignment", "o"),
        ("keyword.control", "k"),
        ("entity.name.function.rust", "f"),
        ("entity.name.type", "t"),
        ("support.constant", "n"),
        ("variable.function", "f"),
    ] {
        let ops = vec![vec![(0, ScopeOp::Push(scope(name)))]];
        assert_eq!(classified(&["x"], ops), [vec![(0, 1, class)]]);
    }
    let ops = vec![vec![(0, ScopeOp::Push(scope("keywordish")))]];
    assert_eq!(classified(&["x"], ops), [vec![]]);
}

#[test]
fn cleared_scopes_are_restored() {
    let ops = vec![vec![
        (0, ScopeOp::Push(scope("comment"))),
        (0, ScopeOp::Push(scope("string"))),
        (1, ScopeOp::ClearTop(1)),
        (2, ScopeOp::ClearAll),
        (3, ScopeOp::Restore),
        (4, ScopeOp::Restore),
        (5, ScopeOp::Noop),
    ]];
    assert_eq!(
        classified(&["012345"], ops),
        [vec![(0, 1, "s"), (1, 2, "c"), (3, 4, "c"), (4, 6, "s")]]
    );
}

#[test]
fn popping_too_much_empties_the_stack() {
    let ops = vec![vec![
        (0, ScopeOp::Push(scope("string"))),
        (2, ScopeOp::Pop(9)),
        (3, ScopeOp::ClearTop(9)),
    ]];
    assert_eq!(classified(&["01234"], ops), [vec![(0, 2, "s")]]);
}

#[test]
fn a_change_that_cannot_be_made_ends_the_line() {
    let ops = vec![
        vec![
            (0, ScopeOp::Push(scope("string"))),
            (2, ScopeOp::Restore),
            (3, ScopeOp::Pop(1)),
        ],
        vec![],
    ];
    assert_eq!(classified(&["0123", "ab"], ops), [vec![(0, 2, "s"), (0, 4, "s")], vec![(0, 2, "s")]]);
}

#[test]
fn lines_that_were_not_parsed_are_plain() {
    let ops = vec![vec![(0, ScopeOp::Push(scope("comment")))]];
    assert_eq!(classified(&["a\n", "b\n", "c"], ops), [vec![(0, 2, "c")], vec![], vec![]]);
}

#[test]
fn rules_without_a_scope_are_left_out() {
    let table = rule_table();
    let mut made: Vec<Option<Scope>> = table.iter().map(|(name, _)| Scope::new(name).ok()).collect();
    assert_eq!(keep_rules(&table, &made).len(), table.len());
    made[0] = None;
    let kept = keep_rules(&table, &made);
    assert_eq!(kept.len(), table.len() - 1);
    assert_eq!(kept[0].1, "s");
    assert_eq!(kept[0].0.build_string(), "string");
}

#[test]
fn tokens_lie_within_their_lines() {
    let highlighter = Highlighter::load();
    let source = "fn main() {\n    let é = \"x\"; // é\n}\n/* open\n";
    let tokens = highlighter.tokenize("a.rs", source);
    let lines: Vec<_> = source.split_inclusive('\n').collect();
    assert_eq!(tokens.len(), lines.len());
    for (line, tokens) in lines.iter().zip(&tokens) {
        assert!(tokens.iter().all(|t| t.start < t.end && t.end <= line.len()));
    }
    assert!(!tokens[1].is_empty());
}

#[test]
fn a_long_line_ends_highlighting() {
    let highlighter = Highlighter::load();
    let plain = |source: &str| -> Vec<bool> {
        highlighter.tokenize("a.rs", source).iter().map(|tokens| tokens.is_empty()).collect()
    };
    let fits = format!("// {}\n", "x".repeat(16 * 1024 - 4));
    assert_eq!(plain(&format!("fn a() {{}}\n{fits}fn b() {{}}\n")), [false, false, false]);
    let long = format!("// {}\n", "x".repeat(16 * 1024 - 3));
    assert_eq!(plain(&format!("fn a() {{}}\n{long}fn b() {{}}\n")), [false, true, true]);
}

#[test]
fn a_long_marker_is_harmless() {
    let highlighter = Highlighter::load();
    let marker = "M".repeat(400_000);
    let source = format!("x = 1\ny = <<{marker}\ntext\n{marker}\n");
    let tokens = highlighter.tokenize("a.rb", &source);
    assert_eq!(tokens.len(), 4);
    assert!(!tokens[0].is_empty());
    assert!(tokens[1..].iter().all(|tokens| tokens.is_empty()));
    let marker = "M".repeat(16_000);
    let source = format!("y = <<{marker}\ntext\n{marker}\nx = 1\n");
    assert_eq!(highlighter.tokenize("a.rb", &source).len(), 4);
}
