use command_template::tokenizer::{tokenize, Token};

fn literals(s: &str) -> Vec<Token> {
    s.chars().map(Token::Character).collect()
}

#[test]
fn empty_template_has_no_tokens() {
    assert_eq!(tokenize(""), Vec::<Token>::new());
}

#[test]
fn unknown_pattern_is_literal() {
    assert_eq!(tokenize("{x}"), vec![Token::Character('{'), Token::Character('x'),
        Token::Character('}')]);
}

#[test]
fn unclosed_pattern_has_no_closing_brace() {
    assert_eq!(tokenize("foo{ba"), vec![Token::Character('f'), Token::Character('o'),
        Token::Character('o'), Token::Character('{'), Token::Character('b'),
        Token::Character('a')]);
}

#[test]
fn lone_open_brace_at_end() {
    assert_eq!(tokenize("a{"), vec![Token::Character('a'), Token::Character('{')]);
}

#[test]
fn lone_close_brace_is_literal() {
    assert_eq!(tokenize("a}b"), literals("a}b"));
}

#[test]
fn inner_open_brace_is_pattern_text() {
    assert_eq!(tokenize("{{/}}"), vec![Token::Character('{'), Token::Character('{'),
        Token::Character('/'), Token::Character('}'), Token::Character('}')]);
}

#[test]
fn directive_spelling_is_exact() {
    assert_eq!(tokenize("{ .}"), literals("{ .}"));
    assert_eq!(tokenize("{/./}"), literals("{/./}"));
    assert_eq!(tokenize("{^#}"), literals("{^#}"));
}

#[test]
fn brace_free_text_maps_to_literals() {
    let s = "path/to file.txt ünï";
    let r = tokenize(s);
    assert_eq!(r.len(), s.chars().count());
    assert_eq!(r, literals(s));
}

#[test]
fn directives_back_to_back() {
    assert_eq!(tokenize("{#}{%}{#^}x{//}"), vec![Token::Job, Token::Slot, Token::JobTotal,
        Token::Character('x'), Token::Dirname]);
}

#[test]
fn directive_between_words_keeps_neighbours() {
    assert_eq!(tokenize("a{/.}b"), vec![Token::Character('a'), Token::BaseAndExt,
        Token::Character('b')]);
}
