use sexp_lexer::{is_parenthesis, is_whitespace, tokenize, utf8_width};

fn offset_in(input: &str, token: &str) -> usize {
    token.as_ptr() as usize - input.as_ptr() as usize
}

#[test]
fn empty_input_has_no_tokens() {
    assert!(tokenize("").is_empty());
}

#[test]
fn whitespace_only_input_has_no_tokens() {
    assert!(tokenize("   \t  ").is_empty());
    assert!(tokenize("\n\r\u{0B}\u{0C}\u{85}\u{A0}\u{1680}\u{2000}\u{200A}\u{2028}\u{2029}\u{202F}\u{205F}\u{3000}").is_empty());
}

#[test]
fn prefix_expression() {
    assert_eq!(tokenize("(+ 1 2)"), vec!["(", "+", "1", "2", ")"]);
}

#[test]
fn words_and_groups() {
    assert_eq!(
        tokenize("Hello (world) (this is a test)"),
        vec!["Hello", "(", "world", ")", "(", "this", "is", "a", "test", ")"]
    );
}

#[test]
fn open_parens_do_not_merge() {
    assert_eq!(tokenize("(("), vec!["(", "("]);
    assert_eq!(tokenize("))"), vec![")", ")"]);
}

#[test]
fn multibyte_word_kept_whole() {
    assert_eq!(tokenize("(café)"), vec!["(", "café", ")"]);
}

#[test]
fn characters_of_every_width() {
    assert_eq!(tokenize(" aü€𝄞 (ß)\u{3000}x"), vec!["aü€𝄞", "(", "ß", ")", "x"]);
}

#[test]
fn leading_trailing_and_repeated_whitespace() {
    assert_eq!(tokenize("  \t a \n\n  b\t"), vec!["a", "b"]);
}

#[test]
fn non_breaking_space_separates_words() {
    assert_eq!(tokenize("a\u{A0}b\u{2003}c"), vec!["a", "b", "c"]);
}

#[test]
fn parens_stand_alone() {
    let tokens = tokenize("a(b)c((d) )x(");
    assert_eq!(tokens, vec!["a", "(", "b", ")", "c", "(", "(", "d", ")", ")", "x", "("]);
    for t in &tokens {
        if t.contains('(') || t.contains(')') {
            assert_eq!(t.chars().count(), 1);
        }
    }
}

#[test]
fn tokens_non_empty_without_whitespace() {
    let input = " (define  (sq x)\t(* x x))\n ¡hola! ";
    let tokens = tokenize(input);
    assert_eq!(
        tokens,
        vec!["(", "define", "(", "sq", "x", ")", "(", "*", "x", "x", ")", ")", "¡hola!"]
    );
    for t in &tokens {
        assert!(!t.is_empty());
        assert!(!t.chars().any(char::is_whitespace));
    }
}

#[test]
fn tokens_and_gaps_rebuild_text() {
    let input = "  (let ((x 1)) \u{3000}(+ x  2))\t";
    let tokens = tokenize(input);
    let mut rebuilt = String::new();
    let mut at = 0;
    for t in &tokens {
        let start = offset_in(input, t);
        assert!(start >= at);
        let gap = &input[at..start];
        assert!(gap.chars().all(char::is_whitespace));
        rebuilt.push_str(gap);
        rebuilt.push_str(t);
        at = start + t.len();
    }
    let last = &input[at..];
    assert!(last.chars().all(char::is_whitespace));
    rebuilt.push_str(last);
    assert_eq!(rebuilt, input);
}

#[test]
fn retokenize_joined_tokens() {
    for input in ["Hello (world) (this is a test)", "((a)(b c))", "  x\t\ty  ", "", "(café)"] {
        let tokens = tokenize(input);
        let joined = tokens.join(" ");
        assert_eq!(tokenize(&joined), tokens);
    }
}

#[test]
fn whitespace_class_is_unicode_white_space() {
    for u in 0..=0x10FFFFu32 {
        if let Some(c) = char::from_u32(u) {
            assert_eq!(is_whitespace(c), c.is_whitespace(), "U+{:04X}", u);
        }
    }
}

#[test]
fn utf8_width_matches_encoding() {
    for u in 0..=0x10FFFFu32 {
        if let Some(c) = char::from_u32(u) {
            assert_eq!(utf8_width(c), c.len_utf8(), "U+{:04X}", u);
        }
    }
}

#[test]
fn only_round_brackets_are_parentheses() {
    assert!(is_parenthesis('('));
    assert!(is_parenthesis(')'));
    assert!(!is_parenthesis('['));
    assert!(!is_parenthesis('{'));
    assert!(!is_parenthesis('a'));
}
