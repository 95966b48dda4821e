use mdlex::inline_lexer::{InlineLexer, LexError};
use mdlex::links::LinkTable;
use mdlex::token::{InlineToken, InlineType};

fn chars(s: &str) -> Vec<char> {
    s.chars().collect()
}

fn lex(s: &str) -> Vec<InlineToken> {
    InlineLexer::new(chars(s), LinkTable::new()).tokenize().unwrap()
}

fn html(tokens: &[InlineToken]) -> String {
    tokens.iter().map(|t| t.to_html()).collect()
}

#[test]
fn plain_text_is_one_token() {
    let toks = lex("hello, world 123");
    assert_eq!(toks.len(), 1);
    assert!(matches!(toks[0].inline_type, InlineType::Text));
    assert_eq!(toks[0].text.as_deref(), Some("hello, world 123"));
    assert_eq!(html(&toks), "hello, world 123");
}

#[test]
fn bold_renders_strong() {
    let toks = lex("**x**");
    assert_eq!(toks.len(), 1);
    assert!(matches!(toks[0].inline_type, InlineType::Bold));
    assert_eq!(html(&toks), "<strong>x</strong>");
}

#[test]
fn bold_pairs_with_nearest_close() {
    let toks = lex("**a**b**c**");
    assert_eq!(toks.len(), 3);
    assert!(matches!(toks[0].inline_type, InlineType::Bold));
    assert!(matches!(toks[1].inline_type, InlineType::Text));
    assert!(matches!(toks[2].inline_type, InlineType::Bold));
    assert_eq!(html(&toks), "<strong>a</strong>b<strong>c</strong>");
}

#[test]
fn nested_bold_lexes_recursively() {
    let toks = lex("**a`c`**");
    assert_eq!(toks.len(), 1);
    assert!(matches!(toks[0].inline_type, InlineType::Bold));
    assert_eq!(toks[0].children.len(), 2);
    assert!(matches!(toks[0].children[1].inline_type, InlineType::Code));
    assert_eq!(html(&toks), "<strong>a<code>c</code></strong>");
}

#[test]
fn unmatched_bold_marker_is_literal() {
    let toks = lex("**a");
    assert_eq!(toks.len(), 1);
    assert!(matches!(toks[0].inline_type, InlineType::Text));
    assert_eq!(toks[0].text.as_deref(), Some("**a"));
}

#[test]
fn code_span() {
    let toks = lex("a `b` c");
    assert_eq!(toks.len(), 3);
    assert!(matches!(toks[1].inline_type, InlineType::Code));
    assert_eq!(toks[1].text.as_deref(), Some("b"));
    assert_eq!(html(&toks), "a <code>b</code> c");
}

#[test]
fn code_span_is_opaque() {
    let toks = lex("`**x**`");
    assert_eq!(toks.len(), 1);
    assert!(matches!(toks[0].inline_type, InlineType::Code));
    assert_eq!(html(&toks), "<code>**x**</code>");
}

#[test]
fn unmatched_backtick_is_literal() {
    let toks = lex("`code");
    assert_eq!(toks.len(), 1);
    assert!(matches!(toks[0].inline_type, InlineType::Text));
    assert_eq!(toks[0].text.as_deref(), Some("`code"));
    assert!(html(&toks).contains('`'));
    for t in &toks {
        assert!(!matches!(t.inline_type, InlineType::Code));
    }
}

#[test]
fn escape_consumes_next_character() {
    let toks = lex("\\*x\\*");
    assert_eq!(toks.len(), 1);
    assert_eq!(toks[0].text.as_deref(), Some("*x*"));
}

#[test]
fn trailing_escape_is_dropped() {
    let toks = lex("ab\\");
    assert_eq!(toks.len(), 1);
    assert_eq!(toks[0].text.as_deref(), Some("ab"));
}

#[test]
fn empty_footnote_id_is_fatal() {
    let r = InlineLexer::new(chars("[^]"), LinkTable::new()).tokenize();
    assert!(matches!(r, Err(LexError::EmptyFootnoteId)));
}

#[test]
fn empty_footnote_id_is_fatal_inside_bold() {
    let r = InlineLexer::new(chars("**[^]**"), LinkTable::new()).tokenize();
    assert!(matches!(r, Err(LexError::EmptyFootnoteId)));
}

#[test]
fn footnote_reference() {
    let toks = lex("[^1]");
    assert_eq!(toks.len(), 1);
    assert!(matches!(toks[0].inline_type, InlineType::FootNote));
    assert_eq!(toks[0].text.as_deref(), Some("1"));
    assert_eq!(html(&toks), "<span id=\"1\"></span>");
}

#[test]
fn url_with_target() {
    let toks = lex("[label](http://x)");
    assert_eq!(toks.len(), 1);
    assert!(matches!(toks[0].inline_type, InlineType::Url));
    assert_eq!(toks[0].text.as_deref(), Some("label"));
    assert_eq!(toks[0].children.len(), 1);
    assert_eq!(toks[0].children[0].text.as_deref(), Some("http://x"));
    assert_eq!(html(&toks), "<a href=\"http://x\">label</a>");
}

#[test]
fn url_without_target_renders_empty_href() {
    let toks = lex("[label]");
    assert_eq!(toks.len(), 1);
    assert!(matches!(toks[0].inline_type, InlineType::Url));
    assert_eq!(html(&toks), "<a href=\"\">label</a>");
}

#[test]
fn url_with_empty_parentheses() {
    let toks = lex("[a]()");
    assert_eq!(toks.len(), 1);
    assert_eq!(html(&toks), "<a href=\"\">a</a>");
}

#[test]
fn url_keeps_following_text() {
    let toks = lex("[a]b");
    assert_eq!(toks.len(), 2);
    assert_eq!(html(&toks), "<a href=\"\">a</a>b");
}

#[test]
fn empty_brackets_are_literal() {
    let toks = lex("[]x");
    assert_eq!(toks.len(), 1);
    assert_eq!(toks[0].text.as_deref(), Some("[]x"));
}

#[test]
fn unclosed_bracket_is_literal() {
    let toks = lex("a[b");
    assert_eq!(html(&toks), "a[b");
    for t in &toks {
        assert!(matches!(t.inline_type, InlineType::Text));
    }
}

#[test]
fn math_span() {
    let toks = lex("$x+y$");
    assert_eq!(toks.len(), 1);
    assert!(matches!(toks[0].inline_type, InlineType::Latex));
    assert_eq!(toks[0].text.as_deref(), Some("x+y"));
    assert_eq!(html(&toks), "\\(x+y\\)");
}

#[test]
fn empty_math_span_emits_nothing() {
    let toks = lex("$$");
    assert_eq!(toks.len(), 0);
}

#[test]
fn unterminated_math_drops_the_rest() {
    let toks = lex("a$rest");
    assert_eq!(toks.len(), 1);
    assert_eq!(toks[0].text.as_deref(), Some("a"));
}

#[test]
fn picture_reference() {
    let toks = lex("![[pic.png]]");
    assert_eq!(toks.len(), 1);
    assert!(matches!(toks[0].inline_type, InlineType::Picture));
    assert_eq!(toks[0].text.as_deref(), Some("pic.png"));
    assert_eq!(html(&toks), "<img src=\"pic.png\">");
}

#[test]
fn incomplete_picture_is_literal() {
    let toks = lex("![[x");
    for t in &toks {
        assert!(matches!(t.inline_type, InlineType::Text));
    }
    assert_eq!(html(&toks), "![[x");
}

#[test]
fn internal_link_resolves_through_table() {
    let mut links = LinkTable::new();
    links.add(chars("note"), chars("abc"));
    let toks = InlineLexer::new(chars("[[note]]"), links).tokenize().unwrap();
    assert_eq!(toks.len(), 1);
    assert!(matches!(toks[0].inline_type, InlineType::Url));
    assert_eq!(toks[0].text.as_deref(), Some("note"));
    assert_eq!(toks[0].children[0].text.as_deref(), Some("article/abc"));
    assert_eq!(html(&toks), "<a href=\"article/abc\">note</a>");
}

#[test]
fn unresolved_internal_link_degrades_to_text() {
    let toks = lex("[[ghost]]");
    assert_eq!(toks.len(), 1);
    assert!(matches!(toks[0].inline_type, InlineType::Text));
    assert_eq!(toks[0].text.as_deref(), Some("ghost"));
}

#[test]
fn first_table_entry_wins() {
    let mut links = LinkTable::new();
    links.add(chars("n"), chars("first"));
    links.add(chars("n"), chars("second"));
    let toks = InlineLexer::new(chars("[[n]]"), links).tokenize().unwrap();
    assert_eq!(toks[0].children[0].text.as_deref(), Some("article/first"));
}

#[test]
fn line_break_renders_br() {
    let t = InlineToken::new(InlineType::LineBreak, None, None);
    assert_eq!(t.to_html(), "<br>");
}

#[test]
fn rendering_is_deterministic() {
    let toks = lex("**a** `b` $c$ [d](e)");
    let first = html(&toks);
    let second = html(&toks);
    assert_eq!(first, second);
    assert_eq!(first, "<strong>a</strong> <code>b</code> \\(c\\) <a href=\"e\">d</a>");
}

#[test]
fn empty_input_gives_no_tokens() {
    assert_eq!(lex("").len(), 0);
}

#[test]
fn code_span_may_be_empty() {
    let toks = lex("``");
    assert_eq!(toks.len(), 1);
    assert!(matches!(toks[0].inline_type, InlineType::Code));
    assert_eq!(toks[0].text.as_deref(), Some(""));
    assert_eq!(html(&toks), "<code></code>");
}

#[test]
fn empty_bold_pair_has_no_children() {
    let toks = lex("****");
    assert_eq!(toks.len(), 1);
    assert!(matches!(toks[0].inline_type, InlineType::Bold));
    assert_eq!(toks[0].children.len(), 0);
    assert_eq!(html(&toks), "<strong></strong>");
}
