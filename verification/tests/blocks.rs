use mdlex::block_lexer::{BlockLexer, convert_document};
use mdlex::links::LinkTable;
use mdlex::token::{BlockToken, BlockType};

fn lines(src: &[&str]) -> Vec<Vec<char>> {
    src.iter().map(|s| s.chars().collect()).collect()
}

fn blocks(src: &[&str]) -> Vec<BlockToken> {
    BlockLexer::new(lines(src), LinkTable::new()).tokenize().unwrap()
}

fn doc_html(src: &[&str]) -> String {
    convert_document(lines(src), LinkTable::new()).unwrap()
}

#[test]
fn headings_render_one_level_down() {
    assert_eq!(doc_html(&["# Title"]), "<h2>Title</h2>");
    assert_eq!(doc_html(&["## Title"]), "<h3>Title</h3>");
    assert_eq!(doc_html(&["### Title"]), "<h4>Title</h4>");
}

#[test]
fn heading_content_is_inline_lexed() {
    assert_eq!(doc_html(&["# a **b**"]), "<h2>a \n<strong>b</strong></h2>");
}

#[test]
fn plain_lines_merge_into_one_paragraph() {
    let bs = blocks(&["a", "b"]);
    assert_eq!(bs.len(), 1);
    assert!(bs[0].is_same_type(BlockType::Plain));
    assert_eq!(bs[0].to_html(), "<p>a\n<br>\nb</p>");
}

#[test]
fn double_empty_line_gives_one_empty_block() {
    let bs = blocks(&["a", "", "", "b"]);
    assert_eq!(bs.len(), 3);
    assert!(bs[0].is_same_type(BlockType::Plain));
    assert!(bs[1].is_same_type(BlockType::Empty));
    assert!(bs[2].is_same_type(BlockType::Plain));
    assert_eq!(bs[1].to_html(), "<br>");
}

#[test]
fn single_empty_line_separates_paragraphs() {
    let bs = blocks(&["a", "", "b"]);
    assert_eq!(bs.len(), 2);
    assert!(bs[0].is_same_type(BlockType::Plain));
    assert!(bs[1].is_same_type(BlockType::Plain));
    assert_eq!(bs[0].to_html(), "<p>a</p>");
    assert_eq!(bs[1].to_html(), "<p>b</p>");
}

#[test]
fn horizontal_rule() {
    let bs = blocks(&["---"]);
    assert_eq!(bs.len(), 1);
    assert!(bs[0].is_same_type(BlockType::Hr));
    assert_eq!(bs[0].to_html(), "<hr>");
}

#[test]
fn fenced_block_stores_content_and_language() {
    let bs = blocks(&["```lang", "code", "```"]);
    assert_eq!(bs.len(), 1);
    assert!(bs[0].is_same_type(BlockType::CodeBlock));
    assert_eq!(bs[0].inline_tokens.len(), 2);
    assert_eq!(bs[0].inline_tokens[0].text.as_deref(), Some("code"));
    assert_eq!(bs[0].inline_tokens[1].text.as_deref(), Some("lang"));
}

#[test]
fn fenced_block_joins_lines_with_newlines() {
    let bs = blocks(&["```", "a", "b", "```"]);
    assert_eq!(bs[0].inline_tokens[0].text.as_deref(), Some("a\nb"));
    assert_eq!(bs[0].inline_tokens[1].text.as_deref(), Some(""));
}

#[test]
fn code_block_content_is_not_inline_lexed() {
    let bs = blocks(&["```", "**x**", "```"]);
    assert_eq!(bs[0].inline_tokens[0].text.as_deref(), Some("**x**"));
}

#[test]
fn unterminated_fence_falls_through_to_plain() {
    let bs = blocks(&["```rust", "a"]);
    assert_eq!(bs.len(), 1);
    assert!(bs[0].is_same_type(BlockType::Plain));
    assert_eq!(bs[0].to_html(), "<p><code></code>\n`\n<br>\na</p>");
}

#[test]
fn quote_collects_marked_and_continuation_lines() {
    let bs = blocks(&["> a", "b", "c"]);
    assert_eq!(bs.len(), 2);
    assert!(bs[0].is_same_type(BlockType::Quote));
    assert!(bs[1].is_same_type(BlockType::Plain));
    assert_eq!(bs[0].to_html(), "<blockquote>a\n<br>\nb</blockquote>");
    assert_eq!(bs[1].to_html(), "<p>c</p>");
}

#[test]
fn quote_marker_lines_are_trimmed() {
    let bs = blocks(&[">   spaced   "]);
    assert_eq!(bs[0].to_html(), "<blockquote>spaced</blockquote>");
}

#[test]
fn quote_stops_at_empty_line() {
    let bs = blocks(&["> a", "", "x"]);
    assert_eq!(bs.len(), 2);
    assert!(bs[0].is_same_type(BlockType::Quote));
    assert!(bs[1].is_same_type(BlockType::Plain));
}

#[test]
fn footnote_definition() {
    let bs = blocks(&["[^id]: body"]);
    assert_eq!(bs.len(), 1);
    assert!(bs[0].is_same_type(BlockType::FootNote));
    assert_eq!(bs[0].inline_tokens[0].text.as_deref(), Some("id"));
    assert_eq!(bs[0].to_html(), "<foot-note for=\"id\"> body</foot-note>");
}

#[test]
fn footnote_line_without_separator_is_plain() {
    let bs = blocks(&["[^id] no colon"]);
    assert_eq!(bs.len(), 1);
    assert!(bs[0].is_same_type(BlockType::Plain));
}

#[test]
fn latex_block() {
    let bs = blocks(&["$$", "x", "$$"]);
    assert_eq!(bs.len(), 1);
    assert!(bs[0].is_same_type(BlockType::Latex));
    assert_eq!(bs[0].to_html(), "\\[x\\]");
}

#[test]
fn latex_block_joins_lines_without_separator() {
    let bs = blocks(&["$$", "a", "b", "$$"]);
    assert_eq!(bs[0].to_html(), "\\[ab\\]");
}

#[test]
fn comment_lines_are_skipped() {
    let bs = blocks(&["a", "<!-- note -->", "b"]);
    assert_eq!(bs.len(), 1);
    assert_eq!(bs[0].to_html(), "<p>a\n<br>\nb</p>");
}

#[test]
fn empty_footnote_reference_aborts_the_conversion() {
    let r = BlockLexer::new(lines(&["ok", "bad [^] here"]), LinkTable::new()).tokenize();
    assert!(r.is_err());
}

#[test]
fn document_renders_blocks_joined_by_newlines() {
    let h = doc_html(&["# T", "a", "---"]);
    assert_eq!(h, "<h2>T</h2>\n<p>a</p>\n<hr>");
}

#[test]
fn re_rendering_is_identical() {
    let src = ["# T", "", "", "a **b** `c`", "> q", "$$", "m", "$$"];
    let bs = BlockLexer::new(lines(&src), LinkTable::new()).tokenize().unwrap();
    let first = mdlex::token::render_document(&bs);
    let second = mdlex::token::render_document(&bs);
    assert_eq!(first, second);
    assert_eq!(first, doc_html(&src));
}

#[test]
fn block_lexer_reports_last_block_type() {
    let mut lx = BlockLexer::new(lines(&["---"]), LinkTable::new());
    assert!(!lx.is_same_type(BlockType::Hr));
    let bs = lx.tokenize().unwrap();
    assert_eq!(bs.len(), 1);
}

#[test]
fn empty_document_renders_nothing() {
    let bs = blocks(&[]);
    assert_eq!(bs.len(), 0);
    assert_eq!(doc_html(&[]), "");
}

#[test]
fn lone_empty_line_is_consumed_silently() {
    let bs = blocks(&[""]);
    assert_eq!(bs.len(), 0);
}

#[test]
fn four_hashes_are_not_a_heading() {
    let bs = blocks(&["#### x"]);
    assert_eq!(bs.len(), 1);
    assert!(bs[0].is_same_type(BlockType::Plain));
    assert_eq!(bs[0].to_html(), "<p>#### x</p>");
}

#[test]
fn rule_prefix_suffices() {
    let bs = blocks(&["---anything"]);
    assert!(bs[0].is_same_type(BlockType::Hr));
}
