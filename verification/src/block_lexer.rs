//! The block lexer: turns an ordered sequence of lines into an ordered
//! sequence of block tokens.
//!
//! Classification is line-prefix-driven, in a fixed priority order per line:
//! headings, paragraph breaks, horizontal rules, fenced code blocks, quotes,
//! footnote definitions, display math, full-line comments, and plain text.
//! Successive plain lines are merged into one paragraph; `blocks_from` is
//! the mathematical definition, carrying the paragraph being grown as its
//! `cur` argument.

use vstd::prelude::*;
use crate::links::LinkTable;
use crate::inline_lexer::{LexError, lex_all};
use crate::text::{find_pair, trim_start, trimmed};
use crate::token::{BlockToken, BlockTok, BlockType, InlineTok, tok_text, tok_line_break, blocks_view, tokens_view, append_block_items};

verus! {

/// `# ` opens a first-level heading.
pub open spec fn is_h1_line(l: Seq<char>) -> bool {
    l.len() >= 2 && l[0] == '#' && l[1] == ' '
}

/// `## ` opens a second-level heading.
pub open spec fn is_h2_line(l: Seq<char>) -> bool {
    l.len() >= 3 && l[0] == '#' && l[1] == '#' && l[2] == ' '
}

/// `### ` opens a third-level heading.
pub open spec fn is_h3_line(l: Seq<char>) -> bool {
    l.len() >= 4 && l[0] == '#' && l[1] == '#' && l[2] == '#' && l[3] == ' '
}

/// `---` opens a horizontal rule.
pub open spec fn is_hr_line(l: Seq<char>) -> bool {
    l.len() >= 3 && l[0] == '-' && l[1] == '-' && l[2] == '-'
}

/// A triple backtick opens a fenced code block.
pub open spec fn is_fence_open(l: Seq<char>) -> bool {
    l.len() >= 3 && l[0] == '`' && l[1] == '`' && l[2] == '`'
}

/// A line whose first non-space characters are a triple backtick closes a
/// fenced code block.
pub open spec fn is_fence_close(l: Seq<char>) -> bool {
    is_fence_open(trim_start(l))
}

/// `>` opens a quote.
pub open spec fn is_quote_line(l: Seq<char>) -> bool {
    l.len() >= 1 && l[0] == '>'
}

/// A footnote definition: `[^`, at least one identifier character, then `]:`.
pub open spec fn is_foot_line(l: Seq<char>) -> bool {
    l.len() >= 2 && l[0] == '[' && l[1] == '^' && match find_pair(l, 0, ']', ':') {
        Some(idx) => idx >= 3,
        None => false,
    }
}

/// `$$` opens a display math block.
pub open spec fn is_latex_open(l: Seq<char>) -> bool {
    l.len() >= 2 && l[0] == '$' && l[1] == '$'
}

/// A line whose trimmed form ends in `$$` closes a display math block.
pub open spec fn is_latex_close(l: Seq<char>) -> bool {
    trimmed(l).len() >= 2 && trimmed(l)[trimmed(l).len() - 1] == '$' && trimmed(l)[trimmed(
        l,
    ).len() - 2] == '$'
}

/// A full-line comment: the trimmed line starts with `<!--` and ends with
/// `-->`.
pub open spec fn is_comment_line(l: Seq<char>) -> bool {
    let t = trimmed(l);
    t.len() >= 4 && t[0] == '<' && t[1] == '!' && t[2] == '-' && t[3] == '-' && t[t.len() - 3]
        == '-' && t[t.len() - 2] == '-' && t[t.len() - 1] == '>'
}

/// Index of the first line at or after `from` that closes a fence, if any.
pub open spec fn find_fence_close(lines: Seq<Seq<char>>, from: int) -> Option<int>
    decreases lines.len() - from,
{
    if !(0 <= from < lines.len()) {
        None
    } else if is_fence_close(lines[from]) {
        Some(from)
    } else {
        find_fence_close(lines, from + 1)
    }
}

/// Index of the first line at or after `from` that closes a math block, if
/// any.
pub open spec fn find_latex_close(lines: Seq<Seq<char>>, from: int) -> Option<int>
    decreases lines.len() - from,
{
    if !(0 <= from < lines.len()) {
        None
    } else if is_latex_close(lines[from]) {
        Some(from)
    } else {
        find_latex_close(lines, from + 1)
    }
}

/// The lines of `lines` in positions `[k, to)`, joined with `sep` between
/// each pair.
pub open spec fn join_lines(lines: Seq<Seq<char>>, k: int, to: int, sep: Seq<char>) -> Seq<char>
    decreases to - k,
{
    if !(0 <= k < to && to <= lines.len()) {
        Seq::empty()
    } else {
        lines[k] + if k + 1 < to {
            sep + join_lines(lines, k + 1, to, sep)
        } else {
            Seq::empty()
        }
    }
}

/// The content strings a quote collects from `i` on, and the line index at
/// which scanning stops: a `>` line contributes its marker-stripped, trimmed
/// remainder; one line directly after a `>` line continues the quote as it
/// stands; an empty line is consumed and ends the quote; any other line ends
/// the quote without being consumed.
pub open spec fn quote_scan(lines: Seq<Seq<char>>, i: int, prev: bool) -> (Seq<Seq<char>>, int)
    decreases lines.len() - i,
{
    if !(0 <= i < lines.len()) {
        (Seq::<Seq<char>>::empty(), lines.len() as int)
    } else if lines[i].len() == 0 {
        (Seq::<Seq<char>>::empty(), i + 1)
    } else if lines[i][0] == '>' {
        let rest = quote_scan(lines, i + 1, true);
        (seq![trimmed(lines[i].skip(1))] + rest.0, rest.1)
    } else if prev {
        let rest = quote_scan(lines, i + 1, false);
        (seq![lines[i]] + rest.0, rest.1)
    } else {
        (Seq::<Seq<char>>::empty(), i)
    }
}

/// The accumulated content of a quote block: each collected string is inline
/// lexed and appended in turn.
pub open spec fn quote_content(
    items: Seq<Seq<char>>,
    links: Seq<(Seq<char>, Seq<char>)>,
    k: int,
    acc: Seq<InlineTok>,
) -> Result<Seq<InlineTok>, LexError>
    decreases items.len() - k,
{
    if !(0 <= k < items.len()) {
        Ok(acc)
    } else {
        match lex_all(items[k], links) {
            Err(e) => Err(e),
            Ok(ts) => quote_content(items, links, k + 1, append_block_items(acc, ts)),
        }
    }
}

/// The paragraph being grown, flushed: a pending plain block becomes one
/// block token.
pub open spec fn flush_plain(cur: Option<Seq<InlineTok>>) -> Seq<BlockTok> {
    match cur {
        None => Seq::empty(),
        Some(items) => seq![BlockTok { kind: BlockType::Plain, items }],
    }
}

/// Content of the paragraph being grown after taking in one more plain
/// line's tokens.
pub open spec fn merge_plain(cur: Option<Seq<InlineTok>>, items: Seq<InlineTok>) -> Seq<
    InlineTok,
> {
    match cur {
        None => items,
        Some(acc) => append_block_items(acc, items),
    }
}

/// Prepends already-emitted blocks to the outcome of lexing the rest.
pub open spec fn prepend_blocks(bs: Seq<BlockTok>, r: Result<Seq<BlockTok>, LexError>) -> Result<
    Seq<BlockTok>,
    LexError,
> {
    match r {
        Ok(rest) => Ok(bs + rest),
        Err(e) => Err(e),
    }
}

pub proof fn lemma_prepend_blocks_prepend(a: Seq<BlockTok>, b: Seq<BlockTok>, r: Result<
    Seq<BlockTok>,
    LexError,
>)
    ensures
        prepend_blocks(a, prepend_blocks(b, r)) == prepend_blocks(a + b, r),
{
    match r {
        Ok(rest) => {
            assert(a + (b + rest) =~= (a + b) + rest);
        },
        Err(_) => {},
    }
}

/// The line index `n`, forced past `i` and at most the number of lines; the
/// lexer only follows it with `i < n <= lines.len()`, where it equals `n`.
pub open spec fn step_line(lines: Seq<Seq<char>>, i: int, n: int) -> int {
    if n <= i {
        i + 1
    } else if n > lines.len() {
        lines.len() as int
    } else {
        n
    }
}

/// One block-lexing state: the remaining lines from `i` on, with the content
/// of the paragraph being grown in `cur` (`None`: no paragraph open).
/// Produces the blocks the lexer emits from this state to the end.
pub open spec fn blocks_from(
    lines: Seq<Seq<char>>,
    links: Seq<(Seq<char>, Seq<char>)>,
    i: int,
    cur: Option<Seq<InlineTok>>,
) -> Result<Seq<BlockTok>, LexError>
    decreases lines.len() - i,
{
    if !(0 <= i < lines.len()) {
        Ok(flush_plain(cur))
    } else {
        let l = lines[i];
        if is_h1_line(l) {
            match lex_all(l.skip(2), links) {
                Err(e) => Err(e),
                Ok(items) => prepend_blocks(
                    flush_plain(cur) + seq![BlockTok { kind: BlockType::h1, items }],
                    blocks_from(lines, links, i + 1, None),
                ),
            }
        } else if is_h2_line(l) {
            match lex_all(l.skip(3), links) {
                Err(e) => Err(e),
                Ok(items) => prepend_blocks(
                    flush_plain(cur) + seq![BlockTok { kind: BlockType::h2, items }],
                    blocks_from(lines, links, i + 1, None),
                ),
            }
        } else if is_h3_line(l) {
            match lex_all(l.skip(4), links) {
                Err(e) => Err(e),
                Ok(items) => prepend_blocks(
                    flush_plain(cur) + seq![BlockTok { kind: BlockType::h3, items }],
                    blocks_from(lines, links, i + 1, None),
                ),
            }
        } else if l.len() == 0 {
            if i + 1 < lines.len() && lines[i + 1].len() == 0 {
                prepend_blocks(
                    flush_plain(cur) + seq![
                        BlockTok { kind: BlockType::Empty, items: Seq::empty() },
                    ],
                    blocks_from(lines, links, i + 2, None),
                )
            } else {
                prepend_blocks(flush_plain(cur), blocks_from(lines, links, i + 1, None))
            }
        } else if is_hr_line(l) {
            prepend_blocks(
                flush_plain(cur) + seq![BlockTok { kind: BlockType::Hr, items: Seq::empty() }],
                blocks_from(lines, links, i + 1, None),
            )
        } else if is_fence_open(l) {
            match find_fence_close(lines, i + 1) {
                Some(j) => {
                    let code = join_lines(lines, i + 1, step_line(lines, i, j), "\n"@);
                    let lang = l.skip(3);
                    prepend_blocks(
                        flush_plain(cur) + seq![
                            BlockTok {
                                kind: BlockType::CodeBlock,
                                items: seq![tok_text(code), tok_text(lang)],
                            },
                        ],
                        blocks_from(lines, links, step_line(lines, i, j + 1), None),
                    )
                },
                None => match lex_all(l.subrange(0, 3), links) {
                    Err(e) => Err(e),
                    Ok(items) => blocks_from(lines, links, i + 1, Some(merge_plain(cur, items))),
                },
            }
        } else if is_quote_line(l) {
            let scan = quote_scan(lines, i, false);
            match quote_content(scan.0, links, 0, Seq::empty()) {
                Err(e) => Err(e),
                Ok(content) => prepend_blocks(
                    flush_plain(cur) + seq![BlockTok { kind: BlockType::Quote, items: content }],
                    blocks_from(lines, links, step_line(lines, i, scan.1), None),
                ),
            }
        } else if is_foot_line(l) {
            let idx = find_pair(l, 0, ']', ':').unwrap();
            let id = l.subrange(2, idx);
            let body = l.skip(idx + 2);
            match lex_all(body, links) {
                Err(e) => Err(e),
                Ok(bs) => prepend_blocks(
                    flush_plain(cur) + seq![
                        BlockTok {
                            kind: BlockType::FootNote,
                            items: seq![tok_text(id), tok_line_break()] + bs,
                        },
                    ],
                    blocks_from(lines, links, i + 1, None),
                ),
            }
        } else if is_latex_open(l) {
            match find_latex_close(lines, i + 1) {
                Some(j) => prepend_blocks(
                    flush_plain(cur) + seq![
                        BlockTok {
                            kind: BlockType::Latex,
                            items: seq![
                                tok_text(
                                    join_lines(lines, i + 1, step_line(lines, i, j), Seq::empty()),
                                ),
                            ],
                        },
                    ],
                    blocks_from(lines, links, step_line(lines, i, j + 1), None),
                ),
                None => match lex_all(l, links) {
                    Err(e) => Err(e),
                    Ok(items) => blocks_from(lines, links, i + 1, Some(merge_plain(cur, items))),
                },
            }
        } else if is_comment_line(l) {
            blocks_from(lines, links, i + 1, cur)
        } else {
            match lex_all(l, links) {
                Err(e) => Err(e),
                Ok(items) => blocks_from(lines, links, i + 1, Some(merge_plain(cur, items))),
            }
        }
    }
}

/// The deep view of a line vector.
pub open spec fn lines_view(c: Seq<Vec<char>>) -> Seq<Seq<char>> {
    Seq::new(c.len(), |k: int| c[k]@)
}

/// The content of the paragraph being grown, if one is open.
pub open spec fn cur_items(c: Option<BlockToken>) -> Option<Seq<InlineTok>> {
    match c {
        None => None,
        Some(b) => Some(b@.items),
    }
}

/// A paragraph being grown is a plain block.
pub open spec fn cur_wf(c: Option<BlockToken>) -> bool {
    match c {
        None => true,
        Some(b) => b.block_type == BlockType::Plain,
    }
}

fn line_is_h1(l: &Vec<char>) -> (r: bool)
    ensures
        r == is_h1_line(l@),
{
    l.len() >= 2 && l[0] == '#' && l[1] == ' '
}

fn line_is_h2(l: &Vec<char>) -> (r: bool)
    ensures
        r == is_h2_line(l@),
{
    l.len() >= 3 && l[0] == '#' && l[1] == '#' && l[2] == ' '
}

fn line_is_h3(l: &Vec<char>) -> (r: bool)
    ensures
        r == is_h3_line(l@),
{
    l.len() >= 4 && l[0] == '#' && l[1] == '#' && l[2] == '#' && l[3] == ' '
}

fn line_is_hr(l: &Vec<char>) -> (r: bool)
    ensures
        r == is_hr_line(l@),
{
    l.len() >= 3 && l[0] == '-' && l[1] == '-' && l[2] == '-'
}

fn line_is_fence_open(l: &Vec<char>) -> (r: bool)
    ensures
        r == is_fence_open(l@),
{
    l.len() >= 3 && l[0] == '`' && l[1] == '`' && l[2] == '`'
}

fn line_is_fence_close(l: &Vec<char>) -> (r: bool)
    ensures
        r == is_fence_close(l@),
{
    let k = crate::text::skip_spaces(l);
    if l.len() - k >= 3 {
        proof {
            assert(trim_start(l@)[0] == l@[k as int]);
            assert(trim_start(l@)[1] == l@[k + 1]);
            assert(trim_start(l@)[2] == l@[k + 2]);
        }
        l[k] == '`' && l[k + 1] == '`' && l[k + 2] == '`'
    } else {
        false
    }
}

fn line_is_quote(l: &Vec<char>) -> (r: bool)
    ensures
        r == is_quote_line(l@),
{
    l.len() >= 1 && l[0] == '>'
}

fn line_is_latex_open(l: &Vec<char>) -> (r: bool)
    ensures
        r == is_latex_open(l@),
{
    l.len() >= 2 && l[0] == '$' && l[1] == '$'
}

fn line_is_latex_close(l: &Vec<char>) -> (r: bool)
    ensures
        r == is_latex_close(l@),
{
    let t = crate::text::trim_chars(l);
    t.len() >= 2 && t[t.len() - 1] == '$' && t[t.len() - 2] == '$'
}

fn line_is_comment(l: &Vec<char>) -> (r: bool)
    ensures
        r == is_comment_line(l@),
{
    let t = crate::text::trim_chars(l);
    t.len() >= 4 && t[0] == '<' && t[1] == '!' && t[2] == '-' && t[3] == '-' && t[t.len() - 3]
        == '-' && t[t.len() - 2] == '-' && t[t.len() - 1] == '>'
}

/// The first position of `]:` in a footnote definition line, if the line is
/// one.
fn foot_split(l: &Vec<char>) -> (r: Option<usize>)
    ensures
        match r {
            Some(idx) => is_foot_line(l@) && find_pair(l@, 0, ']', ':') == Some(idx as int),
            None => !is_foot_line(l@),
        },
{
    if l.len() >= 2 && l[0] == '[' && l[1] == '^' {
        match crate::text::find_pair_at(l, 0, ']', ':') {
            Some(idx) => if idx >= 3 {
                Some(idx)
            } else {
                None
            },
            None => None,
        }
    } else {
        None
    }
}

proof fn lemma_find_fence_close_found(lv: Seq<Seq<char>>, from: int, j: int)
    requires
        0 <= from <= j < lv.len(),
        is_fence_close(lv[j]),
        forall|k: int| from <= k < j ==> !is_fence_close(#[trigger] lv[k]),
    ensures
        find_fence_close(lv, from) == Some(j),
    decreases j - from,
{
    if from < j {
        lemma_find_fence_close_found(lv, from + 1, j);
    }
}

proof fn lemma_find_latex_close_found(lv: Seq<Seq<char>>, from: int, j: int)
    requires
        0 <= from <= j < lv.len(),
        is_latex_close(lv[j]),
        forall|k: int| from <= k < j ==> !is_latex_close(#[trigger] lv[k]),
    ensures
        find_latex_close(lv, from) == Some(j),
    decreases j - from,
{
    if from < j {
        lemma_find_latex_close_found(lv, from + 1, j);
    }
}

/// Bounds and position of a found closing fence.
pub proof fn lemma_find_fence_close(lv: Seq<Seq<char>>, from: int)
    requires
        0 <= from,
    ensures
        match find_fence_close(lv, from) {
            Some(j) => from <= j < lv.len() && is_fence_close(lv[j]),
            None => true,
        },
    decreases lv.len() - from,
{
    if 0 <= from < lv.len() && !is_fence_close(lv[from]) {
        lemma_find_fence_close(lv, from + 1);
    }
}

/// Bounds and position of a found math-block closer.
pub proof fn lemma_find_latex_close(lv: Seq<Seq<char>>, from: int)
    requires
        0 <= from,
    ensures
        match find_latex_close(lv, from) {
            Some(j) => from <= j < lv.len() && is_latex_close(lv[j]),
            None => true,
        },
    decreases lv.len() - from,
{
    if 0 <= from < lv.len() && !is_latex_close(lv[from]) {
        lemma_find_latex_close(lv, from + 1);
    }
}

/// Finds the first closing fence line at or after `from`.
fn find_fence_close_at(lines: &Vec<Vec<char>>, from: usize) -> (r: Option<usize>)
    ensures
        match r {
            Some(j) => find_fence_close(lines_view(lines@), from as int) == Some(j as int),
            None => find_fence_close(lines_view(lines@), from as int) is None,
        },
{
    let ghost lv = lines_view(lines@);
    let mut k: usize = from;
    while k < lines.len()
        invariant
            from <= k,
            lv == lines_view(lines@),
            forall|q: int| from <= q < k ==> !is_fence_close(#[trigger] lv[q]),
        decreases lines.len() - k,
    {
        if line_is_fence_close(&lines[k]) {
            proof {
                lemma_find_fence_close_found(lv, from as int, k as int);
            }
            return Some(k);
        }
        k = k + 1;
    }
    proof {
        lemma_find_fence_close_none(lv, from as int);
    }
    None
}

proof fn lemma_find_fence_close_none(lv: Seq<Seq<char>>, from: int)
    requires
        0 <= from,
        forall|k: int| from <= k < lv.len() ==> !is_fence_close(#[trigger] lv[k]),
    ensures
        find_fence_close(lv, from) is None,
    decreases lv.len() - from,
{
    if from < lv.len() {
        lemma_find_fence_close_none(lv, from + 1);
    }
}

/// Finds the first math-block closing line at or after `from`.
fn find_latex_close_at(lines: &Vec<Vec<char>>, from: usize) -> (r: Option<usize>)
    ensures
        match r {
            Some(j) => find_latex_close(lines_view(lines@), from as int) == Some(j as int),
            None => find_latex_close(lines_view(lines@), from as int) is None,
        },
{
    let ghost lv = lines_view(lines@);
    let mut k: usize = from;
    while k < lines.len()
        invariant
            from <= k,
            lv == lines_view(lines@),
            forall|q: int| from <= q < k ==> !is_latex_close(#[trigger] lv[q]),
        decreases lines.len() - k,
    {
        if line_is_latex_close(&lines[k]) {
            proof {
                lemma_find_latex_close_found(lv, from as int, k as int);
            }
            return Some(k);
        }
        k = k + 1;
    }
    proof {
        lemma_find_latex_close_none(lv, from as int);
    }
    None
}

proof fn lemma_find_latex_close_none(lv: Seq<Seq<char>>, from: int)
    requires
        0 <= from,
        forall|k: int| from <= k < lv.len() ==> !is_latex_close(#[trigger] lv[k]),
    ensures
        find_latex_close(lv, from) is None,
    decreases lv.len() - from,
{
    if from < lv.len() {
        lemma_find_latex_close_none(lv, from + 1);
    }
}

/// Joins the lines in positions `[from, to)` with `sep` between each pair.
fn join_lines_at(lines: &Vec<Vec<char>>, from: usize, to: usize, sep: &Vec<char>) -> (out: Vec<
    char,
>)
    requires
        to <= lines@.len(),
    ensures
        out@ == join_lines(lines_view(lines@), from as int, to as int, sep@),
{
    let ghost lv = lines_view(lines@);
    let mut out: Vec<char> = Vec::new();
    if from >= to {
        proof {
            assert(out@ =~= join_lines(lv, from as int, to as int, sep@));
        }
        return out;
    }
    let mut k: usize = from;
    while k < to
        invariant
            from <= k <= to <= lines@.len(),
            lv == lines_view(lines@),
            join_lines(lv, from as int, to as int, sep@) == out@ + join_lines(
                lv,
                k as int,
                to as int,
                sep@,
            ),
        decreases to - k,
    {
        let ghost mid = out@;
        let mut piece = crate::text::slice_range(&lines[k], 0, lines[k].len());
        proof {
            assert(piece@ =~= lv[k as int]);
        }
        out.append(&mut piece);
        if k + 1 < to {
            let mut sp = crate::text::slice_range(sep, 0, sep.len());
            proof {
                assert(sp@ =~= sep@);
            }
            out.append(&mut sp);
            proof {
                assert(mid + join_lines(lv, k as int, to as int, sep@) =~= out@ + join_lines(
                    lv,
                    k + 1,
                    to as int,
                    sep@,
                ));
            }
        } else {
            proof {
                assert(mid + join_lines(lv, k as int, to as int, sep@) =~= out@);
                assert(out@ + join_lines(lv, k + 1, to as int, sep@) =~= out@);
            }
        }
        k = k + 1;
    }
    out
}

/// Collects a quote's content lines from `i` on, handing back the collected
/// strings and the index where scanning stopped.
fn quote_scan_at(lines: &Vec<Vec<char>>, i: usize, prev: bool) -> (r: (Vec<Vec<char>>, usize))
    requires
        i <= lines@.len(),
    ensures
        lines_view(r.0@) == quote_scan(lines_view(lines@), i as int, prev).0,
        r.1 as int == quote_scan(lines_view(lines@), i as int, prev).1,
        i <= r.1 <= lines@.len(),
        (i < lines@.len() && lines_view(lines@)[i as int].len() > 0
            && lines_view(lines@)[i as int][0] == '>') ==> r.1 > i,
    decreases lines@.len() - i,
{
    let ghost lv = lines_view(lines@);
    if i >= lines.len() {
        let r: Vec<Vec<char>> = Vec::new();
        proof {
            assert(lines_view(r@) =~= quote_scan(lv, i as int, prev).0);
        }
        (r, lines.len())
    } else if lines[i].len() == 0 {
        let r: Vec<Vec<char>> = Vec::new();
        proof {
            assert(lines_view(r@) =~= quote_scan(lv, i as int, prev).0);
        }
        (r, i + 1)
    } else if lines[i][0] == '>' {
        let tail = crate::text::slice_range(&lines[i], 1, lines[i].len());
        proof {
            assert(tail@ =~= lv[i as int].skip(1));
        }
        let tr = crate::text::trim_chars(&tail);
        let (mut v, nx) = quote_scan_at(lines, i + 1, true);
        let ghost v0 = v@;
        v.insert(0, tr);
        proof {
            assert(lines_view(v@) =~= seq![trimmed(lv[i as int].skip(1))] + lines_view(v0));
        }
        (v, nx)
    } else if prev {
        let cp = crate::text::slice_range(&lines[i], 0, lines[i].len());
        proof {
            assert(cp@ =~= lv[i as int]);
        }
        let (mut v, nx) = quote_scan_at(lines, i + 1, false);
        let ghost v0 = v@;
        v.insert(0, cp);
        proof {
            assert(lines_view(v@) =~= seq![lv[i as int]] + lines_view(v0));
        }
        (v, nx)
    } else {
        let r: Vec<Vec<char>> = Vec::new();
        proof {
            assert(lines_view(r@) =~= quote_scan(lv, i as int, prev).0);
        }
        (r, i)
    }
}

/// Takes one plain line (or the given prefix of it) into the paragraph being
/// grown, opening one when none is.
fn plain_step(line: &Vec<char>, upto: usize, links: &LinkTable, cur: &mut Option<BlockToken>) -> (r:
    Result<(), LexError>)
    requires
        upto <= line@.len(),
        cur_wf(*old(cur)),
    ensures
        match r {
            Ok(_) => match lex_all(line@.subrange(0, upto as int), links@) {
                Ok(ts) => cur_items(*final(cur)) == Some(merge_plain(cur_items(*old(cur)), ts))
                    && cur_wf(*final(cur)),
                Err(_) => false,
            },
            Err(e) => lex_all(line@.subrange(0, upto as int), links@) == Err::<
                Seq<InlineTok>,
                LexError,
            >(e),
        },
{
    let content = crate::text::slice_range(line, 0, upto);
    let mut tmp: Option<BlockToken> = None;
    core::mem::swap(&mut tmp, cur);
    let mut b = match tmp {
        Some(bb) => bb,
        None => BlockToken::new(BlockType::Plain),
    };
    match b.proceed_block_content(content, links) {
        Err(e) => Err(e),
        Ok(_) => {
            *cur = Some(b);
            Ok(())
        },
    }
}

/// Flushes the paragraph being grown, if any, onto the emitted blocks.
fn flush_step(toks: &mut Vec<BlockToken>, cur: &mut Option<BlockToken>)
    requires
        cur_wf(*old(cur)),
    ensures
        blocks_view(final(toks)@) == blocks_view(old(toks)@) + flush_plain(
            cur_items(*old(cur)),
        ),
        *final(cur) is None,
{
    let ghost bv0 = blocks_view(toks@);
    let mut tmp: Option<BlockToken> = None;
    core::mem::swap(&mut tmp, cur);
    match tmp {
        Some(b) => {
            proof {
                crate::token::lemma_blocks_view_push(toks@, b);
                assert(bv0.push(b@) =~= bv0 + flush_plain(cur_items(Some(b))));
            }
            toks.push(b);
        },
        None => {
            proof {
                assert(bv0 + flush_plain(cur_items(None::<BlockToken>)) =~= bv0);
            }
        },
    }
}

/// Builds one heading block from the line with its marker stripped.
fn heading_block(line: &Vec<char>, skipn: usize, kind: BlockType, links: &LinkTable) -> (r: Result<
    BlockToken,
    LexError,
>)
    requires
        skipn <= line@.len(),
    ensures
        match r {
            Ok(b) => match lex_all(line@.skip(skipn as int), links@) {
                Ok(ts) => b@ == (BlockTok { kind, items: ts }),
                Err(_) => false,
            },
            Err(e) => lex_all(line@.skip(skipn as int), links@) == Err::<
                Seq<InlineTok>,
                LexError,
            >(e),
        },
{
    let content = crate::text::slice_range(line, skipn, line.len());
    proof {
        assert(content@ =~= line@.skip(skipn as int));
    }
    let mut b = BlockToken::new(kind);
    match b.proceed_block_content(content, links) {
        Err(e) => Err(e),
        Ok(_) => Ok(b),
    }
}

/// Builds one quote block: each collected content string is inline lexed and
/// appended in turn.
fn quote_block(qitems: &Vec<Vec<char>>, links: &LinkTable) -> (r: Result<BlockToken, LexError>)
    ensures
        match r {
            Ok(b) => match quote_content(lines_view(qitems@), links@, 0, Seq::empty()) {
                Ok(content) => b@ == (BlockTok { kind: BlockType::Quote, items: content }),
                Err(_) => false,
            },
            Err(e) => quote_content(lines_view(qitems@), links@, 0, Seq::empty()) == Err::<
                Seq<InlineTok>,
                LexError,
            >(e),
        },
{
    let ghost qiv = lines_view(qitems@);
    let mut b = BlockToken::new(BlockType::Quote);
    proof {
        assert(b@.items =~= Seq::<InlineTok>::empty());
    }
    let mut k: usize = 0;
    while k < qitems.len()
        invariant
            k <= qitems@.len(),
            qiv == lines_view(qitems@),
            b.block_type == BlockType::Quote,
            quote_content(qiv, links@, 0, Seq::empty()) == quote_content(
                qiv,
                links@,
                k as int,
                b@.items,
            ),
        decreases qitems@.len() - k,
    {
        let it = crate::text::slice_range(&qitems[k], 0, qitems[k].len());
        proof {
            assert(it@ =~= qiv[k as int]);
        }
        match b.proceed_block_content(it, links) {
            Err(e) => {
                return Err(e);
            },
            Ok(_) => {
                k = k + 1;
            },
        }
    }
    Ok(b)
}

/// Lexes `lines` from line `start` on, producing the blocks `blocks_from`
/// defines, or the fatal error.
#[verifier::rlimit(100)]
pub fn lex_blocks(lines: &Vec<Vec<char>>, links: &LinkTable, start: usize) -> (r: Result<
    Vec<BlockToken>,
    LexError,
>)
    ensures
        match r {
            Ok(v) => Ok::<Seq<BlockTok>, LexError>(blocks_view(v@)) == blocks_from(
                lines_view(lines@),
                links@,
                start as int,
                None,
            ),
            Err(e) => blocks_from(lines_view(lines@), links@, start as int, None) == Err::<
                Seq<BlockTok>,
                LexError,
            >(e),
        },
{
    let ghost lv = lines_view(lines@);
    let ghost goal = blocks_from(lv, links@, start as int, None);
    let n = lines.len();
    let mut toks: Vec<BlockToken> = Vec::new();
    let mut cur: Option<BlockToken> = None;
    if start >= n {
        proof {
            assert(blocks_view(toks@) =~= Seq::<BlockTok>::empty());
            assert(goal == Ok::<Seq<BlockTok>, LexError>(Seq::<BlockTok>::empty()));
        }
        return Ok(toks);
    }
    let mut i = start;
    proof {
        assert(blocks_view(toks@) =~= Seq::<BlockTok>::empty());
        match blocks_from(lv, links@, i as int, cur_items(cur)) {
            Ok(rest) => {
                assert(Seq::<BlockTok>::empty() + rest =~= rest);
            },
            Err(_) => {},
        }
    }
    while i < n
        invariant
            n == lines@.len(),
            i <= n,
            lv == lines_view(lines@),
            goal == blocks_from(lv, links@, start as int, None),
            cur_wf(cur),
            prepend_blocks(blocks_view(toks@), blocks_from(lv, links@, i as int, cur_items(cur)))
                == goal,
        decreases n - i,
    {
        let ghost bv0 = blocks_view(toks@);
        let ghost c0 = cur_items(cur);
        proof {
            assert(lv[i as int] == lines@[i as int]@);
        }
        if line_is_h1(&lines[i]) {
            match heading_block(&lines[i], 2, BlockType::h1, links) {
                Err(e) => {
                    return Err(e);
                },
                Ok(b) => {
                    flush_step(&mut toks, &mut cur);
                    proof {
                        crate::token::lemma_blocks_view_push(toks@, b);
                        lemma_prepend_blocks_prepend(
                            bv0,
                            flush_plain(c0) + seq![b@],
                            blocks_from(lv, links@, i + 1, None),
                        );
                        assert((bv0 + flush_plain(c0)).push(b@) =~= bv0 + (flush_plain(c0)
                            + seq![b@]));
                    }
                    toks.push(b);
                    i = i + 1;
                },
            }
        } else if line_is_h2(&lines[i]) {
            match heading_block(&lines[i], 3, BlockType::h2, links) {
                Err(e) => {
                    return Err(e);
                },
                Ok(b) => {
                    flush_step(&mut toks, &mut cur);
                    proof {
                        crate::token::lemma_blocks_view_push(toks@, b);
                        lemma_prepend_blocks_prepend(
                            bv0,
                            flush_plain(c0) + seq![b@],
                            blocks_from(lv, links@, i + 1, None),
                        );
                        assert((bv0 + flush_plain(c0)).push(b@) =~= bv0 + (flush_plain(c0)
                            + seq![b@]));
                    }
                    toks.push(b);
                    i = i + 1;
                },
            }
        } else if line_is_h3(&lines[i]) {
            match heading_block(&lines[i], 4, BlockType::h3, links) {
                Err(e) => {
                    return Err(e);
                },
                Ok(b) => {
                    flush_step(&mut toks, &mut cur);
                    proof {
                        crate::token::lemma_blocks_view_push(toks@, b);
                        lemma_prepend_blocks_prepend(
                            bv0,
                            flush_plain(c0) + seq![b@],
                            blocks_from(lv, links@, i + 1, None),
                        );
                        assert((bv0 + flush_plain(c0)).push(b@) =~= bv0 + (flush_plain(c0)
                            + seq![b@]));
                    }
                    toks.push(b);
                    i = i + 1;
                },
            }
        } else if lines[i].len() == 0 {
            if i + 1 < n && lines[i + 1].len() == 0 {
                proof {
                    assert(lv[i + 1] == lines@[i + 1]@);
                }
                flush_step(&mut toks, &mut cur);
                let b = BlockToken::new(BlockType::Empty);
                proof {
                    crate::token::lemma_blocks_view_push(toks@, b);
                    lemma_prepend_blocks_prepend(
                        bv0,
                        flush_plain(c0) + seq![b@],
                        blocks_from(lv, links@, i + 2, None),
                    );
                    assert((bv0 + flush_plain(c0)).push(b@) =~= bv0 + (flush_plain(c0)
                        + seq![b@]));
                }
                toks.push(b);
                i = i + 2;
            } else {
                proof {
                    if i + 1 < n {
                        assert(lv[i + 1] == lines@[i + 1]@);
                    }
                }
                flush_step(&mut toks, &mut cur);
                proof {
                    lemma_prepend_blocks_prepend(
                        bv0,
                        flush_plain(c0),
                        blocks_from(lv, links@, i + 1, None),
                    );
                }
                i = i + 1;
            }
        } else if line_is_hr(&lines[i]) {
            flush_step(&mut toks, &mut cur);
            let b = BlockToken::new(BlockType::Hr);
            proof {
                crate::token::lemma_blocks_view_push(toks@, b);
                lemma_prepend_blocks_prepend(
                    bv0,
                    flush_plain(c0) + seq![b@],
                    blocks_from(lv, links@, i + 1, None),
                );
                assert((bv0 + flush_plain(c0)).push(b@) =~= bv0 + (flush_plain(c0) + seq![b@]));
            }
            toks.push(b);
            i = i + 1;
        } else if line_is_fence_open(&lines[i]) {
            match find_fence_close_at(lines, i + 1) {
                Some(j) => {
                    proof {
                        lemma_find_fence_close(lv, i + 1);
                        assert(step_line(lv, i as int, j as int) == j as int);
                        assert(step_line(lv, i as int, j + 1) == j + 1);
                    }
                    let mut nl: Vec<char> = Vec::new();
                    nl.push('\n');
                    proof {
                        reveal_strlit("\n");
                        assert(nl@ =~= "\n"@);
                    }
                    let code = join_lines_at(lines, i + 1, j, &nl);
                    let lang = crate::text::slice_range(&lines[i], 3, lines[i].len());
                    let mut b = BlockToken::new(BlockType::CodeBlock);
                    b.process_block_content_as_plain_text(crate::text::chars_to_string(&code));
                    b.process_block_content_as_plain_text(crate::text::chars_to_string(&lang));
                    proof {
                        assert(lang@ =~= lv[i as int].skip(3));
                        assert(b@.items =~= seq![tok_text(code@), tok_text(lang@)]);
                    }
                    flush_step(&mut toks, &mut cur);
                    proof {
                        crate::token::lemma_blocks_view_push(toks@, b);
                        lemma_prepend_blocks_prepend(
                            bv0,
                            flush_plain(c0) + seq![b@],
                            blocks_from(lv, links@, j + 1, None),
                        );
                        assert((bv0 + flush_plain(c0)).push(b@) =~= bv0 + (flush_plain(c0)
                            + seq![b@]));
                    }
                    toks.push(b);
                    i = j + 1;
                },
                None => {
                    match plain_step(&lines[i], 3, links, &mut cur) {
                        Err(e) => {
                            return Err(e);
                        },
                        Ok(_) => {
                            i = i + 1;
                        },
                    }
                },
            }
        } else if line_is_quote(&lines[i]) {
            let pair = quote_scan_at(lines, i, false);
            let qitems = pair.0;
            let qnext = pair.1;
            let b = match quote_block(&qitems, links) {
                Err(e) => {
                    return Err(e);
                },
                Ok(b) => b,
            };
            proof {
                assert(step_line(lv, i as int, qnext as int) == qnext as int);
            }
            flush_step(&mut toks, &mut cur);
            proof {
                crate::token::lemma_blocks_view_push(toks@, b);
                lemma_prepend_blocks_prepend(
                    bv0,
                    flush_plain(c0) + seq![b@],
                    blocks_from(lv, links@, qnext as int, None),
                );
                assert((bv0 + flush_plain(c0)).push(b@) =~= bv0 + (flush_plain(c0) + seq![b@]));
            }
            toks.push(b);
            i = qnext;
        } else if let Some(idx) = foot_split(&lines[i]) {
            proof {
                crate::text::lemma_find_pair(lv[i as int], 0, ']', ':');
            }
            let id = crate::text::slice_range(&lines[i], 2, idx);
            let body = crate::text::slice_range(&lines[i], idx + 2, lines[i].len());
            let mut b = BlockToken::new(BlockType::FootNote);
            b.process_block_content_as_plain_text(crate::text::chars_to_string(&id));
            match b.proceed_block_content(body, links) {
                Err(e) => {
                    proof {
                        assert(body@ =~= lv[i as int].skip(idx + 2));
                    }
                    return Err(e);
                },
                Ok(_) => {},
            }
            proof {
                assert(id@ =~= lv[i as int].subrange(2, idx as int));
                assert(body@ =~= lv[i as int].skip(idx + 2));
                assert(Seq::<InlineTok>::empty().push(tok_text(id@)) =~= seq![tok_text(id@)]);
            }
            flush_step(&mut toks, &mut cur);
            proof {
                crate::token::lemma_blocks_view_push(toks@, b);
                lemma_prepend_blocks_prepend(
                    bv0,
                    flush_plain(c0) + seq![b@],
                    blocks_from(lv, links@, i + 1, None),
                );
                assert((bv0 + flush_plain(c0)).push(b@) =~= bv0 + (flush_plain(c0) + seq![b@]));
                assert(seq![tok_text(id@)] + seq![tok_line_break()] + tokens_view(Seq::empty())
                    =~= seq![tok_text(id@), tok_line_break()]);
            }
            toks.push(b);
            i = i + 1;
        } else if line_is_latex_open(&lines[i]) {
            match find_latex_close_at(lines, i + 1) {
                Some(j) => {
                    proof {
                        lemma_find_latex_close(lv, i + 1);
                        assert(step_line(lv, i as int, j as int) == j as int);
                        assert(step_line(lv, i as int, j + 1) == j + 1);
                    }
                    let emptysep: Vec<char> = Vec::new();
                    let latex = join_lines_at(lines, i + 1, j, &emptysep);
                    let mut b = BlockToken::new(BlockType::Latex);
                    b.process_block_content_as_plain_text(crate::text::chars_to_string(&latex));
                    proof {
                        assert(emptysep@ =~= Seq::<char>::empty());
                        assert(b@.items =~= seq![tok_text(latex@)]);
                    }
                    flush_step(&mut toks, &mut cur);
                    proof {
                        crate::token::lemma_blocks_view_push(toks@, b);
                        lemma_prepend_blocks_prepend(
                            bv0,
                            flush_plain(c0) + seq![b@],
                            blocks_from(lv, links@, j + 1, None),
                        );
                        assert((bv0 + flush_plain(c0)).push(b@) =~= bv0 + (flush_plain(c0)
                            + seq![b@]));
                    }
                    toks.push(b);
                    i = j + 1;
                },
                None => {
                    proof {
                        assert(lv[i as int].subrange(0, lv[i as int].len() as int) =~= lv[
                            i as int]);
                    }
                    match plain_step(&lines[i], lines[i].len(), links, &mut cur) {
                        Err(e) => {
                            return Err(e);
                        },
                        Ok(_) => {
                            i = i + 1;
                        },
                    }
                },
            }
        } else if line_is_comment(&lines[i]) {
            i = i + 1;
        } else {
            proof {
                assert(lv[i as int].subrange(0, lv[i as int].len() as int) =~= lv[i as int]);
            }
            match plain_step(&lines[i], lines[i].len(), links, &mut cur) {
                Err(e) => {
                    return Err(e);
                },
                Ok(_) => {
                    i = i + 1;
                },
            }
        }
    }
    let ghost bvpre = blocks_view(toks@);
    let ghost cpre = cur_items(cur);
    flush_step(&mut toks, &mut cur);
    proof {
        assert(blocks_from(lv, links@, i as int, cpre) == Ok::<Seq<BlockTok>, LexError>(
            flush_plain(cpre),
        ));
        assert(bvpre + flush_plain(cpre) + Seq::<BlockTok>::empty() =~= bvpre + flush_plain(
            cpre,
        ));
    }
    Ok(toks)
}

/// Converts a whole document to HTML: the lines are lexed into blocks whose
/// HTML renderings are joined by newlines.
pub fn convert_document(content: Vec<Vec<char>>, links: LinkTable) -> (r: Result<
    String,
    LexError,
>)
    ensures
        match r {
            Ok(h) => match blocks_from(lines_view(content@), links@, 0, None) {
                Ok(bs) => h@ == crate::token::blocks_html(bs, 0),
                Err(_) => false,
            },
            Err(e) => blocks_from(lines_view(content@), links@, 0, None) == Err::<
                Seq<BlockTok>,
                LexError,
            >(e),
        },
{
    let ghost lv = lines_view(content@);
    let ghost lk = links@;
    let mut lexer = BlockLexer::new(content, links);
    match lexer.tokenize() {
        Err(e) => Err(e),
        Ok(v) => {
            proof {
                assert(blocks_view(Seq::<BlockToken>::empty()) =~= Seq::<BlockTok>::empty());
                match blocks_from(lv, lk, 0, None) {
                    Ok(bs) => {
                        assert(Seq::<BlockTok>::empty() + bs =~= bs);
                    },
                    Err(_) => {},
                }
            }
            Ok(crate::token::render_document(&v))
        },
    }
}

/// The block lexer state: the document's lines, the cursor, the blocks
/// emitted so far, and the link table handed to the inline lexer.
pub struct BlockLexer {
    pub tokens: Vec<BlockToken>,
    pub index: usize,
    pub content: Vec<Vec<char>>,
    pub links: LinkTable,
}

impl BlockLexer {
    /// A fresh lexer over the document's lines.
    pub fn new(content: Vec<Vec<char>>, links: LinkTable) -> (r: Self)
        ensures
            r.content@ == content@,
            r.links@ == links@,
            r.index == 0,
            r.tokens@ == Seq::<BlockToken>::empty(),
    {
        BlockLexer { content, index: 0, tokens: Vec::new(), links }
    }

    /// Whether the block emitted last has the given kind.
    pub fn is_same_type(&self, other: BlockType) -> (r: bool)
        ensures
            r == (self.tokens@.len() > 0 && self.tokens@.last().block_type == other),
    {
        if self.tokens.len() > 0 {
            self.tokens[self.tokens.len() - 1].is_same_type(other)
        } else {
            false
        }
    }

    /// Runs the lexer to the end of its lines and hands the emitted blocks
    /// out, already-emitted blocks first.
    pub fn tokenize(&mut self) -> (r: Result<Vec<BlockToken>, LexError>)
        ensures
            match r {
                Ok(v) => Ok::<Seq<BlockTok>, LexError>(blocks_view(v@)) == prepend_blocks(
                    blocks_view(old(self).tokens@),
                    blocks_from(
                        lines_view(old(self).content@),
                        old(self).links@,
                        old(self).index as int,
                        None,
                    ),
                ),
                Err(e) => blocks_from(
                    lines_view(old(self).content@),
                    old(self).links@,
                    old(self).index as int,
                    None,
                ) == Err::<Seq<BlockTok>, LexError>(e),
            },
            final(self).content@ == old(self).content@,
            final(self).links@ == old(self).links@,
            final(self).index == old(self).index,
            final(self).tokens@.len() == 0,
    {
        let mut out: Vec<BlockToken> = Vec::new();
        core::mem::swap(&mut out, &mut self.tokens);
        match lex_blocks(&self.content, &self.links, self.index) {
            Err(e) => Err(e),
            Ok(mut rest) => {
                let ghost a = out@;
                let ghost b = rest@;
                out.append(&mut rest);
                proof {
                    crate::token::lemma_blocks_view_concat(a, b);
                }
                Ok(out)
            },
        }
    }
}

} // verus!
