//! The token model: inline tokens, block tokens, their mathematical views,
//! and their rendering to HTML.
//!
//! Each executable token type has a ghost mirror (`InlineTok`, `BlockTok`)
//! whose fields are sequences; the lexers' contracts and the rendering
//! specification are stated over these mirrors.

use vstd::prelude::*;
use vstd::string::StringExecFns;
use crate::inline_lexer::{lex_all, lex_inline, LexError};
use crate::links::LinkTable;

verus! {

#[derive(Clone, Copy, Debug, PartialEq, Eq, Structural)]
pub enum InlineType {
    Text,
    Bold,
    Code,
    LineBreak,
    Url,
    FootNote,
    Latex,
    Picture,
}

#[allow(non_camel_case_types)]
#[derive(Clone, Copy, Debug, PartialEq, Eq, Structural)]
pub enum BlockType {
    h1,
    h2,
    h3,
    Plain,
    Empty,
    Hr,
    CodeBlock,
    Quote,
    FootNote,
    Latex,
}

/// One inline element: a literal run of text, or a construct such as a bold
/// span, a code span, a link, a footnote reference, a math span or an image.
/// `text` is the literal content for the kinds that carry one; `children`
/// holds the nested content of a `Bold` span and the single target `Text`
/// child of a `Url`.
#[derive(Debug)]
pub struct InlineToken {
    pub inline_type: InlineType,
    pub text: Option<String>,
    pub children: Vec<InlineToken>,
}

/// One structural unit of the document, holding its accumulated inline
/// content.
#[derive(Debug)]
pub struct BlockToken {
    pub block_type: BlockType,
    pub inline_tokens: Vec<InlineToken>,
}

/// Mathematical mirror of `InlineToken`.
pub struct InlineTok {
    pub kind: InlineType,
    pub text: Option<Seq<char>>,
    pub children: Seq<InlineTok>,
}

/// Mathematical mirror of `BlockToken`.
pub struct BlockTok {
    pub kind: BlockType,
    pub items: Seq<InlineTok>,
}

pub open spec fn opt_view(o: Option<String>) -> Option<Seq<char>> {
    match o {
        Some(s) => Some(s@),
        None => None,
    }
}

pub open spec fn tok_text(s: Seq<char>) -> InlineTok {
    InlineTok { kind: InlineType::Text, text: Some(s), children: Seq::empty() }
}

pub open spec fn tok_code(s: Seq<char>) -> InlineTok {
    InlineTok { kind: InlineType::Code, text: Some(s), children: Seq::empty() }
}

pub open spec fn tok_line_break() -> InlineTok {
    InlineTok { kind: InlineType::LineBreak, text: None, children: Seq::empty() }
}

pub open spec fn tok_bold(children: Seq<InlineTok>) -> InlineTok {
    InlineTok { kind: InlineType::Bold, text: None, children }
}

/// A link: the label is the token's own text, the target is a single nested
/// `Text` child (possibly empty when the link had no resolvable target).
pub open spec fn tok_url(label: Seq<char>, target: Seq<char>) -> InlineTok {
    InlineTok { kind: InlineType::Url, text: Some(label), children: seq![tok_text(target)] }
}

pub open spec fn tok_foot_note(id: Seq<char>) -> InlineTok {
    InlineTok { kind: InlineType::FootNote, text: Some(id), children: Seq::empty() }
}

pub open spec fn tok_latex(s: Seq<char>) -> InlineTok {
    InlineTok { kind: InlineType::Latex, text: Some(s), children: Seq::empty() }
}

pub open spec fn tok_picture(p: Seq<char>) -> InlineTok {
    InlineTok { kind: InlineType::Picture, text: Some(p), children: Seq::empty() }
}

/// View of one executable inline token.
pub open spec fn inline_view(t: InlineToken) -> InlineTok
    decreases t, 1int, 0int,
{
    InlineTok {
        kind: t.inline_type,
        text: opt_view(t.text),
        children: tokens_view_from(t.children@, 0),
    }
}

/// View of the executable tokens of `ts` from position `k` on.
pub open spec fn tokens_view_from(ts: Seq<InlineToken>, k: int) -> Seq<InlineTok>
    decreases ts, 0int, ts.len() - k,
{
    if 0 <= k < ts.len() {
        seq![inline_view(ts[k])] + tokens_view_from(ts, k + 1)
    } else {
        Seq::empty()
    }
}

pub open spec fn tokens_view(ts: Seq<InlineToken>) -> Seq<InlineTok> {
    tokens_view_from(ts, 0)
}

impl View for InlineToken {
    type V = InlineTok;

    open spec fn view(&self) -> InlineTok {
        inline_view(*self)
    }
}

pub open spec fn block_view(b: BlockToken) -> BlockTok {
    BlockTok { kind: b.block_type, items: tokens_view(b.inline_tokens@) }
}

pub open spec fn blocks_view(bs: Seq<BlockToken>) -> Seq<BlockTok> {
    Seq::new(bs.len(), |k: int| block_view(bs[k]))
}

impl View for BlockToken {
    type V = BlockTok;

    open spec fn view(&self) -> BlockTok {
        block_view(*self)
    }
}

/// `tokens_view_from` indexes pointwise into `inline_view`.
pub proof fn lemma_tokens_view_from(ts: Seq<InlineToken>, k: int)
    requires
        0 <= k <= ts.len(),
    ensures
        tokens_view_from(ts, k).len() == ts.len() - k,
        forall|q: int|
            k <= q < ts.len() ==> tokens_view_from(ts, k)[q - k] == inline_view(#[trigger] ts[q]),
    decreases ts.len() - k,
{
    if k < ts.len() {
        lemma_tokens_view_from(ts, k + 1);
    }
}

/// Pointwise description of `tokens_view`.
pub proof fn lemma_tokens_view(ts: Seq<InlineToken>)
    ensures
        tokens_view(ts).len() == ts.len(),
        forall|q: int| 0 <= q < ts.len() ==> tokens_view(ts)[q] == inline_view(#[trigger] ts[q]),
{
    lemma_tokens_view_from(ts, 0);
}

/// Appending one token appends its view.
pub proof fn lemma_tokens_view_push(ts: Seq<InlineToken>, t: InlineToken)
    ensures
        tokens_view(ts.push(t)) == tokens_view(ts).push(inline_view(t)),
{
    lemma_tokens_view(ts);
    lemma_tokens_view(ts.push(t));
    let l = tokens_view(ts.push(t));
    let r = tokens_view(ts).push(inline_view(t));
    assert forall|q: int| 0 <= q < l.len() implies l[q] == r[q] by {
        if q < ts.len() {
            assert((ts.push(t))[q] == ts[q]);
        } else {
            assert((ts.push(t))[q] == t);
        }
    }
    assert(l =~= r);
}

/// Concatenating token vectors concatenates their views.
pub proof fn lemma_tokens_view_concat(a: Seq<InlineToken>, b: Seq<InlineToken>)
    ensures
        tokens_view(a + b) == tokens_view(a) + tokens_view(b),
{
    lemma_tokens_view(a);
    lemma_tokens_view(b);
    lemma_tokens_view(a + b);
    let l = tokens_view(a + b);
    let r = tokens_view(a) + tokens_view(b);
    assert forall|q: int| 0 <= q < l.len() implies l[q] == r[q] by {
        if q < a.len() {
            assert((a + b)[q] == a[q]);
        } else {
            assert((a + b)[q] == b[q - a.len()]);
        }
    }
    assert(l =~= r);
}

/// Appends freshly lexed content to a block's accumulated items, separated
/// from non-empty earlier content by a line break.
pub open spec fn append_block_items(acc: Seq<InlineTok>, items: Seq<InlineTok>) -> Seq<
    InlineTok,
> {
    if acc.len() > 0 {
        acc + seq![tok_line_break()] + items
    } else {
        items
    }
}

/// Appending one block appends its view.
pub proof fn lemma_blocks_view_push(bs: Seq<BlockToken>, b: BlockToken)
    ensures
        blocks_view(bs.push(b)) == blocks_view(bs).push(block_view(b)),
{
    assert(blocks_view(bs.push(b)) =~= blocks_view(bs).push(block_view(b)));
}

/// Concatenating block vectors concatenates their views.
pub proof fn lemma_blocks_view_concat(a: Seq<BlockToken>, b: Seq<BlockToken>)
    ensures
        blocks_view(a + b) == blocks_view(a) + blocks_view(b),
{
    assert(blocks_view(a + b) =~= blocks_view(a) + blocks_view(b));
}

/// The view of the empty string literal is the empty sequence.
pub proof fn lemma_empty_strlit()
    ensures
        ""@ == Seq::<char>::empty(),
{
    reveal_strlit("");
    assert(""@ =~= Seq::<char>::empty());
}

pub open spec fn text_or_empty(o: Option<Seq<char>>) -> Seq<char> {
    match o {
        Some(s) => s,
        None => Seq::empty(),
    }
}

/// The target of a `Url` token: the text of its first child, if any.
pub open spec fn url_target(children: Seq<InlineTok>) -> Seq<char> {
    if children.len() > 0 {
        text_or_empty(children[0].text)
    } else {
        Seq::empty()
    }
}

/// HTML rendering of one inline token.
pub open spec fn inline_html(t: InlineTok) -> Seq<char>
    decreases t, 1int, 0int,
{
    match t.kind {
        InlineType::Text => text_or_empty(t.text),
        InlineType::Bold => "<strong>"@ + inlines_html(t.children, 0, Seq::empty())
            + "</strong>"@,
        InlineType::Code => "<code>"@ + text_or_empty(t.text) + "</code>"@,
        InlineType::LineBreak => "<br>"@,
        InlineType::Url => "<a href=\""@ + url_target(t.children) + "\">"@ + text_or_empty(
            t.text,
        ) + "</a>"@,
        InlineType::FootNote => "<span id=\""@ + text_or_empty(t.text) + "\"></span>"@,
        InlineType::Latex => "\\("@ + text_or_empty(t.text) + "\\)"@,
        InlineType::Picture => "<img src=\""@ + text_or_empty(t.text) + "\">"@,
    }
}

/// HTML rendering of the tokens of `ts` from position `k` on, with `sep`
/// between each pair of renderings.
pub open spec fn inlines_html(ts: Seq<InlineTok>, k: int, sep: Seq<char>) -> Seq<char>
    decreases ts, 0int, ts.len() - k,
{
    if 0 <= k < ts.len() {
        inline_html(ts[k]) + if k + 1 < ts.len() {
            sep + inlines_html(ts, k + 1, sep)
        } else {
            Seq::empty()
        }
    } else {
        Seq::empty()
    }
}

/// The id a `FootNote` block renders: the text of its first token, if any.
pub open spec fn foot_note_id(items: Seq<InlineTok>) -> Seq<char> {
    if items.len() > 0 {
        text_or_empty(items[0].text)
    } else {
        Seq::empty()
    }
}

/// HTML rendering of one block token.
pub open spec fn block_html(b: BlockTok) -> Seq<char> {
    let c = inlines_html(b.items, 0, "\n"@);
    match b.kind {
        BlockType::h1 => "<h2>"@ + c + "</h2>"@,
        BlockType::h2 => "<h3>"@ + c + "</h3>"@,
        BlockType::h3 => "<h4>"@ + c + "</h4>"@,
        BlockType::Plain => "<p>"@ + c + "</p>"@,
        BlockType::Empty => "<br>"@,
        BlockType::Hr => "<hr>"@,
        BlockType::CodeBlock => "<pre><code class=\"codeblock\">"@ + c + "</code></pre>"@,
        BlockType::Quote => "<blockquote>"@ + c + "</blockquote>"@,
        BlockType::FootNote => "<foot-note for=\""@ + foot_note_id(b.items) + "\">"@
            + inlines_html(b.items, 2, Seq::empty()) + "</foot-note>"@,
        BlockType::Latex => "\\["@ + c + "\\]"@,
    }
}

/// HTML rendering of a block sequence from position `k` on, blocks separated
/// by a newline.
pub open spec fn blocks_html(bs: Seq<BlockTok>, k: int) -> Seq<char>
    decreases bs.len() - k,
{
    if 0 <= k < bs.len() {
        block_html(bs[k]) + if k + 1 < bs.len() {
            "\n"@ + blocks_html(bs, k + 1)
        } else {
            Seq::empty()
        }
    } else {
        Seq::empty()
    }
}

/// Renders the tokens of `v` from position `from` on, separated by `sep`.
pub fn render_inlines(v: &Vec<InlineToken>, from: usize, sep: &str) -> (r: String)
    ensures
        r@ == inlines_html(tokens_view(v@), from as int, sep@),
    decreases *v, 0int, 0int,
{
    proof {
        lemma_tokens_view(v@);
    }
    let ghost vts = tokens_view(v@);
    let mut out = String::new();
    let mut k: usize = from;
    while k < v.len()
        invariant
            from <= k,
            vts == tokens_view(v@),
            vts.len() == v@.len(),
            forall|q: int| 0 <= q < v@.len() ==> vts[q] == inline_view(#[trigger] v@[q]),
            inlines_html(vts, from as int, sep@) == out@ + inlines_html(vts, k as int, sep@),
        decreases v.len() - k,
    {
        let piece = v[k].to_html();
        let ghost mid = out@;
        out.append(piece.as_str());
        if k + 1 < v.len() {
            out.append(sep);
            proof {
                assert(mid + inlines_html(vts, k as int, sep@) =~= out@ + inlines_html(
                    vts,
                    k + 1,
                    sep@,
                ));
            }
        } else {
            proof {
                assert(mid + inlines_html(vts, k as int, sep@) =~= out@);
                assert(out@ + inlines_html(vts, k + 1, sep@) =~= out@);
            }
        }
        k = k + 1;
    }
    out
}

impl InlineToken {
    /// Builds a token of the given kind with the given literal text and
    /// nested children; absent children mean an empty child list.
    pub fn new(inline_type: InlineType, text: Option<String>, children: Option<Vec<InlineToken>>) -> (r:
        Self)
        ensures
            r@ == (InlineTok {
                kind: inline_type,
                text: opt_view(text),
                children: match children {
                    Some(c) => tokens_view(c@),
                    None => Seq::<InlineTok>::empty(),
                },
            }),
    {
        let children = match children {
            Some(c) => c,
            None => Vec::new(),
        };
        InlineToken { inline_type, text, children }
    }

    /// Renders this token to its HTML template.
    pub fn to_html(&self) -> (r: String)
        ensures
            r@ == inline_html(self@),
        decreases *self, 1int, 0int,
    {
        match self.inline_type {
            InlineType::Text => match &self.text {
                Some(s) => s.clone(),
                None => String::new(),
            },
            InlineType::Bold => {
                proof {
                    lemma_empty_strlit();
                }
                let mut out = "<strong>".to_owned();
                let inner = render_inlines(&self.children, 0, "");
                out.append(inner.as_str());
                out.append("</strong>");
                out
            },
            InlineType::Code => {
                let mut out = "<code>".to_owned();
                match &self.text {
                    Some(s) => out.append(s.as_str()),
                    None => (),
                }
                out.append("</code>");
                out
            },
            InlineType::LineBreak => "<br>".to_owned(),
            InlineType::Url => {
                let mut out = "<a href=\"".to_owned();
                if self.children.len() > 0 {
                    match &self.children[0].text {
                        Some(s) => out.append(s.as_str()),
                        None => (),
                    }
                }
                proof {
                    lemma_tokens_view(self.children@);
                    assert(out@ =~= "<a href=\""@ + url_target(self@.children));
                }
                out.append("\">");
                match &self.text {
                    Some(s) => out.append(s.as_str()),
                    None => (),
                }
                out.append("</a>");
                out
            },
            InlineType::FootNote => {
                let mut out = "<span id=\"".to_owned();
                match &self.text {
                    Some(s) => out.append(s.as_str()),
                    None => (),
                }
                out.append("\"></span>");
                out
            },
            InlineType::Latex => {
                let mut out = "\\(".to_owned();
                match &self.text {
                    Some(s) => out.append(s.as_str()),
                    None => (),
                }
                out.append("\\)");
                out
            },
            InlineType::Picture => {
                let mut out = "<img src=\"".to_owned();
                match &self.text {
                    Some(s) => out.append(s.as_str()),
                    None => (),
                }
                out.append("\">");
                out
            },
        }
    }
}

impl BlockToken {
    /// A freshly constructed block has no content yet.
    pub fn new(block_type: BlockType) -> (r: Self)
        ensures
            r@ == (BlockTok { kind: block_type, items: Seq::<InlineTok>::empty() }),
    {
        BlockToken { block_type, inline_tokens: Vec::new() }
    }

    /// Whether this block has the given kind.
    pub fn is_same_type(&self, other: BlockType) -> (r: bool)
        ensures
            r == (self.block_type == other),
    {
        self.block_type == other
    }

    /// Appends one literal text token, bypassing inline lexing; used for code
    /// block payloads, footnote identifiers and math block sources.
    pub fn process_block_content_as_plain_text(&mut self, content: String)
        ensures
            final(self)@ == (BlockTok {
                kind: old(self)@.kind,
                items: old(self)@.items.push(tok_text(content@)),
            }),
    {
        let ghost before = self.inline_tokens@;
        let ghost ctext = content@;
        let t = InlineToken::new(InlineType::Text, Some(content), None);
        proof {
            lemma_tokens_view_push(before, t);
            assert(inline_view(t) =~= tok_text(ctext));
        }
        self.inline_tokens.push(t);
    }

    /// Inline-lexes `content` against `links` and appends the resulting
    /// tokens to this block, preceded by a line break when the block already
    /// has content; the fatal lexical error leaves the block unchanged.
    pub fn proceed_block_content(&mut self, content: Vec<char>, links: &LinkTable) -> (r: Result<
        (),
        LexError,
    >)
        ensures
            match r {
                Ok(_) => match lex_all(content@, links@) {
                    Ok(ts) => final(self)@ == (BlockTok {
                        kind: old(self)@.kind,
                        items: append_block_items(old(self)@.items, ts),
                    }),
                    Err(_) => false,
                },
                Err(e) => lex_all(content@, links@) == Err::<Seq<InlineTok>, LexError>(e)
                    && final(self)@ == old(self)@,
            },
    {
        let ghost acc = tokens_view(self.inline_tokens@);
        proof {
            lemma_tokens_view(self.inline_tokens@);
        }
        match lex_inline(&content, links, 0, Vec::new()) {
            Err(e) => Err(e),
            Ok(mut ts) => {
                let ghost tso = ts@;
                let ghost tsv = tokens_view(ts@);
                if self.inline_tokens.len() > 0 {
                    let lb = InlineToken::new(InlineType::LineBreak, None, None);
                    proof {
                        lemma_tokens_view_push(self.inline_tokens@, lb);
                        assert(inline_view(lb) == tok_line_break());
                    }
                    self.inline_tokens.push(lb);
                }
                let ghost mid = self.inline_tokens@;
                self.inline_tokens.append(&mut ts);
                proof {
                    lemma_tokens_view_concat(mid, tso);
                    if acc.len() > 0 {
                        assert(tokens_view(mid) =~= acc + seq![tok_line_break()]);
                        assert((acc + seq![tok_line_break()]) + tsv =~= acc + seq![
                            tok_line_break(),
                        ] + tsv);
                    } else {
                        assert(tokens_view(mid) + tsv =~= tsv);
                    }
                }
                Ok(())
            },
        }
    }

    /// Renders this block to its HTML template; the block's inline renderings
    /// are joined by newlines.
    pub fn to_html(&self) -> (r: String)
        ensures
            r@ == block_html(self@),
    {
        match self.block_type {
            BlockType::h1 => {
                let mut out = "<h2>".to_owned();
                out.append(render_inlines(&self.inline_tokens, 0, "\n").as_str());
                out.append("</h2>");
                out
            },
            BlockType::h2 => {
                let mut out = "<h3>".to_owned();
                out.append(render_inlines(&self.inline_tokens, 0, "\n").as_str());
                out.append("</h3>");
                out
            },
            BlockType::h3 => {
                let mut out = "<h4>".to_owned();
                out.append(render_inlines(&self.inline_tokens, 0, "\n").as_str());
                out.append("</h4>");
                out
            },
            BlockType::Plain => {
                let mut out = "<p>".to_owned();
                out.append(render_inlines(&self.inline_tokens, 0, "\n").as_str());
                out.append("</p>");
                out
            },
            BlockType::Empty => "<br>".to_owned(),
            BlockType::Hr => "<hr>".to_owned(),
            BlockType::CodeBlock => {
                let mut out = "<pre><code class=\"codeblock\">".to_owned();
                out.append(render_inlines(&self.inline_tokens, 0, "\n").as_str());
                out.append("</code></pre>");
                out
            },
            BlockType::Quote => {
                let mut out = "<blockquote>".to_owned();
                out.append(render_inlines(&self.inline_tokens, 0, "\n").as_str());
                out.append("</blockquote>");
                out
            },
            BlockType::FootNote => {
                proof {
                    lemma_empty_strlit();
                }
                let mut out = "<foot-note for=\"".to_owned();
                if self.inline_tokens.len() > 0 {
                    match &self.inline_tokens[0].text {
                        Some(s) => out.append(s.as_str()),
                        None => (),
                    }
                }
                proof {
                    lemma_tokens_view(self.inline_tokens@);
                    assert(out@ =~= "<foot-note for=\""@ + foot_note_id(self@.items));
                }
                out.append("\">");
                out.append(render_inlines(&self.inline_tokens, 2, "").as_str());
                out.append("</foot-note>");
                out
            },
            BlockType::Latex => {
                let mut out = "\\[".to_owned();
                out.append(render_inlines(&self.inline_tokens, 0, "\n").as_str());
                out.append("\\]");
                out
            },
        }
    }
}

/// Renders a whole token sequence: each block's HTML, joined by newlines.
pub fn render_document(blocks: &Vec<BlockToken>) -> (r: String)
    ensures
        r@ == blocks_html(blocks_view(blocks@), 0),
{
    let ghost bvs = blocks_view(blocks@);
    let mut out = String::new();
    let mut k: usize = 0;
    while k < blocks.len()
        invariant
            bvs == blocks_view(blocks@),
            blocks_html(bvs, 0) == out@ + blocks_html(bvs, k as int),
        decreases blocks.len() - k,
    {
        let piece = blocks[k].to_html();
        let ghost mid = out@;
        out.append(piece.as_str());
        if k + 1 < blocks.len() {
            out.append("\n");
            proof {
                assert(mid + blocks_html(bvs, k as int) =~= out@ + blocks_html(bvs, k + 1));
            }
        } else {
            proof {
                assert(mid + blocks_html(bvs, k as int) =~= out@);
                assert(out@ + blocks_html(bvs, k + 1) =~= out@);
            }
        }
        k = k + 1;
    }
    out
}

} // verus!
