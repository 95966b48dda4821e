//! Laws of the lexer and the renderer, stated and proved over the
//! mathematical definitions.

use vstd::prelude::*;
use crate::inline_lexer::{LexError, is_special, flushed, lex_all, lex_from, lex_bracket, lex_bracket_external, prepend_inlines};
use crate::text::find_char;
use crate::token::{InlineTok, InlineType, BlockTok, tok_text, blocks_html};

verus! {

/// A run of characters in which nothing dispatches — no special character,
/// and any backtick has no partner after it — is consumed literally.
proof fn lemma_literal_run(
    s: Seq<char>,
    links: Seq<(Seq<char>, Seq<char>)>,
    i: int,
    pending: Seq<char>,
)
    requires
        0 <= i <= s.len(),
        forall|k: int|
            i <= k < s.len() ==> (#[trigger] s[k]) != '*' && s[k] != '\\' && s[k] != '['
                && s[k] != '$' && s[k] != '!',
        forall|k: int|
            i <= k < s.len() && (#[trigger] s[k]) == '`' ==> find_char(s, k + 1, '`') is None,
    ensures
        lex_from(s, links, i, pending) == Ok::<Seq<InlineTok>, LexError>(
            flushed(pending + s.skip(i)),
        ),
    decreases s.len() - i,
{
    if i < s.len() {
        lemma_literal_run(s, links, i + 1, pending.push(s[i]));
        assert(pending.push(s[i]) + s.skip(i + 1) =~= pending + s.skip(i));
    } else {
        assert(pending + s.skip(i) =~= pending);
    }
}

/// For any non-empty input without special characters, the inline lexer
/// produces exactly one `Text` token equal to the input.
pub proof fn lemma_no_specials_single_text(s: Seq<char>, links: Seq<(Seq<char>, Seq<char>)>)
    requires
        s.len() > 0,
        forall|k: int| 0 <= k < s.len() ==> !is_special(#[trigger] s[k]),
    ensures
        lex_all(s, links) == Ok::<Seq<InlineTok>, LexError>(seq![tok_text(s)]),
{
    lemma_literal_run(s, links, 0, Seq::empty());
    assert(Seq::<char>::empty() + s.skip(0) =~= s);
}

/// An unmatched backtick never opens a code span: in a non-empty input whose
/// only special characters are backticks without partners after them, the
/// backtick stays literally in the one `Text` token produced.
pub proof fn lemma_unmatched_backtick_literal(s: Seq<char>, links: Seq<(Seq<char>, Seq<char>)>)
    requires
        s.len() > 0,
        forall|k: int|
            0 <= k < s.len() ==> (#[trigger] s[k]) != '*' && s[k] != '\\' && s[k] != '['
                && s[k] != '$' && s[k] != '!',
        forall|k: int|
            0 <= k < s.len() && (#[trigger] s[k]) == '`' ==> find_char(s, k + 1, '`') is None,
    ensures
        lex_all(s, links) == Ok::<Seq<InlineTok>, LexError>(seq![tok_text(s)]),
{
    lemma_literal_run(s, links, 0, Seq::empty());
    assert(Seq::<char>::empty() + s.skip(0) =~= s);
}

/// Whether a token is, or contains anywhere inside it, a `Code` token.
pub open spec fn tok_has_code(t: InlineTok) -> bool
    decreases t, 1int, 0int,
{
    t.kind == InlineType::Code || toks_have_code(t.children, 0)
}

/// Whether any token of `ts` from position `k` on contains a `Code` token.
pub open spec fn toks_have_code(ts: Seq<InlineTok>, k: int) -> bool
    decreases ts, 0int, ts.len() - k,
{
    if 0 <= k < ts.len() {
        tok_has_code(ts[k]) || toks_have_code(ts, k + 1)
    } else {
        false
    }
}

proof fn lemma_toks_have_code_iff(ts: Seq<InlineTok>, k: int)
    requires
        0 <= k <= ts.len(),
    ensures
        toks_have_code(ts, k) <==> exists|q: int| k <= q < ts.len() && tok_has_code(#[trigger] ts[q]),
    decreases ts.len() - k,
{
    if k < ts.len() {
        lemma_toks_have_code_iff(ts, k + 1);
    }
}

proof fn lemma_no_code_flushed(p: Seq<char>)
    ensures
        !toks_have_code(flushed(p), 0),
{
    assert(!toks_have_code(Seq::<InlineTok>::empty(), 0));
    if p.len() > 0 {
        assert(!toks_have_code(tok_text(p).children, 0));
        assert(!tok_has_code(tok_text(p)));
        assert(!toks_have_code(seq![tok_text(p)], 1));
    }
}

proof fn lemma_no_code_emit(p: Seq<char>, t: InlineTok)
    requires
        !tok_has_code(t),
    ensures
        !toks_have_code(flushed(p) + seq![t], 0),
{
    lemma_no_code_flushed(p);
    lemma_toks_have_code_iff(flushed(p), 0);
    lemma_toks_have_code_iff(flushed(p) + seq![t], 0);
    assert forall|q: int| 0 <= q < (flushed(p) + seq![t]).len() implies !tok_has_code(
        #[trigger] (flushed(p) + seq![t])[q],
    ) by {
        if q < flushed(p).len() {
            assert((flushed(p) + seq![t])[q] == flushed(p)[q]);
        } else {
            assert((flushed(p) + seq![t])[q] == t);
        }
    }
}

/// A `Url` token holds only its single `Text` child: never a `Code` token.
proof fn lemma_no_code_url(label: Seq<char>, target: Seq<char>)
    ensures
        !tok_has_code(crate::token::tok_url(label, target)),
{
    assert(!toks_have_code(tok_text(target).children, 0));
    assert(!tok_has_code(tok_text(target)));
    assert(!toks_have_code(seq![tok_text(target)], 1));
    assert(!toks_have_code(crate::token::tok_url(label, target).children, 0));
}

/// No two backticks stand in `s`.
pub open spec fn lone_backtick(s: Seq<char>) -> bool {
    forall|k1: int, k2: int|
        0 <= k1 < k2 < s.len() ==> !((#[trigger] s[k1]) == '`' && (#[trigger] s[k2]) == '`')
}

proof fn lemma_no_code_bracket_external(
    s: Seq<char>,
    links: Seq<(Seq<char>, Seq<char>)>,
    i: int,
    pending: Seq<char>,
)
    requires
        0 <= i,
        lone_backtick(s),
    ensures
        match lex_bracket_external(s, links, i, pending) {
            Ok(ts) => !toks_have_code(ts, 0),
            Err(_) => true,
        },
    decreases s.len(), s.len() - i, 0int,
{
    if !(0 <= i < s.len()) {
        lemma_no_code_flushed(pending);
    } else {
        match find_char(s, i + 1, ']') {
            Some(e) => {
                if e == i + 1 {
                    lemma_no_code_step(s, links, crate::inline_lexer::step_to(s, i, e + 1), seq!['[', ']']);
                    lemma_no_code_flushed(pending);
                    lemma_no_code_prepend(flushed(pending), lex_from(s, links, crate::inline_lexer::step_to(s, i, e + 1), seq!['[', ']']));
                } else {
                    let target = crate::inline_lexer::url_parts(s, e).0;
                    let next = crate::inline_lexer::url_parts(s, e).1;
                    lemma_no_code_step(s, links, crate::inline_lexer::step_to(s, i, next), Seq::empty());
                    lemma_no_code_url(s.subrange(i + 1, e), target);
                    lemma_no_code_emit(pending, crate::token::tok_url(s.subrange(i + 1, e), target));
                    lemma_no_code_prepend(
                        flushed(pending) + seq![
                            crate::token::tok_url(s.subrange(i + 1, e), target),
                        ],
                        lex_from(s, links, crate::inline_lexer::step_to(s, i, next), Seq::empty()),
                    );
                }
            },
            None => {
                lemma_no_code_step(s, links, i + 1, seq!['[']);
                lemma_no_code_flushed(pending);
                lemma_no_code_prepend(flushed(pending), lex_from(s, links, i + 1, seq!['[']));
            },
        }
    }
}

proof fn lemma_no_code_bracket(
    s: Seq<char>,
    links: Seq<(Seq<char>, Seq<char>)>,
    i: int,
    pending: Seq<char>,
)
    requires
        0 <= i,
        lone_backtick(s),
    ensures
        match lex_bracket(s, links, i, pending) {
            Ok(ts) => !toks_have_code(ts, 0),
            Err(_) => true,
        },
    decreases s.len(), s.len() - i, 1int,
{
    if !(0 <= i < s.len()) {
        lemma_no_code_flushed(pending);
    } else {
        if i + 1 < s.len() && s[i + 1] == '^' {
            match find_char(s, i + 2, ']') {
                Some(j) => {
                    if j != i + 2 {
                        lemma_no_code_step(s, links, crate::inline_lexer::step_to(s, i, j + 1), Seq::empty());
                        assert(!toks_have_code(crate::token::tok_foot_note(s.subrange(i + 2, j)).children, 0));
                        lemma_no_code_emit(pending, crate::token::tok_foot_note(s.subrange(i + 2, j)));
                        lemma_no_code_prepend(
                            flushed(pending) + seq![
                                crate::token::tok_foot_note(s.subrange(i + 2, j)),
                            ],
                            lex_from(s, links, crate::inline_lexer::step_to(s, i, j + 1), Seq::empty()),
                        );
                    }
                },
                None => {
                    lemma_no_code_bracket_external(s, links, i, pending);
                },
            }
        } else if i + 1 < s.len() && s[i + 1] == '[' {
            match crate::text::find_pair(s, i + 2, ']', ']') {
                Some(j) => {
                    let name = s.subrange(i + 2, j);
                    match crate::links::lookup_link(links, name) {
                        Some(url) => {
                            lemma_no_code_step(s, links, crate::inline_lexer::step_to(s, i, j + 2), Seq::empty());
                            lemma_no_code_url(name, "article/"@ + url);
                            lemma_no_code_emit(pending, crate::token::tok_url(name, "article/"@ + url));
                            lemma_no_code_prepend(
                                flushed(pending) + seq![
                                    crate::token::tok_url(name, "article/"@ + url),
                                ],
                                lex_from(s, links, crate::inline_lexer::step_to(s, i, j + 2), Seq::empty()),
                            );
                        },
                        None => {
                            lemma_no_code_step(s, links, crate::inline_lexer::step_to(s, i, j + 2), name);
                            lemma_no_code_flushed(pending);
                            lemma_no_code_prepend(
                                flushed(pending),
                                lex_from(s, links, crate::inline_lexer::step_to(s, i, j + 2), name),
                            );
                        },
                    }
                },
                None => {
                    lemma_no_code_bracket_external(s, links, i, pending);
                },
            }
        } else {
            lemma_no_code_bracket_external(s, links, i, pending);
        }
    }
}

/// Tokens emitted by a flush, a non-`Code` construct, and a code-free rest
/// stay code-free under `prepend_inlines`.
proof fn lemma_no_code_prepend(a: Seq<InlineTok>, r: Result<Seq<InlineTok>, LexError>)
    requires
        !toks_have_code(a, 0),
        match r {
            Ok(rest) => !toks_have_code(rest, 0),
            Err(_) => true,
        },
    ensures
        match prepend_inlines(a, r) {
            Ok(ts) => !toks_have_code(ts, 0),
            Err(_) => true,
        },
{
    match r {
        Ok(rest) => {
            lemma_toks_have_code_iff(a, 0);
            lemma_toks_have_code_iff(rest, 0);
            lemma_toks_have_code_iff(a + rest, 0);
            assert forall|q: int| 0 <= q < (a + rest).len() implies !tok_has_code(
                #[trigger] (a + rest)[q],
            ) by {
                if q < a.len() {
                    assert((a + rest)[q] == a[q]);
                } else {
                    assert((a + rest)[q] == rest[q - a.len()]);
                }
            }
        },
        Err(_) => {},
    }
}

/// In input without two backticks, lexing from any state yields no `Code`
/// token anywhere in the result.
proof fn lemma_no_code_step(
    s: Seq<char>,
    links: Seq<(Seq<char>, Seq<char>)>,
    i: int,
    pending: Seq<char>,
)
    requires
        lone_backtick(s),
    ensures
        match lex_from(s, links, i, pending) {
            Ok(ts) => !toks_have_code(ts, 0),
            Err(_) => true,
        },
    decreases s.len(), s.len() - i, 2int,
{
    if !(0 <= i < s.len()) {
        lemma_no_code_flushed(pending);
    } else {
        let c = s[i];
        if c == '*' {
            if i + 1 < s.len() && s[i + 1] == '*' {
                match crate::text::find_pair(s, i + 2, '*', '*') {
                    Some(j) => {
                        let sub = s.subrange(
                            i + 2,
                            crate::inline_lexer::span_to(i + 2, s.len() as int, j),
                        );
                        assert forall|k1: int, k2: int|
                            0 <= k1 < k2 < sub.len() implies !((#[trigger] sub[k1]) == '`' && (
                        #[trigger] sub[k2]) == '`') by {
                            assert(sub[k1] == s[i + 2 + k1]);
                            assert(sub[k2] == s[i + 2 + k2]);
                        }
                        lemma_no_code_all(sub, links);
                        match lex_all(sub, links) {
                            Err(_) => {},
                            Ok(children) => {
                                lemma_no_code_step(
                                    s,
                                    links,
                                    crate::inline_lexer::step_to(s, i, j + 2),
                                    Seq::empty(),
                                );
                                assert(!tok_has_code(crate::token::tok_bold(children)));
                                lemma_no_code_emit(pending, crate::token::tok_bold(children));
                                lemma_no_code_prepend(
                                    flushed(pending) + seq![crate::token::tok_bold(children)],
                                    lex_from(
                                        s,
                                        links,
                                        crate::inline_lexer::step_to(s, i, j + 2),
                                        Seq::empty(),
                                    ),
                                );
                            },
                        }
                    },
                    None => {
                        lemma_no_code_step(s, links, i + 1, pending.push('*'));
                    },
                }
            } else {
                lemma_no_code_step(s, links, i + 1, pending.push('*'));
            }
        } else if c == '`' {
            match find_char(s, i + 1, '`') {
                Some(j) => {
                    crate::text::lemma_find_char(s, i + 1, '`');
                    assert(s[i] == '`' && s[j] == '`' && i < j < s.len());
                    assert(false);
                },
                None => {
                    lemma_no_code_step(s, links, i + 1, pending.push('`'));
                },
            }
        } else if c == '\\' {
            if i + 1 < s.len() {
                lemma_no_code_step(s, links, i + 2, pending.push(s[i + 1]));
            } else {
                lemma_no_code_step(s, links, i + 1, pending);
            }
        } else if c == '[' {
            lemma_no_code_bracket(s, links, i, pending);
        } else if c == '$' {
            match find_char(s, i + 1, '$') {
                Some(p) => {
                    lemma_no_code_step(
                        s,
                        links,
                        crate::inline_lexer::step_to(s, i, p + 1),
                        Seq::empty(),
                    );
                    if p == i + 1 {
                        lemma_no_code_flushed(pending);
                        lemma_no_code_prepend(
                            flushed(pending),
                            lex_from(
                                s,
                                links,
                                crate::inline_lexer::step_to(s, i, p + 1),
                                Seq::empty(),
                            ),
                        );
                    } else {
                        assert(!toks_have_code(crate::token::tok_latex(s.subrange(i + 1, p)).children, 0));
                        lemma_no_code_emit(pending, crate::token::tok_latex(s.subrange(i + 1, p)));
                        lemma_no_code_prepend(
                            flushed(pending) + seq![crate::token::tok_latex(s.subrange(i + 1, p))],
                            lex_from(
                                s,
                                links,
                                crate::inline_lexer::step_to(s, i, p + 1),
                                Seq::empty(),
                            ),
                        );
                    }
                },
                None => {
                    lemma_no_code_flushed(pending);
                },
            }
        } else if c == '!' {
            if i + 2 < s.len() && s[i + 1] == '[' && s[i + 2] == '[' {
                match crate::text::find_pair(s, i + 3, ']', ']') {
                    Some(j) => {
                        lemma_no_code_step(
                            s,
                            links,
                            crate::inline_lexer::step_to(s, i, j + 2),
                            Seq::empty(),
                        );
                        assert(!toks_have_code(crate::token::tok_picture(s.subrange(i + 3, j)).children, 0));
                        lemma_no_code_emit(pending, crate::token::tok_picture(s.subrange(i + 3, j)));
                        lemma_no_code_prepend(
                            flushed(pending) + seq![crate::token::tok_picture(s.subrange(i + 3, j))],
                            lex_from(
                                s,
                                links,
                                crate::inline_lexer::step_to(s, i, j + 2),
                                Seq::empty(),
                            ),
                        );
                    },
                    None => {
                        lemma_no_code_step(s, links, i + 1, pending.push('!'));
                    },
                }
            } else {
                lemma_no_code_step(s, links, i + 1, pending.push('!'));
            }
        } else {
            lemma_no_code_step(s, links, i + 1, pending.push(c));
        }
    }
}

proof fn lemma_no_code_all(s: Seq<char>, links: Seq<(Seq<char>, Seq<char>)>)
    requires
        lone_backtick(s),
    ensures
        match lex_all(s, links) {
            Ok(ts) => !toks_have_code(ts, 0),
            Err(_) => true,
        },
    decreases s.len(), s.len() + 1, 2int,
{
    lemma_no_code_step(s, links, 0, Seq::empty());
}

/// An input holding no two backticks never produces a `Code` token, however
/// deeply nested: an unmatched backtick cannot open a code span.
pub proof fn lemma_lone_backtick_no_code(s: Seq<char>, links: Seq<(Seq<char>, Seq<char>)>)
    requires
        lone_backtick(s),
    ensures
        match lex_all(s, links) {
            Ok(ts) => !toks_have_code(ts, 0),
            Err(_) => true,
        },
{
    lemma_no_code_all(s, links);
}

/// A footnote reference with an empty identifier is fatal: a `[^]` under the
/// cursor aborts the whole conversion instead of producing literal output.
pub proof fn lemma_empty_footnote_fatal(
    s: Seq<char>,
    links: Seq<(Seq<char>, Seq<char>)>,
    i: int,
    pending: Seq<char>,
)
    requires
        0 <= i,
        i + 2 < s.len(),
        s[i] == '[',
        s[i + 1] == '^',
        s[i + 2] == ']',
    ensures
        lex_from(s, links, i, pending) == Err::<Seq<InlineTok>, LexError>(
            LexError::EmptyFootnoteId,
        ),
{
    assert(find_char(s, i + 2, ']') == Some(i + 2));
    assert(lex_bracket(s, links, i, pending) == Err::<Seq<InlineTok>, LexError>(
        LexError::EmptyFootnoteId,
    ));
}

/// Rendering is a pure function of the token tree: any two renderings of the
/// same block sequence are identical, so re-rendering yields the same HTML.
pub proof fn lemma_render_deterministic(bs: Seq<BlockTok>, h1: Seq<char>, h2: Seq<char>)
    requires
        h1 == blocks_html(bs, 0),
        h2 == blocks_html(bs, 0),
    ensures
        h1 == h2,
{
}

} // verus!
