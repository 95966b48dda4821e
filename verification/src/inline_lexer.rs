//! The inline lexer: turns a character sequence into an ordered sequence of
//! inline tokens, covering every character exactly once.
//!
//! `lex_from` is the mathematical definition of the lexer: it scans from a
//! cursor with a pending literal buffer, dispatching on the character under
//! the cursor, exactly as the executable lexer does.  Malformed or
//! unterminated constructs degrade to literal text; the one unrecoverable
//! input is a footnote reference with an empty identifier, which aborts the
//! whole conversion.

use vstd::prelude::*;
use crate::links::{LinkTable, lookup_link};
use crate::text::{find_char, find_pair, find_char_at, find_pair_at, lemma_find_char, lemma_find_pair, slice_range, chars_to_string};
use crate::token::{InlineToken, InlineTok, InlineType, tokens_view, tok_text, tok_code, tok_bold, tok_url, tok_foot_note, tok_latex, tok_picture, lemma_tokens_view_push, lemma_tokens_view_concat};

verus! {

/// The one unrecoverable lexical error: a `[^]` footnote reference whose
/// identifier is empty aborts the whole conversion.
#[derive(Clone, Copy, Debug, PartialEq, Eq, Structural)]
pub enum LexError {
    EmptyFootnoteId,
}

/// The characters on which the inline lexer dispatches.
pub open spec fn is_special(c: char) -> bool {
    c == '*' || c == '`' || c == '\\' || c == '[' || c == '$' || c == '!'
}

/// The tokens a flush of the pending literal buffer emits: one `Text` token,
/// or nothing when the buffer is empty.
pub open spec fn flushed(pending: Seq<char>) -> Seq<InlineTok> {
    if pending.len() == 0 {
        Seq::empty()
    } else {
        seq![tok_text(pending)]
    }
}

/// Prepends already-emitted tokens to the outcome of lexing the rest.
pub open spec fn prepend_inlines(ts: Seq<InlineTok>, r: Result<Seq<InlineTok>, LexError>) -> Result<
    Seq<InlineTok>,
    LexError,
> {
    match r {
        Ok(rest) => Ok(ts + rest),
        Err(e) => Err(e),
    }
}

pub proof fn lemma_prepend_prepend(a: Seq<InlineTok>, b: Seq<InlineTok>, r: Result<
    Seq<InlineTok>,
    LexError,
>)
    ensures
        prepend_inlines(a, prepend_inlines(b, r)) == prepend_inlines(a + b, r),
{
    match r {
        Ok(rest) => {
            assert(a + (b + rest) =~= (a + b) + rest);
        },
        Err(_) => {},
    }
}

/// The cursor position `n`, forced into the span past `i` and at most the
/// end of `s`; the lexer only follows it with `i < n <= s.len()`, where it
/// equals `n`, so every step moves the cursor forward and stays in bounds.
pub open spec fn step_to(s: Seq<char>, i: int, n: int) -> int {
    if n <= i {
        i + 1
    } else if n > s.len() {
        s.len() as int
    } else {
        n
    }
}

/// The index `n`, forced into the span `[lo, hi]`; the lexer only uses it
/// with `lo <= n <= hi`, where it equals `n`.
pub open spec fn span_to(lo: int, hi: int, n: int) -> int {
    if n < lo {
        lo
    } else if n > hi {
        hi
    } else {
        n
    }
}

/// The target and the cursor position after an external link's label, given
/// the position `e` of the label's closing bracket: a parenthesized span
/// immediately after the bracket yields its interior (empty for `()` or when
/// the parenthesis never closes, in which case the cursor stays on it).
pub open spec fn url_parts(s: Seq<char>, e: int) -> (Seq<char>, int) {
    if e + 1 < s.len() && s[e + 1] == '(' {
        match find_char(s, e + 2, ')') {
            Some(p) => (s.subrange(e + 2, p), p + 1),
            None => (Seq::empty(), e + 1),
        }
    } else {
        (Seq::empty(), e + 1)
    }
}

/// Lexing a whole character sequence from its start.
pub open spec fn lex_all(s: Seq<char>, links: Seq<(Seq<char>, Seq<char>)>) -> Result<
    Seq<InlineTok>,
    LexError,
>
    decreases s.len(), s.len() + 1, 2int,
{
    lex_from(s, links, 0, Seq::empty())
}

/// One lexing state: the remaining input is `s` from cursor `i` on, with the
/// not-yet-flushed literal characters in `pending`.  Produces the tokens the
/// lexer emits from this state to the end of the input.
pub open spec fn lex_from(
    s: Seq<char>,
    links: Seq<(Seq<char>, Seq<char>)>,
    i: int,
    pending: Seq<char>,
) -> Result<Seq<InlineTok>, LexError>
    decreases s.len(), s.len() - i, 2int,
{
    if !(0 <= i < s.len()) {
        Ok(flushed(pending))
    } else {
        let c = s[i];
        if c == '*' {
            if i + 1 < s.len() && s[i + 1] == '*' {
                match find_pair(s, i + 2, '*', '*') {
                    Some(j) => match lex_all(s.subrange(i + 2, span_to(i + 2, s.len() as int, j)), links) {
                        Err(e) => Err(e),
                        Ok(children) => prepend_inlines(
                            flushed(pending) + seq![tok_bold(children)],
                            lex_from(s, links, step_to(s, i, j + 2), Seq::empty()),
                        ),
                    },
                    None => lex_from(s, links, i + 1, pending.push('*')),
                }
            } else {
                lex_from(s, links, i + 1, pending.push('*'))
            }
        } else if c == '`' {
            match find_char(s, i + 1, '`') {
                Some(j) => prepend_inlines(
                    flushed(pending) + seq![tok_code(s.subrange(i + 1, j))],
                    lex_from(s, links, step_to(s, i, j + 1), Seq::empty()),
                ),
                None => lex_from(s, links, i + 1, pending.push('`')),
            }
        } else if c == '\\' {
            if i + 1 < s.len() {
                lex_from(s, links, i + 2, pending.push(s[i + 1]))
            } else {
                lex_from(s, links, i + 1, pending)
            }
        } else if c == '[' {
            lex_bracket(s, links, i, pending)
        } else if c == '$' {
            match find_char(s, i + 1, '$') {
                Some(p) => if p == i + 1 {
                    prepend_inlines(
                        flushed(pending),
                        lex_from(s, links, step_to(s, i, p + 1), Seq::empty()),
                    )
                } else {
                    prepend_inlines(
                        flushed(pending) + seq![tok_latex(s.subrange(i + 1, p))],
                        lex_from(s, links, step_to(s, i, p + 1), Seq::empty()),
                    )
                },
                None => Ok(flushed(pending)),
            }
        } else if c == '!' {
            if i + 2 < s.len() && s[i + 1] == '[' && s[i + 2] == '[' {
                match find_pair(s, i + 3, ']', ']') {
                    Some(j) => prepend_inlines(
                        flushed(pending) + seq![tok_picture(s.subrange(i + 3, j))],
                        lex_from(s, links, step_to(s, i, j + 2), Seq::empty()),
                    ),
                    None => lex_from(s, links, i + 1, pending.push('!')),
                }
            } else {
                lex_from(s, links, i + 1, pending.push('!'))
            }
        } else {
            lex_from(s, links, i + 1, pending.push(c))
        }
    }
}

/// Dispatch for a `[` under the cursor.  The pending buffer is flushed first,
/// whatever follows: a `[^id]` footnote reference (an empty id is the fatal
/// error), a `[[name]]` internal link resolved against the link table (an
/// unresolved name degrades to literal text), or an external `[label](url)`
/// reference.
pub open spec fn lex_bracket(
    s: Seq<char>,
    links: Seq<(Seq<char>, Seq<char>)>,
    i: int,
    pending: Seq<char>,
) -> Result<Seq<InlineTok>, LexError>
    decreases s.len(), s.len() - i, 1int,
{
    if !(0 <= i < s.len()) {
        Ok(flushed(pending))
    } else if i + 1 < s.len() && s[i + 1] == '^' {
        match find_char(s, i + 2, ']') {
            Some(j) => if j == i + 2 {
                Err(LexError::EmptyFootnoteId)
            } else {
                prepend_inlines(
                    flushed(pending) + seq![tok_foot_note(s.subrange(i + 2, j))],
                    lex_from(s, links, step_to(s, i, j + 1), Seq::empty()),
                )
            },
            None => lex_bracket_external(s, links, i, pending),
        }
    } else if i + 1 < s.len() && s[i + 1] == '[' {
        match find_pair(s, i + 2, ']', ']') {
            Some(j) => {
                let name = s.subrange(i + 2, j);
                match lookup_link(links, name) {
                    Some(url) => prepend_inlines(
                        flushed(pending) + seq![tok_url(name, "article/"@ + url)],
                        lex_from(s, links, step_to(s, i, j + 2), Seq::empty()),
                    ),
                    None => prepend_inlines(
                        flushed(pending),
                        lex_from(s, links, step_to(s, i, j + 2), name),
                    ),
                }
            },
            None => lex_bracket_external(s, links, i, pending),
        }
    } else {
        lex_bracket_external(s, links, i, pending)
    }
}

/// The external-reference reading of a `[` under the cursor: up to the next
/// `]` lies the label.  An empty label turns back into the literal `[]`; with
/// no closing bracket at all the `[` itself is consumed as a literal; else a
/// `Url` token carries the label and whatever target `url_parts` reads.
pub open spec fn lex_bracket_external(
    s: Seq<char>,
    links: Seq<(Seq<char>, Seq<char>)>,
    i: int,
    pending: Seq<char>,
) -> Result<Seq<InlineTok>, LexError>
    decreases s.len(), s.len() - i, 0int,
{
    if !(0 <= i < s.len()) {
        Ok(flushed(pending))
    } else {
    match find_char(s, i + 1, ']') {
        Some(e) => if e == i + 1 {
            prepend_inlines(
                flushed(pending),
                lex_from(s, links, step_to(s, i, e + 1), seq!['[', ']']),
            )
        } else {
            let label = s.subrange(i + 1, e);
            let target = url_parts(s, e).0;
            let next = url_parts(s, e).1;
            prepend_inlines(
                flushed(pending) + seq![tok_url(label, target)],
                lex_from(s, links, step_to(s, i, next), Seq::empty()),
            )
        },
        None => prepend_inlines(flushed(pending), lex_from(s, links, i + 1, seq!['['])),
    }
    }
}

/// Flushes the pending literal buffer: a non-empty buffer becomes one `Text`
/// token; the buffer is left empty.
fn flush_into(toks: &mut Vec<InlineToken>, pending: &mut Vec<char>)
    ensures
        tokens_view(final(toks)@) == tokens_view(old(toks)@) + flushed(old(pending)@),
        final(pending)@ == Seq::<char>::empty(),
{
    let ghost tv0 = tokens_view(toks@);
    if pending.len() > 0 {
        let s = chars_to_string(pending);
        let t = InlineToken::new(InlineType::Text, Some(s), None);
        proof {
            lemma_tokens_view_push(toks@, t);
            assert(tokens_view(toks@).push(t@) =~= tv0 + flushed(pending@));
        }
        toks.push(t);
        pending.clear();
    } else {
        proof {
            assert(tv0 + flushed(pending@) =~= tv0);
        }
    }
}

/// Consumes a code span opened by the backtick at `i`, or the backtick as a
/// literal when it never closes.
fn code_step(
    text: &Vec<char>,
    links: &LinkTable,
    i: usize,
    toks: &mut Vec<InlineToken>,
    pending: &mut Vec<char>,
) -> (r: usize)
    requires
        i < text@.len(),
        text@[i as int] == '`',
    ensures
        i < r <= text@.len(),
        prepend_inlines(
            tokens_view(final(toks)@),
            lex_from(text@, links@, r as int, final(pending)@),
        ) == prepend_inlines(
            tokens_view(old(toks)@),
            lex_from(text@, links@, i as int, old(pending)@),
        ),
{
    let n = text.len();
    let ghost p0 = pending@;
    let ghost tv0 = tokens_view(toks@);
    match find_char_at(text, i + 1, '`') {
        Some(j) => {
            proof {
                lemma_find_char(text@, i + 1, '`');
            }
            flush_into(toks, pending);
            let content = slice_range(text, i + 1, j);
            let t = InlineToken::new(InlineType::Code, Some(chars_to_string(&content)), None);
            proof {
                lemma_tokens_view_push(toks@, t);
                assert(t@ == tok_code(text@.subrange(i + 1, j as int)));
                assert(step_to(text@, i as int, j + 1) == j + 1);
                lemma_prepend_prepend(
                    tv0,
                    flushed(p0) + seq![t@],
                    lex_from(text@, links@, j + 1, Seq::empty()),
                );
                assert((tv0 + flushed(p0)).push(t@) =~= tv0 + (flushed(p0) + seq![t@]));
            }
            toks.push(t);
            j + 1
        },
        None => {
            pending.push('`');
            i + 1
        },
    }
}

/// Consumes a math span opened by the dollar sign at `i`; an empty span
/// yields no token, and an unterminated one silently drops the rest of the
/// input.
fn latex_step(
    text: &Vec<char>,
    links: &LinkTable,
    i: usize,
    toks: &mut Vec<InlineToken>,
    pending: &mut Vec<char>,
) -> (r: usize)
    requires
        i < text@.len(),
        text@[i as int] == '$',
    ensures
        i < r <= text@.len(),
        prepend_inlines(
            tokens_view(final(toks)@),
            lex_from(text@, links@, r as int, final(pending)@),
        ) == prepend_inlines(
            tokens_view(old(toks)@),
            lex_from(text@, links@, i as int, old(pending)@),
        ),
{
    let n = text.len();
    let ghost p0 = pending@;
    let ghost tv0 = tokens_view(toks@);
    flush_into(toks, pending);
    match find_char_at(text, i + 1, '$') {
        Some(p) => {
            proof {
                lemma_find_char(text@, i + 1, '$');
                assert(step_to(text@, i as int, p + 1) == p + 1);
            }
            if p == i + 1 {
                proof {
                    lemma_prepend_prepend(
                        tv0,
                        flushed(p0),
                        lex_from(text@, links@, p + 1, Seq::empty()),
                    );
                }
                p + 1
            } else {
                let content = slice_range(text, i + 1, p);
                let t = InlineToken::new(
                    InlineType::Latex,
                    Some(chars_to_string(&content)),
                    None,
                );
                proof {
                    lemma_tokens_view_push(toks@, t);
                    assert(t@ == tok_latex(text@.subrange(i + 1, p as int)));
                    lemma_prepend_prepend(
                        tv0,
                        flushed(p0) + seq![t@],
                        lex_from(text@, links@, p + 1, Seq::empty()),
                    );
                    assert((tv0 + flushed(p0)).push(t@) =~= tv0 + (flushed(p0) + seq![t@]));
                }
                toks.push(t);
                p + 1
            }
        },
        None => {
            proof {
                assert(tv0 + flushed(p0) + Seq::<InlineTok>::empty() =~= tv0 + flushed(p0));
            }
            n
        },
    }
}

/// Consumes a picture reference `![[path]]` at `i`, or the exclamation mark
/// as a literal when the form is not complete.
fn picture_step(
    text: &Vec<char>,
    links: &LinkTable,
    i: usize,
    toks: &mut Vec<InlineToken>,
    pending: &mut Vec<char>,
) -> (r: usize)
    requires
        i < text@.len(),
        text@[i as int] == '!',
    ensures
        i < r <= text@.len(),
        prepend_inlines(
            tokens_view(final(toks)@),
            lex_from(text@, links@, r as int, final(pending)@),
        ) == prepend_inlines(
            tokens_view(old(toks)@),
            lex_from(text@, links@, i as int, old(pending)@),
        ),
{
    let n = text.len();
    let ghost p0 = pending@;
    let ghost tv0 = tokens_view(toks@);
    if n - i > 2 && text[i + 1] == '[' && text[i + 2] == '[' {
        match find_pair_at(text, i + 3, ']', ']') {
            Some(j) => {
                proof {
                    lemma_find_pair(text@, i + 3, ']', ']');
                    assert(step_to(text@, i as int, j + 2) == j + 2);
                }
                flush_into(toks, pending);
                let path = slice_range(text, i + 3, j);
                let t = InlineToken::new(
                    InlineType::Picture,
                    Some(chars_to_string(&path)),
                    None,
                );
                proof {
                    lemma_tokens_view_push(toks@, t);
                    assert(t@ == tok_picture(text@.subrange(i + 3, j as int)));
                    lemma_prepend_prepend(
                        tv0,
                        flushed(p0) + seq![t@],
                        lex_from(text@, links@, j + 2, Seq::empty()),
                    );
                    assert((tv0 + flushed(p0)).push(t@) =~= tv0 + (flushed(p0) + seq![t@]));
                }
                toks.push(t);
                j + 2
            },
            None => {
                pending.push('!');
                i + 1
            },
        }
    } else {
        pending.push('!');
        i + 1
    }
}

/// Builds a `Url` token from its label and target texts.
fn make_url_token(label: Vec<char>, target: Vec<char>) -> (t: InlineToken)
    ensures
        t@ == tok_url(label@, target@),
{
    let child = InlineToken::new(InlineType::Text, Some(chars_to_string(&target)), None);
    let ghost cg = child@;
    let mut cv: Vec<InlineToken> = Vec::new();
    cv.push(child);
    proof {
        crate::token::lemma_tokens_view(cv@);
        assert(tokens_view(cv@) =~= seq![cg]);
    }
    InlineToken::new(InlineType::Url, Some(chars_to_string(&label)), Some(cv))
}

/// Handles the bracket dispatch for the `[` at `i`: a footnote reference, an
/// internal link resolved against the table, or an external reference; the
/// empty footnote identifier is the fatal error.
#[verifier::rlimit(80)]
fn bracket_step(
    text: &Vec<char>,
    links: &LinkTable,
    i: usize,
    toks: &mut Vec<InlineToken>,
    pending: &mut Vec<char>,
) -> (r: Result<usize, LexError>)
    requires
        i < text@.len(),
        text@[i as int] == '[',
    ensures
        match r {
            Ok(next) => i < next <= text@.len() && prepend_inlines(
                tokens_view(final(toks)@),
                lex_from(text@, links@, next as int, final(pending)@),
            ) == prepend_inlines(
                tokens_view(old(toks)@),
                lex_bracket(text@, links@, i as int, old(pending)@),
            ),
            Err(e) => lex_bracket(text@, links@, i as int, old(pending)@) == Err::<Seq<InlineTok>, LexError>(e),
        },
{
    let n = text.len();
    let ghost p0 = pending@;
    let ghost tv0 = tokens_view(toks@);
    flush_into(toks, pending);
    if i + 1 < text.len() && text[i + 1] == '^' {
        match find_char_at(text, i + 2, ']') {
            Some(j) => {
                proof {
                    lemma_find_char(text@, i + 2, ']');
                }
                if j == i + 2 {
                    return Err(LexError::EmptyFootnoteId);
                }
                let id = slice_range(text, i + 2, j);
                let t = InlineToken::new(
                    InlineType::FootNote,
                    Some(chars_to_string(&id)),
                    None,
                );
                proof {
                    lemma_tokens_view_push(toks@, t);
                    assert(t@ == tok_foot_note(text@.subrange(i + 2, j as int)));
                    assert(step_to(text@, i as int, j + 1) == j + 1);
                    lemma_prepend_prepend(
                        tv0,
                        flushed(p0) + seq![t@],
                        lex_from(text@, links@, j + 1, Seq::empty()),
                    );
                    assert((tv0 + flushed(p0)).push(t@) =~= tv0 + (flushed(p0) + seq![t@]));
                }
                toks.push(t);
                return Ok(j + 1);
            },
            None => {},
        }
    } else if i + 1 < text.len() && text[i + 1] == '[' {
        match find_pair_at(text, i + 2, ']', ']') {
            Some(j) => {
                proof {
                    lemma_find_pair(text@, i + 2, ']', ']');
                    assert(step_to(text@, i as int, j + 2) == j + 2);
                }
                let name = slice_range(text, i + 2, j);
                match links.lookup(&name) {
                    Some(url) => {
                        let mut target: String = "article/".to_owned();
                        target.append(chars_to_string(&url).as_str());
                        let child = InlineToken::new(InlineType::Text, Some(target), None);
                        let ghost cg = child@;
                        let mut cv: Vec<InlineToken> = Vec::new();
                        cv.push(child);
                        let t = InlineToken::new(
                            InlineType::Url,
                            Some(chars_to_string(&name)),
                            Some(cv),
                        );
                        proof {
                            crate::token::lemma_tokens_view(cv@);
                            assert(tokens_view(cv@) =~= seq![cg]);
                            lemma_tokens_view_push(toks@, t);
                            assert(t@ == tok_url(
                                text@.subrange(i + 2, j as int),
                                "article/"@ + lookup_link(links@, name@).unwrap(),
                            ));
                            lemma_prepend_prepend(
                                tv0,
                                flushed(p0) + seq![t@],
                                lex_from(text@, links@, j + 2, Seq::empty()),
                            );
                            assert((tv0 + flushed(p0)).push(t@) =~= tv0 + (flushed(p0)
                                + seq![t@]));
                        }
                        toks.push(t);
                        return Ok(j + 2);
                    },
                    None => {
                        *pending = name;
                        proof {
                            lemma_prepend_prepend(
                                tv0,
                                flushed(p0),
                                lex_from(text@, links@, j + 2, pending@),
                            );
                        }
                        return Ok(j + 2);
                    },
                }
            },
            None => {},
        }
    }
    // External reference: the interior up to the next `]` is the label.
    match find_char_at(text, i + 1, ']') {
        Some(e) => {
            proof {
                lemma_find_char(text@, i + 1, ']');
                assert(step_to(text@, i as int, e + 1) == e + 1);
            }
            if e == i + 1 {
                pending.push('[');
                pending.push(']');
                proof {
                    assert(pending@ =~= seq!['[', ']']);
                    lemma_prepend_prepend(
                        tv0,
                        flushed(p0),
                        lex_from(text@, links@, e + 1, pending@),
                    );
                }
                Ok(e + 1)
            } else {
                let label = slice_range(text, i + 1, e);
                let mut target: Vec<char> = Vec::new();
                let mut next: usize = e + 1;
                if e + 1 < text.len() && text[e + 1] == '(' {
                    match find_char_at(text, e + 2, ')') {
                        Some(p) => {
                            proof {
                                lemma_find_char(text@, e + 2, ')');
                            }
                            target = slice_range(text, e + 2, p);
                            next = p + 1;
                        },
                        None => {},
                    }
                }
                proof {
                    assert(target@ == url_parts(text@, e as int).0);
                    assert(next as int == url_parts(text@, e as int).1);
                    assert(step_to(text@, i as int, next as int) == next as int);
                }
                let t = make_url_token(label, target);
                proof {
                    lemma_tokens_view_push(toks@, t);
                    lemma_prepend_prepend(
                        tv0,
                        flushed(p0) + seq![t@],
                        lex_from(text@, links@, next as int, Seq::empty()),
                    );
                    assert((tv0 + flushed(p0)).push(t@) =~= tv0 + (flushed(p0) + seq![t@]));
                }
                toks.push(t);
                Ok(next)
            }
        },
        None => {
            pending.push('[');
            proof {
                assert(pending@ =~= seq!['[']);
                lemma_prepend_prepend(tv0, flushed(p0), lex_from(text@, links@, i + 1, pending@));
            }
            Ok(i + 1)
        },
    }
}

/// Lexes `text` from cursor `start` with initial pending buffer `pending0`,
/// producing the tokens `lex_from` defines, or the fatal error.
pub fn lex_inline(text: &Vec<char>, links: &LinkTable, start: usize, pending0: Vec<char>) -> (r:
    Result<Vec<InlineToken>, LexError>)
    ensures
        match r {
            Ok(v) => Ok::<Seq<InlineTok>, LexError>(tokens_view(v@)) == lex_from(
                text@,
                links@,
                start as int,
                pending0@,
            ),
            Err(e) => lex_from(text@, links@, start as int, pending0@) == Err::<
                Seq<InlineTok>,
                LexError,
            >(e),
        },
    decreases text@.len(), 1int,
{
    let n = text.len();
    let ghost goal = lex_from(text@, links@, start as int, pending0@);
    let mut toks: Vec<InlineToken> = Vec::new();
    let mut pending = pending0;
    if start >= n {
        flush_into(&mut toks, &mut pending);
        proof {
            assert(tokens_view(toks@) =~= Seq::<InlineTok>::empty() + flushed(pending0@));
            assert(Seq::<InlineTok>::empty() + flushed(pending0@) =~= flushed(pending0@));
        }
        return Ok(toks);
    }
    let mut i = start;
    proof {
        assert(tokens_view(toks@) =~= Seq::<InlineTok>::empty());
        assert(prepend_inlines(tokens_view(toks@), lex_from(text@, links@, i as int, pending@))
            == goal) by {
            match lex_from(text@, links@, i as int, pending@) {
                Ok(rest) => {
                    assert(Seq::<InlineTok>::empty() + rest =~= rest);
                },
                Err(_) => {},
            }
        }
    }
    while i < n
        invariant
            n == text@.len(),
            i <= n,
            goal == lex_from(text@, links@, start as int, pending0@),
            prepend_inlines(tokens_view(toks@), lex_from(text@, links@, i as int, pending@))
                == goal,
        decreases n - i,
    {
        let ghost p0 = pending@;
        let ghost tv0 = tokens_view(toks@);
        let c = text[i];
        if c == '*' {
            let mut lit = true;
            if n - i > 1 && text[i + 1] == '*' {
                match find_pair_at(text, i + 2, '*', '*') {
                    Some(j) => {
                        proof {
                            lemma_find_pair(text@, i + 2, '*', '*');
                            assert(span_to(i + 2, text@.len() as int, j as int) == j as int);
                            assert(step_to(text@, i as int, j + 2) == j + 2);
                        }
                        let sub = slice_range(text, i + 2, j);
                        match lex_inline(&sub, links, 0, Vec::new()) {
                            Err(e) => {
                                proof {
                                    assert(lex_all(text@.subrange(i + 2, j as int), links@)
                                        == Err::<Seq<InlineTok>, LexError>(e));
                                }
                                return Err(e);
                            },
                            Ok(children) => {
                                flush_into(&mut toks, &mut pending);
                                let t = InlineToken::new(
                                    InlineType::Bold,
                                    None,
                                    Some(children),
                                );
                                proof {
                                    lemma_tokens_view_push(toks@, t);
                                    lemma_prepend_prepend(
                                        tv0,
                                        flushed(p0) + seq![t@],
                                        lex_from(text@, links@, j + 2, Seq::empty()),
                                    );
                                    assert((tv0 + flushed(p0)).push(t@) =~= tv0 + (flushed(p0)
                                        + seq![t@]));
                                }
                                toks.push(t);
                                i = j + 2;
                                lit = false;
                            },
                        }
                    },
                    None => {},
                }
            }
            if lit {
                pending.push('*');
                i = i + 1;
            }
        } else if c == '`' {
            i = code_step(text, links, i, &mut toks, &mut pending);
        } else if c == '\\' {
            if n - i > 1 {
                pending.push(text[i + 1]);
                i = i + 2;
            } else {
                i = i + 1;
            }
        } else if c == '[' {
            match bracket_step(text, links, i, &mut toks, &mut pending) {
                Ok(next) => {
                    i = next;
                },
                Err(e) => {
                    return Err(e);
                },
            }
        } else if c == '$' {
            i = latex_step(text, links, i, &mut toks, &mut pending);
        } else if c == '!' {
            i = picture_step(text, links, i, &mut toks, &mut pending);
        } else {
            pending.push(c);
            i = i + 1;
        }
    }
    flush_into(&mut toks, &mut pending);
    proof {
        assert(goal == prepend_inlines(tokens_view(toks@), Ok(Seq::<InlineTok>::empty())));
        assert(tokens_view(toks@) + Seq::<InlineTok>::empty() =~= tokens_view(toks@));
    }
    Ok(toks)
}

/// The inline lexer state: the input characters, the cursor, the pending
/// literal buffer, the tokens emitted so far, and the link table consulted
/// for internal links.
pub struct InlineLexer {
    pub text: Vec<char>,
    pub temprary: Vec<char>,
    pub tokens: Vec<InlineToken>,
    pub index: usize,
    pub links: LinkTable,
}

impl InlineLexer {
    /// A fresh lexer over `text`: cursor at the start, nothing pending,
    /// nothing emitted.
    pub fn new(text: Vec<char>, links: LinkTable) -> (r: Self)
        ensures
            r.text@ == text@,
            r.links@ == links@,
            r.temprary@ == Seq::<char>::empty(),
            r.tokens@ == Seq::<InlineToken>::empty(),
            r.index == 0,
    {
        InlineLexer { text, temprary: Vec::new(), tokens: Vec::new(), index: 0, links }
    }

    /// Runs the lexer to the end of its input and hands the emitted tokens
    /// out, already-emitted tokens first; the lexer's buffers are drained.
    pub fn tokenize(&mut self) -> (r: Result<Vec<InlineToken>, LexError>)
        ensures
            match r {
                Ok(v) => Ok::<Seq<InlineTok>, LexError>(tokens_view(v@)) == prepend_inlines(
                    tokens_view(old(self).tokens@),
                    lex_from(
                        old(self).text@,
                        old(self).links@,
                        old(self).index as int,
                        old(self).temprary@,
                    ),
                ),
                Err(e) => lex_from(
                    old(self).text@,
                    old(self).links@,
                    old(self).index as int,
                    old(self).temprary@,
                ) == Err::<Seq<InlineTok>, LexError>(e),
            },
            final(self).text@ == old(self).text@,
            final(self).links@ == old(self).links@,
            final(self).index == old(self).index,
            final(self).temprary@ == Seq::<char>::empty(),
            final(self).tokens@.len() == 0,
    {
        let mut pending: Vec<char> = Vec::new();
        core::mem::swap(&mut pending, &mut self.temprary);
        let mut out: Vec<InlineToken> = Vec::new();
        core::mem::swap(&mut out, &mut self.tokens);
        match lex_inline(&self.text, &self.links, self.index, pending) {
            Err(e) => Err(e),
            Ok(mut rest) => {
                let ghost a = out@;
                let ghost b = rest@;
                out.append(&mut rest);
                proof {
                    lemma_tokens_view_concat(a, b);
                }
                Ok(out)
            },
        }
    }
}

} // verus!
