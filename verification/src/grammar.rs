//! The meaning of the parser, as functions on the input's UTF-8 bytes.
//!
//! Every function takes the input `s` and a `Cursor` (byte position and
//! line number) and returns an `Outcome` with the cursor that follows it.
//! `Outcome::CutsChar` marks the inputs on which the text between two
//! positions would have to be cut inside a multi-byte character; the parser
//! is not meant to be run on those inputs. `Outcome::Stuck` is what a loop
//! over statements, parameters, declarations or items would answer should a
//! step not move forward; `laws::law_never_stuck` shows that this never
//! happens.
use vstd::prelude::*;
use vstd::utf8::*;
use crate::text::{space_byte, ident_byte, char_expectation_message, trim_ws};

verus! {

/// A position in the input together with the current line number.
pub struct Cursor {
    pub pos: int,
    pub line: int,
}

/// A parse error: its message and the line it was reported at.
pub struct ErrorModel {
    pub msg: Seq<char>,
    pub line: int,
}

/// What a parsing step produces: a value, an error, a cut inside a
/// character, or (never, see `laws::law_never_stuck`) a step that does not
/// move forward.
pub enum Outcome<T> {
    Parsed(T),
    Failed(ErrorModel),
    CutsChar,
    Stuck,
}

/// Carries a failure over to another result type.
pub open spec fn failure<A, B>(o: Outcome<A>) -> Outcome<B> {
    match o {
        Outcome::Failed(e) => Outcome::Failed(e),
        Outcome::CutsChar => Outcome::CutsChar,
        _ => Outcome::Stuck,
    }
}

/// An error with message `msg` at the line of `c`.
pub open spec fn failed<T>(msg: Seq<char>, c: Cursor) -> Outcome<T> {
    Outcome::Failed(ErrorModel { msg, line: c.line })
}

/// `c` moved `n` bytes forward.
pub open spec fn moved(c: Cursor, n: int) -> Cursor {
    Cursor { pos: c.pos + n, line: c.line }
}

/// Whether the byte at `p` exists and is `b`.
pub open spec fn at_is(s: Seq<u8>, p: int, b: u8) -> bool {
    0 <= p < s.len() && s[p] == b
}

/// The byte at `p` read as a character, if there is one.
pub open spec fn peek_char(s: Seq<u8>, p: int) -> Option<char> {
    if 0 <= p < s.len() {
        Some(s[p] as char)
    } else {
        None
    }
}

/// Whether the two bytes at `p` are `a` and `b`.
pub open spec fn pair_at(s: Seq<u8>, p: int, a: u8, b: u8) -> bool {
    0 <= p && p + 1 < s.len() && s[p] == a && s[p + 1] == b
}

/// The characters encoded by the bytes from `a` to `b`.
pub open spec fn text(s: Seq<u8>, a: int, b: int) -> Seq<char> {
    decode_utf8(s.subrange(a, b))
}

/// The number of line feeds among the first `k` bytes.
pub open spec fn newlines(s: Seq<u8>, k: int) -> nat
    decreases k,
{
    if k <= 0 || s.len() < k {
        0
    } else {
        newlines(s, k - 1) + (if s[k - 1] == 10 { 1nat } else { 0nat })
    }
}

// ---------------------------------------------------------------- layout
/// The end of a line comment whose text starts at `q`: the next line feed
/// or the end of the input.
pub open spec fn line_comment_end(s: Seq<u8>, q: int) -> int
    decreases s.len() - q,
{
    if 0 <= q < s.len() && s[q] != 10 {
        line_comment_end(s, q + 1)
    } else {
        q
    }
}

/// The cursor after a block comment whose text starts at `c`: just past
/// the first `*/`, or on the last byte when there is none. Line feeds
/// before the `*/` are counted.
pub open spec fn block_comment_end(s: Seq<u8>, c: Cursor) -> Cursor
    decreases s.len() - c.pos,
{
    if 0 <= c.pos && c.pos + 1 < s.len() {
        let line = if s[c.pos] == 10 { c.line + 1 } else { c.line };
        if s[c.pos] == 42 && s[c.pos + 1] == 47 {
            Cursor { pos: c.pos + 2, line }
        } else {
            block_comment_end(s, Cursor { pos: c.pos + 1, line })
        }
    } else {
        c
    }
}

/// The cursor after the whitespace and comments at `c`.
pub open spec fn skip(s: Seq<u8>, c: Cursor) -> Cursor
    decreases s.len() - c.pos,
{
    if c.pos < 0 || c.pos >= s.len() {
        c
    } else {
        let b = s[c.pos];
        if b == 10 {
            skip(s, Cursor { pos: c.pos + 1, line: c.line + 1 })
        } else if space_byte(b) {
            skip(s, moved(c, 1))
        } else if b == 47 && c.pos + 1 < s.len() {
            if s[c.pos + 1] == 47 {
                proof {
                    lemma_line_comment_end(s, c.pos + 2);
                }
                skip(s, Cursor { pos: line_comment_end(s, c.pos + 2), line: c.line })
            } else if s[c.pos + 1] == 42 {
                proof {
                    lemma_block_comment_end(s, moved(c, 2));
                }
                skip(s, block_comment_end(s, moved(c, 2)))
            } else {
                c
            }
        } else {
            c
        }
    }
}

// ----------------------------------------------------------------- words
/// The end of the run of identifier bytes starting at `q`.
pub open spec fn ident_end(s: Seq<u8>, q: int) -> int
    decreases s.len() - q,
{
    if 0 <= q < s.len() && ident_byte(s[q]) {
        ident_end(s, q + 1)
    } else {
        q
    }
}

/// The byte length of the word at `p`: `::`, `->` or `=>`, else the run of
/// identifier bytes (possibly empty). `None` where the word's text would
/// start or end inside a character.
pub open spec fn peek_word(s: Seq<u8>, p: int) -> Option<int> {
    if !is_char_boundary(s, p) {
        None
    } else if pair_at(s, p, 58, 58) || pair_at(s, p, 45, 62) || pair_at(s, p, 61, 62) {
        Some(2)
    } else {
        let e = ident_end(s, p);
        if e > p && !is_char_boundary(s, e) {
            None
        } else {
            Some(e - p)
        }
    }
}

/// Whether the `n` bytes at `p` are the encoding of `kw`.
pub open spec fn word_is(s: Seq<u8>, p: int, n: int, kw: Seq<char>) -> bool {
    n == encode_utf8(kw).len() && s.subrange(p, p + n) == encode_utf8(kw)
}

/// The message of a failed word expectation.
pub open spec fn expected_word_msg(kw: Seq<char>, got: Seq<char>) -> Seq<char> {
    "expected '"@ + kw + "', got '"@ + got + "'"@
}

/// The message for an unknown top-level word.
pub open spec fn top_level_msg(got: Seq<char>) -> Seq<char> {
    "expected 'box' or 'impl', got '"@ + got + "'"@
}

/// An identifier after optional whitespace.
pub open spec fn expect_ident(s: Seq<u8>, c: Cursor) -> (Outcome<Seq<char>>, Cursor) {
    let c1 = skip(s, c);
    let e = ident_end(s, c1.pos);
    if e == c1.pos {
        (failed("expected identifier"@, c1), c1)
    } else if !is_char_boundary(s, c1.pos) || !is_char_boundary(s, e) {
        (Outcome::CutsChar, c1)
    } else {
        (Outcome::Parsed(text(s, c1.pos, e)), Cursor { pos: e, line: c1.line })
    }
}

/// The word `kw` after optional whitespace.
pub open spec fn expect_word(s: Seq<u8>, c: Cursor, kw: Seq<char>) -> (Outcome<()>, Cursor) {
    let c1 = skip(s, c);
    match peek_word(s, c1.pos) {
        None => (Outcome::CutsChar, c1),
        Some(n) => if word_is(s, c1.pos, n, kw) {
            (Outcome::Parsed(()), moved(c1, n))
        } else {
            (failed(expected_word_msg(kw, text(s, c1.pos, c1.pos + n)), c1), c1)
        },
    }
}

/// The byte `b` after optional whitespace.
pub open spec fn expect_char(s: Seq<u8>, c: Cursor, b: u8) -> (Outcome<()>, Cursor) {
    let c1 = skip(s, c);
    if at_is(s, c1.pos, b) {
        (Outcome::Parsed(()), moved(c1, 1))
    } else {
        (failed(char_expectation_message(b as char, peek_char(s, c1.pos)), c1), c1)
    }
}

/// Whether the word at `p` is `kw` (`None` where peeking cuts a character).
pub open spec fn peek_is(s: Seq<u8>, p: int, kw: Seq<char>) -> Option<bool> {
    match peek_word(s, p) {
        None => None,
        Some(n) => Some(word_is(s, p, n, kw)),
    }
}

// ----------------------------------------------------------------- types
/// A type name: `!`, `[T]`, `&[mut ]T`, `*[const |mut ]T` or an identifier.
pub open spec fn type_ref(s: Seq<u8>, c: Cursor) -> (Outcome<Seq<char>>, Cursor)
    decreases s.len() - c.pos,
{
    let c1 = skip(s, c);
    if at_is(s, c1.pos, 33) {
        (Outcome::Parsed("!"@), moved(c1, 1))
    } else if at_is(s, c1.pos, 91) {
        proof {
            lemma_skip(s, c);
        }
        match type_ref(s, moved(c1, 1)) {
            (Outcome::Parsed(t), c2) => match expect_char(s, c2, 93) {
                (Outcome::Parsed(_), c3) => (Outcome::Parsed("["@ + t + "]"@), c3),
                (o, c3) => (failure(o), c3),
            },
            (o, c2) => (o, c2),
        }
    } else if at_is(s, c1.pos, 38) || at_is(s, c1.pos, 42) {
        let amp = at_is(s, c1.pos, 38);
        proof {
            lemma_skip(s, c);
            lemma_skip(s, moved(c1, 1));
        }
        let c2 = skip(s, moved(c1, 1));
        match peek_word(s, c2.pos) {
            None => (Outcome::CutsChar, c2),
            Some(n) => {
                proof {
                    lemma_peek_word(s, c2.pos);
                }
                let is_mut = word_is(s, c2.pos, n, "mut"@);
                let is_const = !amp && word_is(s, c2.pos, n, "const"@);
                let c3 = if is_mut || is_const { moved(c2, n) } else { c2 };
                let prefix = if amp {
                    if is_mut { "&mut "@ } else { "&"@ }
                } else if is_const {
                    "*const "@
                } else if is_mut {
                    "*mut "@
                } else {
                    "*"@
                };
                match type_ref(s, c3) {
                    (Outcome::Parsed(t), c4) => (Outcome::Parsed(prefix + t), c4),
                    (o, c4) => (o, c4),
                }
            },
        }
    } else {
        expect_ident(s, c1)
    }
}

// --------------------------------------------------------------- strings
/// The rest of a string literal whose text starts at `start`; `q` is the
/// byte being looked at. A backslash escapes the byte after it.
pub open spec fn string_body(s: Seq<u8>, start: int, q: int, line: int) -> (
    Outcome<Seq<char>>,
    Cursor,
)
    decreases s.len() + 1 - q,
{
    if q >= s.len() {
        (failed("unterminated string literal"@, Cursor { pos: q, line }), Cursor { pos: q, line })
    } else if s[q] == 34 {
        (Outcome::Parsed(text(s, start, q)), Cursor { pos: q + 1, line })
    } else if s[q] == 92 {
        string_body(s, start, q + 2, line)
    } else {
        string_body(s, start, q + 1, line)
    }
}

/// A string literal after optional whitespace; its text is returned as
/// written, escapes included.
pub open spec fn string_literal(s: Seq<u8>, c: Cursor) -> (Outcome<Seq<char>>, Cursor) {
    let c1 = skip(s, c);
    if !at_is(s, c1.pos, 34) {
        (failed("expected string literal"@, c1), c1)
    } else {
        string_body(s, c1.pos + 1, c1.pos + 1, c1.line)
    }
}

// ----------------------------------------------------------------- paths
/// The `::IDENT` parts of a path after `acc`.
pub open spec fn path_rest(s: Seq<u8>, c: Cursor, acc: Seq<char>) -> (Outcome<Seq<char>>, Cursor)
    decreases s.len() - c.pos,
{
    let c1 = skip(s, c);
    match peek_word(s, c1.pos) {
        None => (Outcome::CutsChar, c1),
        Some(_) => if pair_at(s, c1.pos, 58, 58) {
            match expect_ident(s, moved(c1, 2)) {
                (Outcome::Parsed(id), c2) => if c.pos < c2.pos <= s.len() {
                    path_rest(s, c2, acc + "::"@ + id)
                } else {
                    (Outcome::Stuck, c2)
                },
                (o, c2) => (failure(o), c2),
            }
        } else {
            (Outcome::Parsed(acc), c1)
        },
    }
}

/// `IDENT(::IDENT)*`
pub open spec fn path(s: Seq<u8>, c: Cursor) -> (Outcome<Seq<char>>, Cursor) {
    match expect_ident(s, c) {
        (Outcome::Parsed(id), c1) => path_rest(s, c1, id),
        (o, c1) => (failure(o), c1),
    }
}

// ----------------------------------------------------------- expressions
/// Where an expression ending at `;`, `,` or a line feed ends: the first
/// such byte outside parentheses and braces, or the end of the input.
pub open spec fn semicolon_end(s: Seq<u8>, q: int, parens: int, braces: int) -> int
    decreases s.len() - q,
{
    if q < 0 || q >= s.len() {
        q
    } else {
        let b = s[q];
        if b == 40 {
            semicolon_end(s, q + 1, parens + 1, braces)
        } else if b == 41 {
            semicolon_end(s, q + 1, parens - 1, braces)
        } else if b == 123 {
            semicolon_end(s, q + 1, parens, braces + 1)
        } else if b == 125 {
            semicolon_end(s, q + 1, parens, braces - 1)
        } else if (b == 59 || b == 44 || b == 10) && parens == 0 && braces == 0 {
            q
        } else {
            semicolon_end(s, q + 1, parens, braces)
        }
    }
}

/// Where an expression ending at `=>` ends: the first `=>` outside
/// parentheses, or the end of the input.
pub open spec fn arrow_end(s: Seq<u8>, q: int, parens: int) -> int
    decreases s.len() - q,
{
    if q < 0 || q >= s.len() {
        q
    } else {
        let b = s[q];
        if b == 40 {
            arrow_end(s, q + 1, parens + 1)
        } else if b == 41 {
            arrow_end(s, q + 1, parens - 1)
        } else if b == 61 && parens == 0 && q + 1 < s.len() && s[q + 1] == 62 {
            q
        } else {
            arrow_end(s, q + 1, parens)
        }
    }
}

/// The first `{` at or after `q`, or the end of the input.
pub open spec fn brace_end(s: Seq<u8>, q: int) -> int
    decreases s.len() - q,
{
    if q < 0 || q >= s.len() || s[q] == 123 {
        q
    } else {
        brace_end(s, q + 1)
    }
}

/// The trimmed text from `c` to `e`, with the cursor moved to `e`.
pub open spec fn scanned(s: Seq<u8>, c: Cursor, e: int) -> (Outcome<Seq<char>>, Cursor) {
    if !is_char_boundary(s, c.pos) {
        (Outcome::CutsChar, Cursor { pos: e, line: c.line })
    } else {
        (Outcome::Parsed(trim_ws(text(s, c.pos, e))), Cursor { pos: e, line: c.line })
    }
}

pub open spec fn expr_until_semicolon(s: Seq<u8>, c: Cursor) -> (Outcome<Seq<char>>, Cursor) {
    scanned(s, c, semicolon_end(s, c.pos, 0, 0))
}

pub open spec fn expr_until_arrow(s: Seq<u8>, c: Cursor) -> (Outcome<Seq<char>>, Cursor) {
    scanned(s, c, arrow_end(s, c.pos, 0))
}

pub open spec fn expr_until_brace(s: Seq<u8>, c: Cursor) -> (Outcome<Seq<char>>, Cursor) {
    scanned(s, c, brace_end(s, c.pos))
}

// ------------------------------------------------------------ lemmas used
// by the definitions above to show that they terminate
pub proof fn lemma_line_comment_end(s: Seq<u8>, q: int)
    ensures
        line_comment_end(s, q) >= q,
        0 <= q <= s.len() ==> line_comment_end(s, q) <= s.len(),
    decreases s.len() - q,
{
    if 0 <= q < s.len() && s[q] != 10 {
        lemma_line_comment_end(s, q + 1);
    }
}

pub proof fn lemma_block_comment_end(s: Seq<u8>, c: Cursor)
    ensures
        block_comment_end(s, c).pos >= c.pos,
        block_comment_end(s, c).line >= c.line,
        0 <= c.pos <= s.len() ==> block_comment_end(s, c).pos <= s.len(),
    decreases s.len() - c.pos,
{
    if 0 <= c.pos && c.pos + 1 < s.len() {
        let line = if s[c.pos] == 10 { c.line + 1 } else { c.line };
        if !(s[c.pos] == 42 && s[c.pos + 1] == 47) {
            lemma_block_comment_end(s, Cursor { pos: c.pos + 1, line });
        }
    }
}

pub proof fn lemma_skip(s: Seq<u8>, c: Cursor)
    ensures
        skip(s, c).pos >= c.pos,
        skip(s, c).line >= c.line,
        c.pos <= s.len() ==> skip(s, c).pos <= s.len(),
        c.pos > s.len() ==> skip(s, c) == c,
        0 <= c.pos && skip(s, c).pos < s.len() ==> s[skip(s, c).pos] != 10 && !space_byte(
            s[skip(s, c).pos],
        ),
    decreases s.len() - c.pos,
{
    if c.pos < 0 || c.pos >= s.len() {
    } else {
        let b = s[c.pos];
        if b == 10 {
            lemma_skip(s, Cursor { pos: c.pos + 1, line: c.line + 1 });
        } else if space_byte(b) {
            lemma_skip(s, moved(c, 1));
        } else if b == 47 && c.pos + 1 < s.len() {
            if s[c.pos + 1] == 47 {
                lemma_line_comment_end(s, c.pos + 2);
                lemma_skip(s, Cursor { pos: line_comment_end(s, c.pos + 2), line: c.line });
            } else if s[c.pos + 1] == 42 {
                lemma_block_comment_end(s, moved(c, 2));
                lemma_skip(s, block_comment_end(s, moved(c, 2)));
            }
        }
    }
}

pub proof fn lemma_ident_end(s: Seq<u8>, q: int)
    ensures
        ident_end(s, q) >= q,
        0 <= q <= s.len() ==> ident_end(s, q) <= s.len(),
    decreases s.len() - q,
{
    if 0 <= q < s.len() && ident_byte(s[q]) {
        lemma_ident_end(s, q + 1);
    }
}

pub proof fn lemma_peek_word(s: Seq<u8>, p: int)
    ensures
        peek_word(s, p) matches Some(n) ==> n >= 0 && (0 <= p <= s.len() ==> p + n <= s.len()),
{
    lemma_ident_end(s, p);
}

} // verus!
