//! Parsing does not depend on what comes before the cursor: putting valid
//! UTF-8 text `w` in front of the input moves every position by the length
//! of `w`, and starting on another line moves every line, and changes
//! nothing else.
use vstd::prelude::*;
use vstd::utf8::*;
use crate::grammar::{
    Cursor, ErrorModel, Outcome, skip, moved, at_is, pair_at, peek_char, text, line_comment_end,
    block_comment_end, ident_end, peek_word, word_is, expect_ident, expect_word, expect_char,
    type_ref, string_body, string_literal, path_rest, path, semicolon_end, arrow_end, brace_end,
    scanned, lemma_skip, lemma_ident_end, lemma_peek_word, lemma_line_comment_end,
    lemma_block_comment_end,
};
use crate::rules::{
    param_type, params_loop, ret_type, signature, inst_decl, box_items, box_decl, block_loop,
    stmt, caso, caso_body, loop_stmt, for_stmt, let_stmt, let_type, let_value, retorna, ref_stmt,
    operand_end, asm_operands, asm_stmt, impl_decl, flow_steps, flow_decl, program_loop,
};
use crate::model::{BoxModel, ImplModel, FlowModel, ParamModel, InstModel, StmtModel};

verus! {

/// `c` moved `k` bytes forward and `d` lines down.
pub open spec fn sh(c: Cursor, k: int, d: int) -> Cursor {
    Cursor { pos: c.pos + k, line: c.line + d }
}

/// `o` with the line of an error moved `d` lines down.
pub open spec fn sh_out<T>(o: Outcome<T>, d: int) -> Outcome<T> {
    match o {
        Outcome::Failed(e) => Outcome::Failed(ErrorModel { msg: e.msg, line: e.line + d }),
        other => other,
    }
}

/// The outcome and cursor of a step moved `k` bytes forward and `d` lines
/// down.
pub open spec fn sh_res<T>(r: (Outcome<T>, Cursor), k: int, d: int) -> (Outcome<T>, Cursor) {
    (sh_out(r.0, d), sh(r.1, k, d))
}

/// Whether `w` and `s` are both valid UTF-8.
pub open spec fn valid_pair(w: Seq<u8>, s: Seq<u8>) -> bool {
    valid_utf8(w) && valid_utf8(s)
}

// ------------------------------------------------------------ bytes
pub proof fn lemma_sh_boundary(w: Seq<u8>, s: Seq<u8>, p: int)
    requires
        valid_pair(w, s),
        0 <= p <= s.len(),
    ensures
        is_char_boundary(w + s, p + w.len()) == is_char_boundary(s, p),
{
    let t = w + s;
    valid_utf8_concat(w, s);
    if p == s.len() {
        is_char_boundary_start_end_of_seq(t);
        is_char_boundary_start_end_of_seq(s);
    } else {
        is_char_boundary_iff_not_is_continuation_byte(t, p + w.len());
        is_char_boundary_iff_not_is_continuation_byte(s, p);
        assert(t[p + w.len()] == s[p]);
    }
}

pub proof fn lemma_sh_text(w: Seq<u8>, s: Seq<u8>, a: int, b: int)
    requires
        0 <= a <= b <= s.len(),
    ensures
        text(w + s, a + w.len(), b + w.len()) == text(s, a, b),
{
    assert((w + s).subrange(a + w.len(), b + w.len()) =~= s.subrange(a, b));
}

pub proof fn lemma_sh_line_comment(w: Seq<u8>, s: Seq<u8>, q: int)
    requires
        0 <= q <= s.len(),
    ensures
        line_comment_end(w + s, q + w.len()) == line_comment_end(s, q) + w.len(),
    decreases s.len() - q,
{
    if q < s.len() && s[q] != 10 {
        assert((w + s)[q + w.len()] == s[q]);
        lemma_sh_line_comment(w, s, q + 1);
    }
}

pub proof fn lemma_sh_block_comment(w: Seq<u8>, s: Seq<u8>, c: Cursor, d: int)
    requires
        0 <= c.pos <= s.len(),
    ensures
        block_comment_end(w + s, sh(c, w.len() as int, d)) == sh(
            block_comment_end(s, c),
            w.len() as int,
            d,
        ),
    decreases s.len() - c.pos,
{
    if c.pos + 1 < s.len() {
        assert((w + s)[c.pos + w.len()] == s[c.pos]);
        assert((w + s)[c.pos + 1 + w.len()] == s[c.pos + 1]);
        let line = if s[c.pos] == 10 {
            c.line + 1
        } else {
            c.line
        };
        if !(s[c.pos] == 42 && s[c.pos + 1] == 47) {
            lemma_sh_block_comment(w, s, Cursor { pos: c.pos + 1, line }, d);
        }
    }
}

pub proof fn lemma_sh_skip(w: Seq<u8>, s: Seq<u8>, c: Cursor, d: int)
    requires
        0 <= c.pos <= s.len(),
    ensures
        skip(w + s, sh(c, w.len() as int, d)) == sh(skip(s, c), w.len() as int, d),
    decreases s.len() - c.pos,
{
    let k = w.len() as int;
    if c.pos < s.len() {
        let b = s[c.pos];
        assert((w + s)[c.pos + k] == b);
        if b == 10 {
            lemma_sh_skip(w, s, Cursor { pos: c.pos + 1, line: c.line + 1 }, d);
        } else if crate::text::space_byte(b) {
            lemma_sh_skip(w, s, moved(c, 1), d);
        } else if b == 47 && c.pos + 1 < s.len() {
            assert((w + s)[c.pos + 1 + k] == s[c.pos + 1]);
            if s[c.pos + 1] == 47 {
                lemma_line_comment_end(s, c.pos + 2);
                lemma_sh_line_comment(w, s, c.pos + 2);
                lemma_sh_skip(w, s, Cursor { pos: line_comment_end(s, c.pos + 2), line: c.line }, d);
            } else if s[c.pos + 1] == 42 {
                lemma_block_comment_end(s, moved(c, 2));
                lemma_sh_block_comment(w, s, moved(c, 2), d);
                lemma_sh_skip(w, s, block_comment_end(s, moved(c, 2)), d);
            }
        }
    }
}

pub proof fn lemma_sh_ident_end(w: Seq<u8>, s: Seq<u8>, q: int)
    requires
        0 <= q <= s.len(),
    ensures
        ident_end(w + s, q + w.len()) == ident_end(s, q) + w.len(),
    decreases s.len() - q,
{
    if q < s.len() {
        assert((w + s)[q + w.len()] == s[q]);
        if crate::text::ident_byte(s[q]) {
            lemma_sh_ident_end(w, s, q + 1);
        }
    }
}

pub proof fn lemma_sh_peek_word(w: Seq<u8>, s: Seq<u8>, p: int)
    requires
        valid_pair(w, s),
        0 <= p <= s.len(),
    ensures
        peek_word(w + s, p + w.len()) == peek_word(s, p),
        peek_word(s, p) matches Some(n) ==> p + n <= s.len() && forall|kw: Seq<char>|
            word_is(w + s, p + w.len(), n, kw) == #[trigger] word_is(s, p, n, kw),
{
    let k = w.len() as int;
    lemma_sh_boundary(w, s, p);
    lemma_sh_ident_end(w, s, p);
    lemma_ident_end(s, p);
    lemma_sh_boundary(w, s, ident_end(s, p));
    lemma_peek_word(s, p);
    if p + 1 < s.len() {
        assert((w + s)[p + k] == s[p]);
        assert((w + s)[p + 1 + k] == s[p + 1]);
    }
    assert(pair_at(w + s, p + k, 58, 58) == pair_at(s, p, 58, 58));
    assert(pair_at(w + s, p + k, 45, 62) == pair_at(s, p, 45, 62));
    assert(pair_at(w + s, p + k, 61, 62) == pair_at(s, p, 61, 62));
    match peek_word(s, p) {
        Some(n) => {
            assert((w + s).subrange(p + k, p + k + n) =~= s.subrange(p, p + n));
        },
        None => {},
    }
}

// ------------------------------------------------------------ expectations
pub proof fn lemma_sh_expect_ident(w: Seq<u8>, s: Seq<u8>, c: Cursor, d: int)
    requires
        valid_pair(w, s),
        0 <= c.pos <= s.len(),
    ensures
        expect_ident(w + s, sh(c, w.len() as int, d)) == sh_res(
            expect_ident(s, c),
            w.len() as int,
            d,
        ),
{
    lemma_skip(s, c);
    lemma_sh_skip(w, s, c, d);
    let c1 = skip(s, c);
    lemma_sh_ident_end(w, s, c1.pos);
    lemma_ident_end(s, c1.pos);
    let e = ident_end(s, c1.pos);
    lemma_sh_boundary(w, s, c1.pos);
    lemma_sh_boundary(w, s, e);
    lemma_sh_text(w, s, c1.pos, e);
}

pub proof fn lemma_sh_expect_word(w: Seq<u8>, s: Seq<u8>, c: Cursor, d: int, kw: Seq<char>)
    requires
        valid_pair(w, s),
        0 <= c.pos <= s.len(),
    ensures
        expect_word(w + s, sh(c, w.len() as int, d), kw) == sh_res(
            expect_word(s, c, kw),
            w.len() as int,
            d,
        ),
{
    lemma_skip(s, c);
    lemma_sh_skip(w, s, c, d);
    let c1 = skip(s, c);
    lemma_sh_peek_word(w, s, c1.pos);
    lemma_peek_word(s, c1.pos);
    match peek_word(s, c1.pos) {
        Some(n) => {
            assert(word_is(w + s, c1.pos + w.len(), n, kw) == word_is(s, c1.pos, n, kw));
            lemma_sh_text(w, s, c1.pos, c1.pos + n);
        },
        None => {},
    }
}

pub proof fn lemma_sh_expect_char(w: Seq<u8>, s: Seq<u8>, c: Cursor, d: int, b: u8)
    requires
        0 <= c.pos <= s.len(),
    ensures
        expect_char(w + s, sh(c, w.len() as int, d), b) == sh_res(
            expect_char(s, c, b),
            w.len() as int,
            d,
        ),
{
    lemma_skip(s, c);
    lemma_sh_skip(w, s, c, d);
    let c1 = skip(s, c);
    if c1.pos < s.len() {
        assert((w + s)[c1.pos + w.len()] == s[c1.pos]);
    }
    assert(peek_char(w + s, c1.pos + w.len()) == peek_char(s, c1.pos));
}

// ------------------------------------------------------------ types, strings, paths
pub proof fn lemma_sh_type_ref(w: Seq<u8>, s: Seq<u8>, c: Cursor, d: int)
    requires
        valid_pair(w, s),
        0 <= c.pos <= s.len(),
    ensures
        type_ref(w + s, sh(c, w.len() as int, d)) == sh_res(type_ref(s, c), w.len() as int, d),
    decreases s.len() - c.pos,
{
    let k = w.len() as int;
    lemma_skip(s, c);
    lemma_sh_skip(w, s, c, d);
    let c1 = skip(s, c);
    if c1.pos < s.len() {
        assert((w + s)[c1.pos + k] == s[c1.pos]);
    }
    if at_is(s, c1.pos, 33) {
    } else if at_is(s, c1.pos, 91) {
        lemma_sh_type_ref(w, s, moved(c1, 1), d);
        let c2 = type_ref(s, moved(c1, 1)).1;
        crate::progress::lemma_type_ref(s, moved(c1, 1));
        if type_ref(s, moved(c1, 1)).0 is Parsed {
            lemma_sh_expect_char(w, s, c2, d, 93);
        }
    } else if at_is(s, c1.pos, 38) || at_is(s, c1.pos, 42) {
        let amp = at_is(s, c1.pos, 38);
        lemma_skip(s, moved(c1, 1));
        lemma_sh_skip(w, s, moved(c1, 1), d);
        let c2 = skip(s, moved(c1, 1));
        lemma_sh_peek_word(w, s, c2.pos);
        lemma_peek_word(s, c2.pos);
        match peek_word(s, c2.pos) {
            None => {},
            Some(n) => {
                assert(word_is(w + s, c2.pos + k, n, "mut"@) == word_is(s, c2.pos, n, "mut"@));
                assert(word_is(w + s, c2.pos + k, n, "const"@) == word_is(s, c2.pos, n, "const"@));
                let is_mut = word_is(s, c2.pos, n, "mut"@);
                let is_const = !amp && word_is(s, c2.pos, n, "const"@);
                let c3 = if is_mut || is_const {
                    moved(c2, n)
                } else {
                    c2
                };
                lemma_sh_type_ref(w, s, c3, d);
            },
        }
    } else {
        lemma_sh_expect_ident(w, s, c1, d);
    }
}

pub proof fn lemma_sh_string_body(w: Seq<u8>, s: Seq<u8>, start: int, q: int, line: int, d: int)
    requires
        0 <= start <= q,
    ensures
        string_body(w + s, start + w.len(), q + w.len(), line + d) == sh_res(
            string_body(s, start, q, line),
            w.len() as int,
            d,
        ),
    decreases s.len() + 1 - q,
{
    let k = w.len() as int;
    if q < s.len() {
        assert((w + s)[q + k] == s[q]);
        if s[q] == 34 {
            lemma_sh_text(w, s, start, q);
        } else if s[q] == 92 {
            lemma_sh_string_body(w, s, start, q + 2, line, d);
        } else {
            lemma_sh_string_body(w, s, start, q + 1, line, d);
        }
    }
}

pub proof fn lemma_sh_string_literal(w: Seq<u8>, s: Seq<u8>, c: Cursor, d: int)
    requires
        0 <= c.pos <= s.len(),
    ensures
        string_literal(w + s, sh(c, w.len() as int, d)) == sh_res(
            string_literal(s, c),
            w.len() as int,
            d,
        ),
{
    lemma_skip(s, c);
    lemma_sh_skip(w, s, c, d);
    let c1 = skip(s, c);
    if c1.pos < s.len() {
        assert((w + s)[c1.pos + w.len()] == s[c1.pos]);
    }
    if at_is(s, c1.pos, 34) {
        lemma_sh_string_body(w, s, c1.pos + 1, c1.pos + 1, c1.line, d);
    }
}

pub proof fn lemma_sh_path_rest(w: Seq<u8>, s: Seq<u8>, c: Cursor, d: int, acc: Seq<char>)
    requires
        valid_pair(w, s),
        0 <= c.pos <= s.len(),
    ensures
        path_rest(w + s, sh(c, w.len() as int, d), acc) == sh_res(
            path_rest(s, c, acc),
            w.len() as int,
            d,
        ),
    decreases s.len() - c.pos,
{
    let k = w.len() as int;
    lemma_skip(s, c);
    lemma_sh_skip(w, s, c, d);
    let c1 = skip(s, c);
    lemma_sh_peek_word(w, s, c1.pos);
    if c1.pos + 1 < s.len() {
        assert((w + s)[c1.pos + k] == s[c1.pos]);
        assert((w + s)[c1.pos + 1 + k] == s[c1.pos + 1]);
    }
    if peek_word(s, c1.pos) is Some && pair_at(s, c1.pos, 58, 58) {
        lemma_sh_expect_ident(w, s, moved(c1, 2), d);
        crate::progress::lemma_expect_ident(s, moved(c1, 2));
        match expect_ident(s, moved(c1, 2)) {
            (Outcome::Parsed(id), c2) => {
                lemma_sh_path_rest(w, s, c2, d, acc + "::"@ + id);
            },
            _ => {},
        }
    }
}

pub proof fn lemma_sh_path(w: Seq<u8>, s: Seq<u8>, c: Cursor, d: int)
    requires
        valid_pair(w, s),
        0 <= c.pos <= s.len(),
    ensures
        path(w + s, sh(c, w.len() as int, d)) == sh_res(path(s, c), w.len() as int, d),
{
    lemma_sh_expect_ident(w, s, c, d);
    crate::progress::lemma_expect_ident(s, c);
    match expect_ident(s, c) {
        (Outcome::Parsed(id), c1) => {
            lemma_sh_path_rest(w, s, c1, d, id);
        },
        _ => {},
    }
}

// ------------------------------------------------------------ scanners
pub proof fn lemma_sh_semicolon_end(w: Seq<u8>, s: Seq<u8>, q: int, parens: int, braces: int)
    requires
        0 <= q <= s.len(),
    ensures
        semicolon_end(w + s, q + w.len(), parens, braces) == semicolon_end(s, q, parens, braces)
            + w.len(),
    decreases s.len() - q,
{
    if q < s.len() {
        assert((w + s)[q + w.len()] == s[q]);
        let b = s[q];
        if b == 40 {
            lemma_sh_semicolon_end(w, s, q + 1, parens + 1, braces);
        } else if b == 41 {
            lemma_sh_semicolon_end(w, s, q + 1, parens - 1, braces);
        } else if b == 123 {
            lemma_sh_semicolon_end(w, s, q + 1, parens, braces + 1);
        } else if b == 125 {
            lemma_sh_semicolon_end(w, s, q + 1, parens, braces - 1);
        } else if (b == 59 || b == 44 || b == 10) && parens == 0 && braces == 0 {
        } else {
            lemma_sh_semicolon_end(w, s, q + 1, parens, braces);
        }
    }
}

pub proof fn lemma_sh_arrow_end(w: Seq<u8>, s: Seq<u8>, q: int, parens: int)
    requires
        0 <= q <= s.len(),
    ensures
        arrow_end(w + s, q + w.len(), parens) == arrow_end(s, q, parens) + w.len(),
    decreases s.len() - q,
{
    if q < s.len() {
        assert((w + s)[q + w.len()] == s[q]);
        if q + 1 < s.len() {
            assert((w + s)[q + 1 + w.len()] == s[q + 1]);
        }
        let b = s[q];
        if b == 40 {
            lemma_sh_arrow_end(w, s, q + 1, parens + 1);
        } else if b == 41 {
            lemma_sh_arrow_end(w, s, q + 1, parens - 1);
        } else if b == 61 && parens == 0 && q + 1 < s.len() && s[q + 1] == 62 {
        } else {
            lemma_sh_arrow_end(w, s, q + 1, parens);
        }
    }
}

pub proof fn lemma_sh_brace_end(w: Seq<u8>, s: Seq<u8>, q: int)
    requires
        0 <= q <= s.len(),
    ensures
        brace_end(w + s, q + w.len()) == brace_end(s, q) + w.len(),
    decreases s.len() - q,
{
    if q < s.len() {
        assert((w + s)[q + w.len()] == s[q]);
        if s[q] != 123 {
            lemma_sh_brace_end(w, s, q + 1);
        }
    }
}

pub proof fn lemma_sh_scanned(w: Seq<u8>, s: Seq<u8>, c: Cursor, d: int, e: int)
    requires
        valid_pair(w, s),
        0 <= c.pos <= e <= s.len(),
    ensures
        scanned(w + s, sh(c, w.len() as int, d), e + w.len()) == sh_res(
            scanned(s, c, e),
            w.len() as int,
            d,
        ),
{
    lemma_sh_boundary(w, s, c.pos);
    lemma_sh_text(w, s, c.pos, e);
}

pub proof fn lemma_sh_expr_until_semicolon(w: Seq<u8>, s: Seq<u8>, c: Cursor, d: int)
    requires
        valid_pair(w, s),
        0 <= c.pos <= s.len(),
    ensures
        crate::grammar::expr_until_semicolon(w + s, sh(c, w.len() as int, d)) == sh_res(
            crate::grammar::expr_until_semicolon(s, c),
            w.len() as int,
            d,
        ),
{
    lemma_sh_semicolon_end(w, s, c.pos, 0, 0);
    crate::progress::lemma_semicolon_end(s, c.pos, 0, 0);
    lemma_sh_scanned(w, s, c, d, semicolon_end(s, c.pos, 0, 0));
}

pub proof fn lemma_sh_expr_until_arrow(w: Seq<u8>, s: Seq<u8>, c: Cursor, d: int)
    requires
        valid_pair(w, s),
        0 <= c.pos <= s.len(),
    ensures
        crate::grammar::expr_until_arrow(w + s, sh(c, w.len() as int, d)) == sh_res(
            crate::grammar::expr_until_arrow(s, c),
            w.len() as int,
            d,
        ),
{
    lemma_sh_arrow_end(w, s, c.pos, 0);
    crate::progress::lemma_arrow_end(s, c.pos, 0);
    lemma_sh_scanned(w, s, c, d, arrow_end(s, c.pos, 0));
}

pub proof fn lemma_sh_expr_until_brace(w: Seq<u8>, s: Seq<u8>, c: Cursor, d: int)
    requires
        valid_pair(w, s),
        0 <= c.pos <= s.len(),
    ensures
        crate::grammar::expr_until_brace(w + s, sh(c, w.len() as int, d)) == sh_res(
            crate::grammar::expr_until_brace(s, c),
            w.len() as int,
            d,
        ),
{
    lemma_sh_brace_end(w, s, c.pos);
    crate::progress::lemma_brace_end(s, c.pos);
    lemma_sh_scanned(w, s, c, d, brace_end(s, c.pos));
}

// ------------------------------------------------------------ signatures and boxes
pub proof fn lemma_sh_param_type(w: Seq<u8>, s: Seq<u8>, c: Cursor, d: int)
    requires
        valid_pair(w, s),
        0 <= c.pos <= s.len(),
    ensures
        param_type(w + s, sh(c, w.len() as int, d)) == sh_res(param_type(s, c), w.len() as int, d),
{
    lemma_skip(s, c);
    lemma_sh_skip(w, s, c, d);
    let c1 = skip(s, c);
    if c1.pos < s.len() {
        assert((w + s)[c1.pos + w.len()] == s[c1.pos]);
    }
    if at_is(s, c1.pos, 58) {
        lemma_sh_type_ref(w, s, moved(c1, 1), d);
    }
}

#[verifier::spinoff_prover]
#[verifier::rlimit(40)]
pub proof fn lemma_sh_params_loop(
    w: Seq<u8>,
    s: Seq<u8>,
    c: Cursor,
    d: int,
    acc: Seq<ParamModel>,
)
    requires
        valid_pair(w, s),
        0 <= c.pos <= s.len(),
    ensures
        params_loop(w + s, sh(c, w.len() as int, d), acc) == sh_res(
            params_loop(s, c, acc),
            w.len() as int,
            d,
        ),
    decreases s.len() - c.pos,
{
    let k = w.len() as int;
    lemma_skip(s, c);
    lemma_sh_skip(w, s, c, d);
    let c1 = skip(s, c);
    if c1.pos < s.len() {
        assert((w + s)[c1.pos + k] == s[c1.pos]);
    }
    if !at_is(s, c1.pos, 41) {
        lemma_sh_expect_char(w, s, c1, d, 44);
        crate::progress::lemma_expect_char(s, c1, 44);
        let cc = expect_char(s, c1, 44).1;
        if expect_char(s, c1, 44).0 is Parsed {
            lemma_skip(s, cc);
            lemma_sh_skip(w, s, cc, d);
        }
        let (o2, c2) = if acc.len() > 0 {
            match expect_char(s, c1, 44) {
                (Outcome::Parsed(_), cc) => (Outcome::Parsed(()), skip(s, cc)),
                (o, cc) => (o, cc),
            }
        } else {
            (Outcome::Parsed(()), c1)
        };
        if o2 is Parsed {
            if c2.pos < s.len() {
                assert((w + s)[c2.pos + k] == s[c2.pos]);
            }
            if !at_is(s, c2.pos, 41) {
                lemma_sh_expect_ident(w, s, c2, d);
                crate::progress::lemma_expect_ident(s, c2);
                match expect_ident(s, c2) {
                    (Outcome::Parsed(name), c3) => {
                        lemma_sh_param_type(w, s, c3, d);
                        crate::progress::lemma_param_type(s, c3);
                        match param_type(s, c3) {
                            (Outcome::Parsed(ty), c5) => {
                                lemma_sh_params_loop(w, s, c5, d, acc.push(ParamModel { name, ty }));
                            },
                            _ => {},
                        }
                    },
                    _ => {},
                }
            }
        }
    }
}

pub proof fn lemma_sh_ret_type(w: Seq<u8>, s: Seq<u8>, c: Cursor, d: int)
    requires
        valid_pair(w, s),
        0 <= c.pos <= s.len(),
    ensures
        ret_type(w + s, sh(c, w.len() as int, d)) == sh_res(ret_type(s, c), w.len() as int, d),
{
    let k = w.len() as int;
    lemma_skip(s, c);
    lemma_sh_skip(w, s, c, d);
    let c1 = skip(s, c);
    lemma_sh_peek_word(w, s, c1.pos);
    if c1.pos + 1 < s.len() {
        assert((w + s)[c1.pos + k] == s[c1.pos]);
        assert((w + s)[c1.pos + 1 + k] == s[c1.pos + 1]);
    }
    if pair_at(s, c1.pos, 45, 62) {
        lemma_sh_type_ref(w, s, moved(c1, 2), d);
    }
}

pub proof fn lemma_sh_signature(w: Seq<u8>, s: Seq<u8>, c: Cursor, d: int)
    requires
        valid_pair(w, s),
        0 <= c.pos <= s.len(),
    ensures
        signature(w + s, sh(c, w.len() as int, d)) == sh_res(signature(s, c), w.len() as int, d),
{
    lemma_sh_expect_char(w, s, c, d, 40);
    crate::progress::lemma_expect_char(s, c, 40);
    let c1 = expect_char(s, c, 40).1;
    if expect_char(s, c, 40).0 is Parsed {
        lemma_sh_params_loop(w, s, c1, d, Seq::empty());
        crate::progress::lemma_params_loop(s, c1, Seq::empty());
        let c2 = params_loop(s, c1, Seq::empty()).1;
        if params_loop(s, c1, Seq::empty()).0 is Parsed {
            lemma_sh_expect_char(w, s, c2, d, 41);
            crate::progress::lemma_expect_char(s, c2, 41);
            let c3 = expect_char(s, c2, 41).1;
            if expect_char(s, c2, 41).0 is Parsed {
                lemma_sh_ret_type(w, s, c3, d);
            }
        }
    }
}

pub proof fn lemma_sh_inst_decl(w: Seq<u8>, s: Seq<u8>, c: Cursor, d: int)
    requires
        valid_pair(w, s),
        0 <= c.pos <= s.len(),
    ensures
        inst_decl(w + s, sh(c, w.len() as int, d)) == sh_res(inst_decl(s, c), w.len() as int, d),
{
    reveal(inst_decl);
    lemma_sh_expect_word(w, s, c, d, "inst"@);
    crate::progress::lemma_expect_word(s, c, "inst"@);
    let c1 = expect_word(s, c, "inst"@).1;
    if expect_word(s, c, "inst"@).0 is Parsed {
        lemma_sh_expect_ident(w, s, c1, d);
        crate::progress::lemma_expect_ident(s, c1);
        let c2 = expect_ident(s, c1).1;
        if expect_ident(s, c1).0 is Parsed {
            lemma_sh_signature(w, s, c2, d);
        }
    }
}

pub proof fn lemma_sh_box_items(w: Seq<u8>, s: Seq<u8>, c: Cursor, d: int, acc: Seq<InstModel>)
    requires
        valid_pair(w, s),
        0 <= c.pos <= s.len(),
    ensures
        box_items(w + s, sh(c, w.len() as int, d), acc) == sh_res(
            box_items(s, c, acc),
            w.len() as int,
            d,
        ),
    decreases s.len() - c.pos,
{
    lemma_skip(s, c);
    lemma_sh_skip(w, s, c, d);
    let c1 = skip(s, c);
    if c1.pos < s.len() {
        assert((w + s)[c1.pos + w.len()] == s[c1.pos]);
    }
    if !at_is(s, c1.pos, 125) {
        lemma_sh_inst_decl(w, s, c1, d);
        crate::progress::lemma_inst_decl(s, c1);
        match inst_decl(s, c1) {
            (Outcome::Parsed(x), c2) => {
                lemma_sh_box_items(w, s, c2, d, acc.push(x));
            },
            _ => {},
        }
    }
}

pub proof fn lemma_sh_box_decl(w: Seq<u8>, s: Seq<u8>, c: Cursor, d: int)
    requires
        valid_pair(w, s),
        0 <= c.pos <= s.len(),
    ensures
        box_decl(w + s, sh(c, w.len() as int, d)) == sh_res(box_decl(s, c), w.len() as int, d),
{
    lemma_sh_expect_word(w, s, c, d, "box"@);
    crate::progress::lemma_expect_word(s, c, "box"@);
    let c1 = expect_word(s, c, "box"@).1;
    if expect_word(s, c, "box"@).0 is Parsed {
        lemma_sh_expect_ident(w, s, c1, d);
        crate::progress::lemma_expect_ident(s, c1);
        let c2 = expect_ident(s, c1).1;
        if expect_ident(s, c1).0 is Parsed {
            lemma_sh_expect_char(w, s, c2, d, 123);
            crate::progress::lemma_expect_char(s, c2, 123);
            let c3 = expect_char(s, c2, 123).1;
            if expect_char(s, c2, 123).0 is Parsed {
                lemma_sh_box_items(w, s, c3, d, Seq::empty());
            }
        }
    }
}

// ------------------------------------------------------------ statements
#[verifier::spinoff_prover]
#[verifier::rlimit(40)]
pub proof fn lemma_sh_block_loop(
    w: Seq<u8>,
    s: Seq<u8>,
    c: Cursor,
    d: int,
    end: u8,
    acc: Seq<StmtModel>,
)
    requires
        valid_pair(w, s),
        0 <= c.pos <= s.len(),
    ensures
        block_loop(w + s, sh(c, w.len() as int, d), end, acc) == sh_res(
            block_loop(s, c, end, acc),
            w.len() as int,
            d,
        ),
    decreases s.len() - c.pos, 4int,
{
    let k = w.len() as int;
    let t = w + s;
    lemma_skip(s, c);
    lemma_sh_skip(w, s, c, d);
    let c1 = skip(s, c);
    assert(skip(t, sh(c, k, d)) == sh(c1, k, d));
    if c1.pos < s.len() {
        assert(t[c1.pos + k] == s[c1.pos]);
        if s[c1.pos] != end {
            lemma_sh_stmt(w, s, c1, d);
            crate::progress::lemma_stmt(s, c1);
            let r = stmt(s, c1);
            assert(stmt(t, sh(c1, k, d)) == sh_res(r, k, d));
            if r.0 is Parsed {
                let st = r.0->Parsed_0;
                let c2 = r.1;
                if c2.pos < s.len() {
                    assert(t[c2.pos + k] == s[c2.pos]);
                }
                assert(at_is(t, c2.pos + k, 44) == at_is(s, c2.pos, 44));
                assert(at_is(t, c2.pos + k, 59) == at_is(s, c2.pos, 59));
                let c3 = if at_is(s, c2.pos, 44) || at_is(s, c2.pos, 59) {
                    moved(c2, 1)
                } else {
                    c2
                };
                if c.pos < c3.pos <= s.len() {
                    lemma_sh_block_loop(w, s, c3, d, end, acc.push(st));
                }
            }
        }
    }
}

#[verifier::spinoff_prover]
#[verifier::rlimit(40)]
pub proof fn lemma_sh_stmt(w: Seq<u8>, s: Seq<u8>, c: Cursor, d: int)
    requires
        valid_pair(w, s),
        0 <= c.pos <= s.len(),
    ensures
        stmt(w + s, sh(c, w.len() as int, d)) == sh_res(stmt(s, c), w.len() as int, d),
    decreases s.len() - c.pos, 3int,
{
    let k = w.len() as int;
    lemma_skip(s, c);
    lemma_sh_skip(w, s, c, d);
    let c1 = skip(s, c);
    if c1.pos < s.len() {
        assert((w + s)[c1.pos + k] == s[c1.pos]);
    }
    if at_is(s, c1.pos, 123) {
        lemma_sh_block_loop(w, s, moved(c1, 1), d, 125, Seq::empty());
    } else {
        lemma_sh_peek_word(w, s, c1.pos);
        match peek_word(s, c1.pos) {
            None => {},
            Some(n) => {
                assert(word_is(w + s, c1.pos + k, n, "let"@) == word_is(s, c1.pos, n, "let"@));
                assert(word_is(w + s, c1.pos + k, n, "caso"@) == word_is(s, c1.pos, n, "caso"@));
                assert(word_is(w + s, c1.pos + k, n, "retorna"@) == word_is(
                    s,
                    c1.pos,
                    n,
                    "retorna"@,
                ));
                assert(word_is(w + s, c1.pos + k, n, "asm"@) == word_is(s, c1.pos, n, "asm"@));
                assert(word_is(w + s, c1.pos + k, n, "loop"@) == word_is(s, c1.pos, n, "loop"@));
                assert(word_is(w + s, c1.pos + k, n, "for"@) == word_is(s, c1.pos, n, "for"@));
                assert(word_is(w + s, c1.pos + k, n, "ref"@) == word_is(s, c1.pos, n, "ref"@));
                if word_is(s, c1.pos, n, "let"@) {
                    lemma_sh_let_stmt(w, s, c1, d);
                } else if word_is(s, c1.pos, n, "caso"@) {
                    lemma_sh_caso(w, s, c1, d);
                } else if word_is(s, c1.pos, n, "retorna"@) {
                    lemma_sh_retorna(w, s, c1, d);
                } else if word_is(s, c1.pos, n, "asm"@) {
                    lemma_sh_asm_stmt(w, s, c1, d);
                } else if word_is(s, c1.pos, n, "loop"@) {
                    lemma_sh_loop_stmt(w, s, c1, d);
                } else if word_is(s, c1.pos, n, "for"@) {
                    lemma_sh_for_stmt(w, s, c1, d);
                } else if word_is(s, c1.pos, n, "ref"@) {
                    lemma_sh_ref_stmt(w, s, c1, d);
                } else {
                    lemma_sh_expr_until_semicolon(w, s, c1, d);
                }
            },
        }
    }
}

#[verifier::spinoff_prover]
#[verifier::rlimit(40)]
pub proof fn lemma_sh_caso(w: Seq<u8>, s: Seq<u8>, c: Cursor, d: int)
    requires
        valid_pair(w, s),
        0 <= c.pos <= s.len(),
    ensures
        caso(w + s, sh(c, w.len() as int, d)) == sh_res(caso(s, c), w.len() as int, d),
    decreases s.len() - c.pos, 2int,
{
    let k = w.len() as int;
    lemma_sh_expect_word(w, s, c, d, "caso"@);
    crate::progress::lemma_expect_word(s, c, "caso"@);
    let c1 = expect_word(s, c, "caso"@).1;
    if expect_word(s, c, "caso"@).0 is Parsed {
        lemma_skip(s, c1);
        lemma_sh_skip(w, s, c1, d);
        let c2 = skip(s, c1);
        lemma_sh_peek_word(w, s, c2.pos);
        lemma_peek_word(s, c2.pos);
        match peek_word(s, c2.pos) {
            None => {},
            Some(n) => {
                assert(word_is(w + s, c2.pos + k, n, "else"@) == word_is(s, c2.pos, n, "else"@));
                if word_is(s, c2.pos, n, "else"@) {
                    lemma_sh_expect_word(w, s, moved(c2, n), d, "=>"@);
                    crate::progress::lemma_expect_word(s, moved(c2, n), "=>"@);
                    let c3 = expect_word(s, moved(c2, n), "=>"@).1;
                    if expect_word(s, moved(c2, n), "=>"@).0 is Parsed && c.pos < c3.pos {
                        lemma_sh_caso_body(w, s, c3, d);
                    }
                } else {
                    lemma_sh_expr_until_arrow(w, s, c2, d);
                    crate::progress::lemma_arrow_end(s, c2.pos, 0);
                    let c3 = crate::grammar::expr_until_arrow(s, c2).1;
                    if crate::grammar::expr_until_arrow(s, c2).0 is Parsed {
                        lemma_sh_expect_word(w, s, c3, d, "=>"@);
                        crate::progress::lemma_expect_word(s, c3, "=>"@);
                        let c4 = expect_word(s, c3, "=>"@).1;
                        if expect_word(s, c3, "=>"@).0 is Parsed && c.pos < c4.pos {
                            lemma_sh_caso_body(w, s, c4, d);
                        }
                    }
                }
            },
        }
    }
}

pub proof fn lemma_sh_caso_body(w: Seq<u8>, s: Seq<u8>, c: Cursor, d: int)
    requires
        valid_pair(w, s),
        0 <= c.pos <= s.len(),
    ensures
        caso_body(w + s, sh(c, w.len() as int, d)) == sh_res(caso_body(s, c), w.len() as int, d),
    decreases s.len() - c.pos, 4int,
{
    let k = w.len() as int;
    lemma_skip(s, c);
    lemma_sh_skip(w, s, c, d);
    let c1 = skip(s, c);
    if c1.pos < s.len() {
        assert((w + s)[c1.pos + k] == s[c1.pos]);
    }
    if at_is(s, c1.pos, 123) {
        lemma_sh_block_loop(w, s, moved(c1, 1), d, 125, Seq::empty());
    } else {
        lemma_sh_peek_word(w, s, c1.pos);
        match peek_word(s, c1.pos) {
            None => {},
            Some(n) => {
                assert(word_is(w + s, c1.pos + k, n, "caso"@) == word_is(s, c1.pos, n, "caso"@));
                if word_is(s, c1.pos, n, "caso"@) {
                    lemma_sh_stmt(w, s, c1, d);
                } else {
                    lemma_sh_expr_until_semicolon(w, s, c1, d);
                }
            },
        }
    }
}

pub proof fn lemma_sh_loop_stmt(w: Seq<u8>, s: Seq<u8>, c: Cursor, d: int)
    requires
        valid_pair(w, s),
        0 <= c.pos <= s.len(),
    ensures
        loop_stmt(w + s, sh(c, w.len() as int, d)) == sh_res(loop_stmt(s, c), w.len() as int, d),
    decreases s.len() - c.pos, 2int,
{
    lemma_sh_expect_word(w, s, c, d, "loop"@);
    crate::progress::lemma_expect_word(s, c, "loop"@);
    let c1 = expect_word(s, c, "loop"@).1;
    if expect_word(s, c, "loop"@).0 is Parsed {
        lemma_sh_expect_char(w, s, c1, d, 123);
        crate::progress::lemma_expect_char(s, c1, 123);
        let c2 = expect_char(s, c1, 123).1;
        if expect_char(s, c1, 123).0 is Parsed && c.pos < c2.pos {
            lemma_sh_block_loop(w, s, c2, d, 125, Seq::empty());
        }
    }
}

pub proof fn lemma_sh_for_stmt(w: Seq<u8>, s: Seq<u8>, c: Cursor, d: int)
    requires
        valid_pair(w, s),
        0 <= c.pos <= s.len(),
    ensures
        for_stmt(w + s, sh(c, w.len() as int, d)) == sh_res(for_stmt(s, c), w.len() as int, d),
    decreases s.len() - c.pos, 2int,
{
    lemma_sh_expect_word(w, s, c, d, "for"@);
    crate::progress::lemma_expect_word(s, c, "for"@);
    let c1 = expect_word(s, c, "for"@).1;
    if expect_word(s, c, "for"@).0 is Parsed {
        lemma_sh_expect_ident(w, s, c1, d);
        crate::progress::lemma_expect_ident(s, c1);
        let c2 = expect_ident(s, c1).1;
        if expect_ident(s, c1).0 is Parsed {
            lemma_sh_expect_word(w, s, c2, d, "in"@);
            crate::progress::lemma_expect_word(s, c2, "in"@);
            let c3 = expect_word(s, c2, "in"@).1;
            if expect_word(s, c2, "in"@).0 is Parsed {
                lemma_sh_expr_until_brace(w, s, c3, d);
                crate::progress::lemma_brace_end(s, c3.pos);
                let c4 = crate::grammar::expr_until_brace(s, c3).1;
                if crate::grammar::expr_until_brace(s, c3).0 is Parsed {
                    lemma_sh_expect_char(w, s, c4, d, 123);
                    crate::progress::lemma_expect_char(s, c4, 123);
                    let c5 = expect_char(s, c4, 123).1;
                    if expect_char(s, c4, 123).0 is Parsed && c.pos < c5.pos {
                        lemma_sh_block_loop(w, s, c5, d, 125, Seq::empty());
                    }
                }
            }
        }
    }
}

#[verifier::spinoff_prover]
#[verifier::rlimit(40)]
pub proof fn lemma_sh_let_stmt(w: Seq<u8>, s: Seq<u8>, c: Cursor, d: int)
    requires
        valid_pair(w, s),
        0 <= c.pos <= s.len(),
    ensures
        let_stmt(w + s, sh(c, w.len() as int, d)) == sh_res(let_stmt(s, c), w.len() as int, d),
{
    let k = w.len() as int;
    lemma_sh_expect_word(w, s, c, d, "let"@);
    crate::progress::lemma_expect_word(s, c, "let"@);
    let c1 = expect_word(s, c, "let"@).1;
    if expect_word(s, c, "let"@).0 is Parsed {
        lemma_skip(s, c1);
        lemma_sh_skip(w, s, c1, d);
        let c2 = skip(s, c1);
        lemma_sh_peek_word(w, s, c2.pos);
        lemma_peek_word(s, c2.pos);
        match peek_word(s, c2.pos) {
            None => {},
            Some(n) => {
                assert(word_is(w + s, c2.pos + k, n, "mut"@) == word_is(s, c2.pos, n, "mut"@));
                let is_mut = word_is(s, c2.pos, n, "mut"@);
                let c3 = if is_mut {
                    moved(c2, n)
                } else {
                    c2
                };
                lemma_sh_expect_ident(w, s, c3, d);
                crate::progress::lemma_expect_ident(s, c3);
                let c4 = expect_ident(s, c3).1;
                if expect_ident(s, c3).0 is Parsed {
                    if c4.pos < s.len() {
                        assert((w + s)[c4.pos + k] == s[c4.pos]);
                    }
                    if at_is(s, c4.pos, 58) {
                        lemma_sh_type_ref(w, s, moved(c4, 1), d);
                        crate::progress::lemma_type_ref(s, moved(c4, 1));
                    }
                    assert(let_type(w + s, sh(c4, k, d)) == sh_res(let_type(s, c4), k, d));
                    let c5 = let_type(s, c4).1;
                    if let_type(s, c4).0 is Parsed {
                        lemma_skip(s, c5);
                        lemma_sh_skip(w, s, c5, d);
                        let c6 = skip(s, c5);
                        if c6.pos < s.len() {
                            assert((w + s)[c6.pos + k] == s[c6.pos]);
                        }
                        if at_is(s, c6.pos, 61) {
                            lemma_sh_expr_until_semicolon(w, s, moved(c6, 1), d);
                        }
                        assert(let_value(w + s, sh(c6, k, d)) == sh_res(let_value(s, c6), k, d));
                    }
                }
            },
        }
    }
}

pub proof fn lemma_sh_retorna(w: Seq<u8>, s: Seq<u8>, c: Cursor, d: int)
    requires
        valid_pair(w, s),
        0 <= c.pos <= s.len(),
    ensures
        retorna(w + s, sh(c, w.len() as int, d)) == sh_res(retorna(s, c), w.len() as int, d),
{
    let k = w.len() as int;
    lemma_sh_expect_word(w, s, c, d, "retorna"@);
    crate::progress::lemma_expect_word(s, c, "retorna"@);
    let c1 = expect_word(s, c, "retorna"@).1;
    if expect_word(s, c, "retorna"@).0 is Parsed {
        lemma_skip(s, c1);
        lemma_sh_skip(w, s, c1, d);
        let c2 = skip(s, c1);
        if c2.pos < s.len() {
            assert((w + s)[c2.pos + k] == s[c2.pos]);
        }
        lemma_sh_expr_until_semicolon(w, s, c2, d);
    }
}

pub proof fn lemma_sh_ref_stmt(w: Seq<u8>, s: Seq<u8>, c: Cursor, d: int)
    requires
        valid_pair(w, s),
        0 <= c.pos <= s.len(),
    ensures
        ref_stmt(w + s, sh(c, w.len() as int, d)) == sh_res(ref_stmt(s, c), w.len() as int, d),
{
    lemma_sh_expect_word(w, s, c, d, "ref"@);
    crate::progress::lemma_expect_word(s, c, "ref"@);
    let c1 = expect_word(s, c, "ref"@).1;
    if expect_word(s, c, "ref"@).0 is Parsed {
        lemma_sh_path(w, s, c1, d);
    }
}

pub proof fn lemma_sh_operand_end(w: Seq<u8>, s: Seq<u8>, q: int, depth: int, in_str: bool)
    requires
        0 <= q <= s.len(),
    ensures
        operand_end(w + s, q + w.len(), depth, in_str) == operand_end(s, q, depth, in_str)
            + w.len(),
    decreases s.len() - q,
{
    if q < s.len() {
        assert((w + s)[q + w.len()] == s[q]);
        let b = s[q];
        if b == 34 {
            lemma_sh_operand_end(w, s, q + 1, depth, !in_str);
        } else if b == 40 && !in_str {
            lemma_sh_operand_end(w, s, q + 1, depth + 1, in_str);
        } else if b == 41 && !in_str {
            if depth != 0 {
                lemma_sh_operand_end(w, s, q + 1, depth - 1, in_str);
            }
        } else if b == 44 && depth == 0 && !in_str {
        } else {
            lemma_sh_operand_end(w, s, q + 1, depth, in_str);
        }
    }
}

#[verifier::spinoff_prover]
#[verifier::rlimit(40)]
pub proof fn lemma_sh_asm_operands(
    w: Seq<u8>,
    s: Seq<u8>,
    c: Cursor,
    d: int,
    ops: Seq<Seq<char>>,
    clobs: Seq<Seq<char>>,
)
    requires
        valid_pair(w, s),
        0 <= c.pos <= s.len(),
    ensures
        asm_operands(w + s, sh(c, w.len() as int, d), ops, clobs) == sh_res(
            asm_operands(s, c, ops, clobs),
            w.len() as int,
            d,
        ),
    decreases s.len() - c.pos,
{
    let k = w.len() as int;
    lemma_skip(s, c);
    lemma_sh_skip(w, s, c, d);
    let c1 = skip(s, c);
    if c1.pos < s.len() {
        assert((w + s)[c1.pos + k] == s[c1.pos]);
    }
    if !at_is(s, c1.pos, 41) {
        lemma_sh_expect_char(w, s, c1, d, 44);
        crate::progress::lemma_expect_char(s, c1, 44);
        let c2 = expect_char(s, c1, 44).1;
        if expect_char(s, c1, 44).0 is Parsed {
            lemma_skip(s, c2);
            lemma_sh_skip(w, s, c2, d);
            let c3 = skip(s, c2);
            if c3.pos < s.len() {
                assert((w + s)[c3.pos + k] == s[c3.pos]);
            }
            if !at_is(s, c3.pos, 41) {
                crate::rules::lemma_operand_end(s, c3.pos, 0, false);
                lemma_sh_operand_end(w, s, c3.pos, 0, false);
                let e = operand_end(s, c3.pos, 0, false);
                lemma_sh_boundary(w, s, c3.pos);
                lemma_sh_text(w, s, c3.pos, e);
                if is_char_boundary(s, c3.pos) {
                    let op = crate::text::trim_ws(text(s, c3.pos, e));
                    lemma_sh_asm_operands(w, s, Cursor { pos: e, line: c3.line }, d, ops, clobs.push(op));
                    lemma_sh_asm_operands(w, s, Cursor { pos: e, line: c3.line }, d, ops.push(op), clobs);
                }
            }
        }
    }
}

pub proof fn lemma_sh_asm_stmt(w: Seq<u8>, s: Seq<u8>, c: Cursor, d: int)
    requires
        valid_pair(w, s),
        0 <= c.pos <= s.len(),
    ensures
        asm_stmt(w + s, sh(c, w.len() as int, d)) == sh_res(asm_stmt(s, c), w.len() as int, d),
{
    lemma_sh_expect_word(w, s, c, d, "asm"@);
    crate::progress::lemma_expect_word(s, c, "asm"@);
    let c1 = expect_word(s, c, "asm"@).1;
    if expect_word(s, c, "asm"@).0 is Parsed {
        lemma_sh_expect_char(w, s, c1, d, 33);
        crate::progress::lemma_expect_char(s, c1, 33);
        let c2 = expect_char(s, c1, 33).1;
        if expect_char(s, c1, 33).0 is Parsed {
            lemma_sh_expect_char(w, s, c2, d, 40);
            crate::progress::lemma_expect_char(s, c2, 40);
            let c3 = expect_char(s, c2, 40).1;
            if expect_char(s, c2, 40).0 is Parsed {
                lemma_sh_string_literal(w, s, c3, d);
                crate::progress::lemma_string_literal(s, c3);
                let c4 = string_literal(s, c3).1;
                if string_literal(s, c3).0 is Parsed {
                    lemma_sh_asm_operands(w, s, c4, d, Seq::empty(), Seq::empty());
                    crate::progress::lemma_asm_operands(s, c4, Seq::empty(), Seq::empty());
                    let c5 = asm_operands(s, c4, Seq::empty(), Seq::empty()).1;
                    if asm_operands(s, c4, Seq::empty(), Seq::empty()).0 is Parsed {
                        lemma_sh_expect_char(w, s, c5, d, 41);
                    }
                }
            }
        }
    }
}

// ------------------------------------------------------------ top level
pub proof fn lemma_sh_impl_decl(w: Seq<u8>, s: Seq<u8>, c: Cursor, d: int)
    requires
        valid_pair(w, s),
        0 <= c.pos <= s.len(),
    ensures
        impl_decl(w + s, sh(c, w.len() as int, d)) == sh_res(impl_decl(s, c), w.len() as int, d),
{
    lemma_sh_expect_word(w, s, c, d, "impl"@);
    crate::progress::lemma_expect_word(s, c, "impl"@);
    let c1 = expect_word(s, c, "impl"@).1;
    if expect_word(s, c, "impl"@).0 is Parsed {
        lemma_sh_expect_ident(w, s, c1, d);
        crate::progress::lemma_expect_ident(s, c1);
        let c2 = expect_ident(s, c1).1;
        if expect_ident(s, c1).0 is Parsed {
            lemma_sh_expect_word(w, s, c2, d, "::"@);
            crate::progress::lemma_expect_word(s, c2, "::"@);
            let c3 = expect_word(s, c2, "::"@).1;
            if expect_word(s, c2, "::"@).0 is Parsed {
                lemma_sh_expect_ident(w, s, c3, d);
                crate::progress::lemma_expect_ident(s, c3);
                let c4 = expect_ident(s, c3).1;
                if expect_ident(s, c3).0 is Parsed {
                    lemma_sh_signature(w, s, c4, d);
                    crate::progress::lemma_signature(s, c4);
                    let c5 = signature(s, c4).1;
                    if signature(s, c4).0 is Parsed {
                        lemma_sh_expect_char(w, s, c5, d, 123);
                        crate::progress::lemma_expect_char(s, c5, 123);
                        let c6 = expect_char(s, c5, 123).1;
                        if expect_char(s, c5, 123).0 is Parsed {
                            lemma_sh_block_loop(w, s, c6, d, 125, Seq::empty());
                        }
                    }
                }
            }
        }
    }
}

pub proof fn lemma_sh_flow_steps(
    w: Seq<u8>,
    s: Seq<u8>,
    c: Cursor,
    d: int,
    acc: Seq<Seq<char>>,
)
    requires
        valid_pair(w, s),
        0 <= c.pos <= s.len(),
    ensures
        flow_steps(w + s, sh(c, w.len() as int, d), acc) == sh_res(
            flow_steps(s, c, acc),
            w.len() as int,
            d,
        ),
    decreases s.len() - c.pos,
{
    lemma_skip(s, c);
    lemma_sh_skip(w, s, c, d);
    let c1 = skip(s, c);
    if c1.pos < s.len() {
        assert((w + s)[c1.pos + w.len()] == s[c1.pos]);
    }
    if !at_is(s, c1.pos, 125) {
        lemma_sh_expect_ident(w, s, c1, d);
        crate::progress::lemma_expect_ident(s, c1);
        match expect_ident(s, c1) {
            (Outcome::Parsed(step), c2) => {
                lemma_sh_flow_steps(w, s, c2, d, acc.push(step));
            },
            _ => {},
        }
    }
}

pub proof fn lemma_sh_flow_decl(w: Seq<u8>, s: Seq<u8>, c: Cursor, d: int)
    requires
        valid_pair(w, s),
        0 <= c.pos <= s.len(),
    ensures
        flow_decl(w + s, sh(c, w.len() as int, d)) == sh_res(flow_decl(s, c), w.len() as int, d),
{
    lemma_sh_expect_word(w, s, c, d, "flow"@);
    crate::progress::lemma_expect_word(s, c, "flow"@);
    let c1 = expect_word(s, c, "flow"@).1;
    if expect_word(s, c, "flow"@).0 is Parsed {
        lemma_sh_expect_ident(w, s, c1, d);
        crate::progress::lemma_expect_ident(s, c1);
        let c2 = expect_ident(s, c1).1;
        if expect_ident(s, c1).0 is Parsed {
            lemma_sh_expect_char(w, s, c2, d, 123);
            crate::progress::lemma_expect_char(s, c2, 123);
            let c3 = expect_char(s, c2, 123).1;
            if expect_char(s, c2, 123).0 is Parsed {
                lemma_sh_flow_steps(w, s, c3, d, Seq::empty());
            }
        }
    }
}

#[verifier::spinoff_prover]
#[verifier::rlimit(40)]
pub proof fn lemma_sh_program_loop(
    w: Seq<u8>,
    s: Seq<u8>,
    c: Cursor,
    d: int,
    boxes: Seq<BoxModel>,
    impls: Seq<ImplModel>,
    flows: Seq<FlowModel>,
)
    requires
        valid_pair(w, s),
        0 <= c.pos <= s.len(),
    ensures
        program_loop(w + s, sh(c, w.len() as int, d), boxes, impls, flows) == sh_res(
            program_loop(s, c, boxes, impls, flows),
            w.len() as int,
            d,
        ),
    decreases s.len() - c.pos,
{
    let k = w.len() as int;
    let t = w + s;
    lemma_skip(s, c);
    lemma_sh_skip(w, s, c, d);
    let c1 = skip(s, c);
    if c1.pos < s.len() {
        lemma_sh_peek_word(w, s, c1.pos);
        lemma_peek_word(s, c1.pos);
        match peek_word(s, c1.pos) {
            None => {},
            Some(n) => {
                assert(word_is(t, c1.pos + k, n, "box"@) == word_is(s, c1.pos, n, "box"@));
                assert(word_is(t, c1.pos + k, n, "impl"@) == word_is(s, c1.pos, n, "impl"@));
                assert(word_is(t, c1.pos + k, n, "flow"@) == word_is(s, c1.pos, n, "flow"@));
                if word_is(s, c1.pos, n, "box"@) {
                    lemma_sh_box_decl(w, s, c1, d);
                    crate::progress::lemma_box_decl(s, c1);
                    match box_decl(s, c1) {
                        (Outcome::Parsed(b), c2) => {
                            lemma_sh_program_loop(w, s, c2, d, boxes.push(b), impls, flows);
                        },
                        _ => {},
                    }
                } else if word_is(s, c1.pos, n, "impl"@) {
                    lemma_sh_impl_decl(w, s, c1, d);
                    crate::progress::lemma_impl_decl(s, c1);
                    match impl_decl(s, c1) {
                        (Outcome::Parsed(i), c2) => {
                            lemma_sh_program_loop(w, s, c2, d, boxes, impls.push(i), flows);
                        },
                        _ => {},
                    }
                } else if word_is(s, c1.pos, n, "flow"@) {
                    lemma_sh_flow_decl(w, s, c1, d);
                    crate::progress::lemma_flow_decl(s, c1);
                    match flow_decl(s, c1) {
                        (Outcome::Parsed(f), c2) => {
                            lemma_sh_program_loop(w, s, c2, d, boxes, impls, flows.push(f));
                        },
                        _ => {},
                    }
                } else {
                    lemma_sh_text(w, s, c1.pos, c1.pos + n);
                }
            },
        }
    }
}

} // verus!
