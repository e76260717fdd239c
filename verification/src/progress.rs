//! Every parsing step either fails or ends further on, within the input;
//! no step reports a step that does not move forward; and on an input whose
//! every position is a character boundary no step reports a cut character.
use vstd::prelude::*;
use vstd::utf8::*;
use crate::grammar::{
    Cursor, Outcome, skip, moved, at_is, peek_word, word_is, expect_ident, expect_word,
    expect_char, type_ref, string_body, string_literal, path_rest, path, semicolon_end, arrow_end,
    brace_end, lemma_skip, lemma_ident_end, lemma_peek_word,
};
use crate::rules::{
    param_type, params_loop, ret_type, signature, inst_decl, box_items, box_decl, block_loop,
    stmt, caso, caso_body, loop_stmt, for_stmt, let_stmt, retorna, ref_stmt, asm_operands,
    asm_stmt, impl_decl, flow_steps, flow_decl, program_loop, lemma_operand_end,
};
use crate::model::{BoxModel, ImplModel, FlowModel, ParamModel, InstModel, StmtModel};
use crate::parser::lemma_encode_len;

verus! {

/// Whether every position of `s`, its end included, is a character
/// boundary.
pub open spec fn all_boundaries(s: Seq<u8>) -> bool {
    forall|p: int| 0 <= p <= s.len() ==> #[trigger] is_char_boundary(s, p)
}

/// Whether the step from `c` that gave `r` did not get stuck, reported no
/// cut character where none can be, and, where it succeeded, ended no
/// earlier than `c` and within the input.
pub open spec fn settled<T>(s: Seq<u8>, c: Cursor, r: (Outcome<T>, Cursor)) -> bool {
    &&& !(r.0 is Stuck)
    &&& (all_boundaries(s) ==> !(r.0 is CutsChar))
    &&& (r.0 is Parsed ==> c.pos <= r.1.pos <= s.len())
}

// ------------------------------------------------------------ words
pub proof fn lemma_expect_ident(s: Seq<u8>, c: Cursor)
    requires
        0 <= c.pos <= s.len(),
    ensures
        settled(s, c, expect_ident(s, c)),
        expect_ident(s, c).0 is Parsed ==> c.pos < expect_ident(s, c).1.pos,
{
    lemma_skip(s, c);
    lemma_ident_end(s, skip(s, c).pos);
}

pub proof fn lemma_expect_word(s: Seq<u8>, c: Cursor, kw: Seq<char>)
    requires
        0 <= c.pos <= s.len(),
    ensures
        settled(s, c, expect_word(s, c, kw)),
        expect_word(s, c, kw).0 is Parsed && kw.len() > 0 ==> c.pos < expect_word(s, c, kw).1.pos,
{
    lemma_skip(s, c);
    lemma_peek_word(s, skip(s, c).pos);
    lemma_ident_end(s, skip(s, c).pos);
    lemma_encode_len(kw);
}

pub proof fn lemma_expect_char(s: Seq<u8>, c: Cursor, b: u8)
    requires
        0 <= c.pos <= s.len(),
    ensures
        expect_char(s, c, b).0 is Parsed || expect_char(s, c, b).0 is Failed,
        expect_char(s, c, b).0 is Parsed ==> c.pos < expect_char(s, c, b).1.pos <= s.len(),
{
    lemma_skip(s, c);
}

// ------------------------------------------------------------ scanners
pub proof fn lemma_semicolon_end(s: Seq<u8>, q: int, parens: int, braces: int)
    requires
        0 <= q <= s.len(),
    ensures
        q <= semicolon_end(s, q, parens, braces) <= s.len(),
        q < s.len() && semicolon_end(s, q, parens, braces) == q ==> (s[q] == 59 || s[q] == 44
            || s[q] == 10),
    decreases s.len() - q,
{
    if q < s.len() {
        let b = s[q];
        if b == 40 {
            lemma_semicolon_end(s, q + 1, parens + 1, braces);
        } else if b == 41 {
            lemma_semicolon_end(s, q + 1, parens - 1, braces);
        } else if b == 123 {
            lemma_semicolon_end(s, q + 1, parens, braces + 1);
        } else if b == 125 {
            lemma_semicolon_end(s, q + 1, parens, braces - 1);
        } else if (b == 59 || b == 44 || b == 10) && parens == 0 && braces == 0 {
        } else {
            lemma_semicolon_end(s, q + 1, parens, braces);
        }
    }
}

pub proof fn lemma_arrow_end(s: Seq<u8>, q: int, parens: int)
    requires
        0 <= q <= s.len(),
    ensures
        q <= arrow_end(s, q, parens) <= s.len(),
    decreases s.len() - q,
{
    if q < s.len() {
        let b = s[q];
        if b == 40 {
            lemma_arrow_end(s, q + 1, parens + 1);
        } else if b == 41 {
            lemma_arrow_end(s, q + 1, parens - 1);
        } else if b == 61 && parens == 0 && q + 1 < s.len() && s[q + 1] == 62 {
        } else {
            lemma_arrow_end(s, q + 1, parens);
        }
    }
}

pub proof fn lemma_brace_end(s: Seq<u8>, q: int)
    requires
        0 <= q <= s.len(),
    ensures
        q <= brace_end(s, q) <= s.len(),
    decreases s.len() - q,
{
    if q < s.len() && s[q] != 123 {
        lemma_brace_end(s, q + 1);
    }
}

// ------------------------------------------------------------ types, strings, paths
pub proof fn lemma_type_ref(s: Seq<u8>, c: Cursor)
    requires
        0 <= c.pos <= s.len(),
    ensures
        settled(s, c, type_ref(s, c)),
    decreases s.len() - c.pos,
{
    lemma_skip(s, c);
    let c1 = skip(s, c);
    if at_is(s, c1.pos, 33) {
    } else if at_is(s, c1.pos, 91) {
        lemma_type_ref(s, moved(c1, 1));
        let c2 = type_ref(s, moved(c1, 1)).1;
        if type_ref(s, moved(c1, 1)).0 is Parsed {
            lemma_expect_char(s, c2, 93);
        }
    } else if at_is(s, c1.pos, 38) || at_is(s, c1.pos, 42) {
        let amp = at_is(s, c1.pos, 38);
        lemma_skip(s, moved(c1, 1));
        let c2 = skip(s, moved(c1, 1));
        lemma_peek_word(s, c2.pos);
        lemma_ident_end(s, c2.pos);
        match peek_word(s, c2.pos) {
            None => {},
            Some(n) => {
                let is_mut = word_is(s, c2.pos, n, "mut"@);
                let is_const = !amp && word_is(s, c2.pos, n, "const"@);
                let c3 = if is_mut || is_const {
                    moved(c2, n)
                } else {
                    c2
                };
                lemma_type_ref(s, c3);
            },
        }
    } else {
        lemma_expect_ident(s, c1);
    }
}

pub proof fn lemma_string_body(s: Seq<u8>, start: int, q: int, line: int)
    requires
        0 <= q,
    ensures
        string_body(s, start, q, line).0 is Parsed || string_body(s, start, q, line).0 is Failed,
        string_body(s, start, q, line).0 is Parsed ==> q < string_body(s, start, q, line).1.pos
            <= s.len(),
    decreases s.len() + 1 - q,
{
    if q < s.len() && s[q] != 34 {
        if s[q] == 92 {
            lemma_string_body(s, start, q + 2, line);
        } else {
            lemma_string_body(s, start, q + 1, line);
        }
    }
}

pub proof fn lemma_string_literal(s: Seq<u8>, c: Cursor)
    requires
        0 <= c.pos <= s.len(),
    ensures
        settled(s, c, string_literal(s, c)),
{
    lemma_skip(s, c);
    let c1 = skip(s, c);
    if at_is(s, c1.pos, 34) {
        lemma_string_body(s, c1.pos + 1, c1.pos + 1, c1.line);
    }
}

pub proof fn lemma_path_rest(s: Seq<u8>, c: Cursor, acc: Seq<char>)
    requires
        0 <= c.pos <= s.len(),
    ensures
        settled(s, c, path_rest(s, c, acc)),
    decreases s.len() - c.pos,
{
    lemma_skip(s, c);
    let c1 = skip(s, c);
    lemma_peek_word(s, c1.pos);
    lemma_ident_end(s, c1.pos);
    if peek_word(s, c1.pos) is Some && crate::grammar::pair_at(s, c1.pos, 58, 58) {
        lemma_expect_ident(s, moved(c1, 2));
        match expect_ident(s, moved(c1, 2)) {
            (Outcome::Parsed(id), c2) => {
                lemma_path_rest(s, c2, acc + "::"@ + id);
            },
            _ => {},
        }
    }
}

pub proof fn lemma_path(s: Seq<u8>, c: Cursor)
    requires
        0 <= c.pos <= s.len(),
    ensures
        settled(s, c, path(s, c)),
{
    lemma_expect_ident(s, c);
    match expect_ident(s, c) {
        (Outcome::Parsed(id), c1) => {
            lemma_path_rest(s, c1, id);
        },
        _ => {},
    }
}

// ------------------------------------------------------------ signatures and boxes
pub proof fn lemma_param_type(s: Seq<u8>, c: Cursor)
    requires
        0 <= c.pos <= s.len(),
    ensures
        settled(s, c, param_type(s, c)),
{
    lemma_skip(s, c);
    let c1 = skip(s, c);
    if at_is(s, c1.pos, 58) {
        lemma_type_ref(s, moved(c1, 1));
    }
}

pub proof fn lemma_params_loop(s: Seq<u8>, c: Cursor, acc: Seq<ParamModel>)
    requires
        0 <= c.pos <= s.len(),
    ensures
        settled(s, c, params_loop(s, c, acc)),
    decreases s.len() - c.pos,
{
    lemma_skip(s, c);
    let c1 = skip(s, c);
    if !at_is(s, c1.pos, 41) {
        if acc.len() > 0 {
            lemma_expect_char(s, c1, 44);
            lemma_skip(s, expect_char(s, c1, 44).1);
        }
        let (o2, c2) = if acc.len() > 0 {
            match expect_char(s, c1, 44) {
                (Outcome::Parsed(_), cc) => (Outcome::Parsed(()), skip(s, cc)),
                (o, cc) => (o, cc),
            }
        } else {
            (Outcome::Parsed(()), c1)
        };
        if o2 is Parsed && !at_is(s, c2.pos, 41) {
            lemma_expect_ident(s, c2);
            match expect_ident(s, c2) {
                (Outcome::Parsed(name), c3) => {
                    lemma_param_type(s, c3);
                    match param_type(s, c3) {
                        (Outcome::Parsed(ty), c5) => {
                            lemma_params_loop(s, c5, acc.push(ParamModel { name, ty }));
                        },
                        _ => {},
                    }
                },
                _ => {},
            }
        }
    }
}

pub proof fn lemma_ret_type(s: Seq<u8>, c: Cursor)
    requires
        0 <= c.pos <= s.len(),
    ensures
        settled(s, c, ret_type(s, c)),
{
    lemma_skip(s, c);
    let c1 = skip(s, c);
    lemma_peek_word(s, c1.pos);
    lemma_ident_end(s, c1.pos);
    if crate::grammar::pair_at(s, c1.pos, 45, 62) {
        lemma_type_ref(s, moved(c1, 2));
    }
}

pub proof fn lemma_signature(s: Seq<u8>, c: Cursor)
    requires
        0 <= c.pos <= s.len(),
    ensures
        settled(s, c, signature(s, c)),
{
    lemma_expect_char(s, c, 40);
    let c1 = expect_char(s, c, 40).1;
    if expect_char(s, c, 40).0 is Parsed {
        lemma_params_loop(s, c1, Seq::empty());
        let c2 = params_loop(s, c1, Seq::empty()).1;
        if params_loop(s, c1, Seq::empty()).0 is Parsed {
            lemma_expect_char(s, c2, 41);
            let c3 = expect_char(s, c2, 41).1;
            if expect_char(s, c2, 41).0 is Parsed {
                lemma_ret_type(s, c3);
            }
        }
    }
}

pub proof fn lemma_inst_decl(s: Seq<u8>, c: Cursor)
    requires
        0 <= c.pos <= s.len(),
    ensures
        settled(s, c, inst_decl(s, c)),
        inst_decl(s, c).0 is Parsed ==> c.pos < inst_decl(s, c).1.pos,
{
    reveal(inst_decl);
    lemma_expect_word(s, c, "inst"@);
    let c1 = expect_word(s, c, "inst"@).1;
    if expect_word(s, c, "inst"@).0 is Parsed {
        lemma_expect_ident(s, c1);
        let c2 = expect_ident(s, c1).1;
        if expect_ident(s, c1).0 is Parsed {
            lemma_signature(s, c2);
        }
    }
}

pub proof fn lemma_box_items(s: Seq<u8>, c: Cursor, acc: Seq<InstModel>)
    requires
        0 <= c.pos <= s.len(),
    ensures
        settled(s, c, box_items(s, c, acc)),
    decreases s.len() - c.pos,
{
    lemma_skip(s, c);
    let c1 = skip(s, c);
    if !at_is(s, c1.pos, 125) {
        lemma_inst_decl(s, c1);
        match inst_decl(s, c1) {
            (Outcome::Parsed(d), c2) => {
                lemma_box_items(s, c2, acc.push(d));
            },
            _ => {},
        }
    }
}

pub proof fn lemma_box_decl(s: Seq<u8>, c: Cursor)
    requires
        0 <= c.pos <= s.len(),
    ensures
        settled(s, c, box_decl(s, c)),
        box_decl(s, c).0 is Parsed ==> c.pos < box_decl(s, c).1.pos,
{
    lemma_expect_word(s, c, "box"@);
    let c1 = expect_word(s, c, "box"@).1;
    if expect_word(s, c, "box"@).0 is Parsed {
        lemma_expect_ident(s, c1);
        let c2 = expect_ident(s, c1).1;
        if expect_ident(s, c1).0 is Parsed {
            lemma_expect_char(s, c2, 123);
            let c3 = expect_char(s, c2, 123).1;
            if expect_char(s, c2, 123).0 is Parsed {
                lemma_box_items(s, c3, Seq::empty());
            }
        }
    }
}

// ------------------------------------------------------------ statements
pub proof fn lemma_block_loop(s: Seq<u8>, c: Cursor, end: u8, acc: Seq<StmtModel>)
    requires
        0 <= c.pos <= s.len(),
    ensures
        settled(s, c, block_loop(s, c, end, acc)),
    decreases s.len() - c.pos, 4int,
{
    lemma_skip(s, c);
    let c1 = skip(s, c);
    if c1.pos < s.len() && s[c1.pos] != end {
        lemma_stmt(s, c1);
        match stmt(s, c1) {
            (Outcome::Parsed(st), c2) => {
                let c3 = if at_is(s, c2.pos, 44) || at_is(s, c2.pos, 59) {
                    moved(c2, 1)
                } else {
                    c2
                };
                lemma_skip(s, c1);
                lemma_block_loop(s, c3, end, acc.push(st));
            },
            _ => {},
        }
    }
}

/// A statement either ends past the whitespace before it, or ends on a
/// `,` or `;` (which the enclosing block then consumes), or at the end of
/// the input.
pub proof fn lemma_stmt(s: Seq<u8>, c: Cursor)
    requires
        0 <= c.pos <= s.len(),
    ensures
        settled(s, c, stmt(s, c)),
        stmt(s, c).0 is Parsed ==> {
            ||| stmt(s, c).1.pos > skip(s, c).pos
            ||| at_is(s, stmt(s, c).1.pos, 44)
            ||| at_is(s, stmt(s, c).1.pos, 59)
            ||| stmt(s, c).1.pos == s.len()
        },
    decreases s.len() - c.pos, 3int,
{
    lemma_skip(s, c);
    let c1 = skip(s, c);
    if at_is(s, c1.pos, 123) {
        lemma_block_loop(s, moved(c1, 1), 125, Seq::empty());
    } else {
        lemma_peek_word(s, c1.pos);
        lemma_ident_end(s, c1.pos);
        match peek_word(s, c1.pos) {
            None => {},
            Some(n) => {
                if word_is(s, c1.pos, n, "let"@) {
                    lemma_let_stmt(s, c1);
                } else if word_is(s, c1.pos, n, "caso"@) {
                    lemma_caso(s, c1);
                } else if word_is(s, c1.pos, n, "retorna"@) {
                    lemma_retorna(s, c1);
                } else if word_is(s, c1.pos, n, "asm"@) {
                    lemma_asm_stmt(s, c1);
                } else if word_is(s, c1.pos, n, "loop"@) {
                    lemma_loop_stmt(s, c1);
                } else if word_is(s, c1.pos, n, "for"@) {
                    lemma_for_stmt(s, c1);
                } else if word_is(s, c1.pos, n, "ref"@) {
                    lemma_ref_stmt(s, c1);
                } else {
                    lemma_semicolon_end(s, c1.pos, 0, 0);
                }
            },
        }
    }
}

pub proof fn lemma_caso(s: Seq<u8>, c: Cursor)
    requires
        0 <= c.pos <= s.len(),
    ensures
        settled(s, c, caso(s, c)),
        caso(s, c).0 is Parsed ==> c.pos < caso(s, c).1.pos,
    decreases s.len() - c.pos, 2int,
{
    reveal_strlit("caso");
    reveal_strlit("=>");
    lemma_expect_word(s, c, "caso"@);
    let c1 = expect_word(s, c, "caso"@).1;
    if expect_word(s, c, "caso"@).0 is Parsed {
        lemma_skip(s, c1);
        let c2 = skip(s, c1);
        lemma_peek_word(s, c2.pos);
        lemma_ident_end(s, c2.pos);
        match peek_word(s, c2.pos) {
            None => {},
            Some(n) => {
                if word_is(s, c2.pos, n, "else"@) {
                    lemma_expect_word(s, moved(c2, n), "=>"@);
                    let c3 = expect_word(s, moved(c2, n), "=>"@).1;
                    if expect_word(s, moved(c2, n), "=>"@).0 is Parsed {
                        lemma_caso_body(s, c3);
                    }
                } else {
                    lemma_arrow_end(s, c2.pos, 0);
                    let c3 = crate::grammar::expr_until_arrow(s, c2).1;
                    if crate::grammar::expr_until_arrow(s, c2).0 is Parsed {
                        lemma_expect_word(s, c3, "=>"@);
                        let c4 = expect_word(s, c3, "=>"@).1;
                        if expect_word(s, c3, "=>"@).0 is Parsed {
                            lemma_caso_body(s, c4);
                        }
                    }
                }
            },
        }
    }
}

pub proof fn lemma_caso_body(s: Seq<u8>, c: Cursor)
    requires
        0 <= c.pos <= s.len(),
    ensures
        settled(s, c, caso_body(s, c)),
    decreases s.len() - c.pos, 4int,
{
    lemma_skip(s, c);
    let c1 = skip(s, c);
    if at_is(s, c1.pos, 123) {
        lemma_block_loop(s, moved(c1, 1), 125, Seq::empty());
    } else {
        lemma_peek_word(s, c1.pos);
        lemma_ident_end(s, c1.pos);
        match peek_word(s, c1.pos) {
            None => {},
            Some(n) => {
                if word_is(s, c1.pos, n, "caso"@) {
                    lemma_stmt(s, c1);
                } else {
                    lemma_semicolon_end(s, c1.pos, 0, 0);
                }
            },
        }
    }
}

pub proof fn lemma_loop_stmt(s: Seq<u8>, c: Cursor)
    requires
        0 <= c.pos <= s.len(),
    ensures
        settled(s, c, loop_stmt(s, c)),
        loop_stmt(s, c).0 is Parsed ==> c.pos < loop_stmt(s, c).1.pos,
    decreases s.len() - c.pos, 2int,
{
    lemma_expect_word(s, c, "loop"@);
    let c1 = expect_word(s, c, "loop"@).1;
    if expect_word(s, c, "loop"@).0 is Parsed {
        lemma_expect_char(s, c1, 123);
        let c2 = expect_char(s, c1, 123).1;
        if expect_char(s, c1, 123).0 is Parsed {
            lemma_block_loop(s, c2, 125, Seq::empty());
        }
    }
}

pub proof fn lemma_for_stmt(s: Seq<u8>, c: Cursor)
    requires
        0 <= c.pos <= s.len(),
    ensures
        settled(s, c, for_stmt(s, c)),
        for_stmt(s, c).0 is Parsed ==> c.pos < for_stmt(s, c).1.pos,
    decreases s.len() - c.pos, 2int,
{
    lemma_expect_word(s, c, "for"@);
    let c1 = expect_word(s, c, "for"@).1;
    if expect_word(s, c, "for"@).0 is Parsed {
        lemma_expect_ident(s, c1);
        let c2 = expect_ident(s, c1).1;
        if expect_ident(s, c1).0 is Parsed {
            lemma_expect_word(s, c2, "in"@);
            let c3 = expect_word(s, c2, "in"@).1;
            if expect_word(s, c2, "in"@).0 is Parsed {
                lemma_brace_end(s, c3.pos);
                let c4 = crate::grammar::expr_until_brace(s, c3).1;
                if crate::grammar::expr_until_brace(s, c3).0 is Parsed {
                    lemma_expect_char(s, c4, 123);
                    let c5 = expect_char(s, c4, 123).1;
                    if expect_char(s, c4, 123).0 is Parsed {
                        lemma_block_loop(s, c5, 125, Seq::empty());
                    }
                }
            }
        }
    }
}

pub proof fn lemma_let_stmt(s: Seq<u8>, c: Cursor)
    requires
        0 <= c.pos <= s.len(),
    ensures
        settled(s, c, let_stmt(s, c)),
        let_stmt(s, c).0 is Parsed ==> c.pos < let_stmt(s, c).1.pos,
{
    reveal_strlit("let");
    lemma_expect_word(s, c, "let"@);
    let c1 = expect_word(s, c, "let"@).1;
    if expect_word(s, c, "let"@).0 is Parsed {
        lemma_skip(s, c1);
        let c2 = skip(s, c1);
        lemma_peek_word(s, c2.pos);
        lemma_ident_end(s, c2.pos);
        match peek_word(s, c2.pos) {
            None => {},
            Some(n) => {
                let is_mut = word_is(s, c2.pos, n, "mut"@);
                let c3 = if is_mut {
                    moved(c2, n)
                } else {
                    c2
                };
                lemma_expect_ident(s, c3);
                let c4 = expect_ident(s, c3).1;
                if expect_ident(s, c3).0 is Parsed {
                    if at_is(s, c4.pos, 58) {
                        lemma_type_ref(s, moved(c4, 1));
                    }
                    let c5 = crate::rules::let_type(s, c4).1;
                    if crate::rules::let_type(s, c4).0 is Parsed {
                        lemma_skip(s, c5);
                        let c6 = skip(s, c5);
                        if at_is(s, c6.pos, 61) {
                            lemma_semicolon_end(s, c6.pos + 1, 0, 0);
                        }
                    }
                }
            },
        }
    }
}

pub proof fn lemma_retorna(s: Seq<u8>, c: Cursor)
    requires
        0 <= c.pos <= s.len(),
    ensures
        settled(s, c, retorna(s, c)),
        retorna(s, c).0 is Parsed ==> c.pos < retorna(s, c).1.pos,
{
    reveal_strlit("retorna");
    lemma_expect_word(s, c, "retorna"@);
    let c1 = expect_word(s, c, "retorna"@).1;
    if expect_word(s, c, "retorna"@).0 is Parsed {
        lemma_skip(s, c1);
        lemma_semicolon_end(s, skip(s, c1).pos, 0, 0);
    }
}

pub proof fn lemma_ref_stmt(s: Seq<u8>, c: Cursor)
    requires
        0 <= c.pos <= s.len(),
    ensures
        settled(s, c, ref_stmt(s, c)),
        ref_stmt(s, c).0 is Parsed ==> c.pos < ref_stmt(s, c).1.pos,
{
    reveal_strlit("ref");
    lemma_expect_word(s, c, "ref"@);
    let c1 = expect_word(s, c, "ref"@).1;
    if expect_word(s, c, "ref"@).0 is Parsed {
        lemma_path(s, c1);
    }
}

pub proof fn lemma_asm_operands(
    s: Seq<u8>,
    c: Cursor,
    ops: Seq<Seq<char>>,
    clobs: Seq<Seq<char>>,
)
    requires
        0 <= c.pos <= s.len(),
    ensures
        settled(s, c, asm_operands(s, c, ops, clobs)),
    decreases s.len() - c.pos,
{
    lemma_skip(s, c);
    let c1 = skip(s, c);
    if !at_is(s, c1.pos, 41) {
        lemma_expect_char(s, c1, 44);
        let c2 = expect_char(s, c1, 44).1;
        if expect_char(s, c1, 44).0 is Parsed {
            lemma_skip(s, c2);
            let c3 = skip(s, c2);
            if !at_is(s, c3.pos, 41) {
                lemma_operand_end(s, c3.pos, 0, false);
                let e = crate::rules::operand_end(s, c3.pos, 0, false);
                if is_char_boundary(s, c3.pos) {
                    let op = crate::text::trim_ws(crate::grammar::text(s, c3.pos, e));
                    lemma_asm_operands(s, Cursor { pos: e, line: c3.line }, ops, clobs.push(op));
                    lemma_asm_operands(s, Cursor { pos: e, line: c3.line }, ops.push(op), clobs);
                }
            }
        }
    }
}

pub proof fn lemma_asm_stmt(s: Seq<u8>, c: Cursor)
    requires
        0 <= c.pos <= s.len(),
    ensures
        settled(s, c, asm_stmt(s, c)),
        asm_stmt(s, c).0 is Parsed ==> c.pos < asm_stmt(s, c).1.pos,
{
    lemma_expect_word(s, c, "asm"@);
    let c1 = expect_word(s, c, "asm"@).1;
    if expect_word(s, c, "asm"@).0 is Parsed {
        lemma_expect_char(s, c1, 33);
        let c2 = expect_char(s, c1, 33).1;
        if expect_char(s, c1, 33).0 is Parsed {
            lemma_expect_char(s, c2, 40);
            let c3 = expect_char(s, c2, 40).1;
            if expect_char(s, c2, 40).0 is Parsed {
                lemma_string_literal(s, c3);
                let c4 = string_literal(s, c3).1;
                if string_literal(s, c3).0 is Parsed {
                    lemma_asm_operands(s, c4, Seq::empty(), Seq::empty());
                    let c5 = asm_operands(s, c4, Seq::empty(), Seq::empty()).1;
                    if asm_operands(s, c4, Seq::empty(), Seq::empty()).0 is Parsed {
                        lemma_expect_char(s, c5, 41);
                    }
                }
            }
        }
    }
}

// ------------------------------------------------------------ top level
pub proof fn lemma_impl_decl(s: Seq<u8>, c: Cursor)
    requires
        0 <= c.pos <= s.len(),
    ensures
        settled(s, c, impl_decl(s, c)),
        impl_decl(s, c).0 is Parsed ==> c.pos < impl_decl(s, c).1.pos,
{
    lemma_expect_word(s, c, "impl"@);
    let c1 = expect_word(s, c, "impl"@).1;
    if expect_word(s, c, "impl"@).0 is Parsed {
        lemma_expect_ident(s, c1);
        let c2 = expect_ident(s, c1).1;
        if expect_ident(s, c1).0 is Parsed {
            lemma_expect_word(s, c2, "::"@);
            let c3 = expect_word(s, c2, "::"@).1;
            if expect_word(s, c2, "::"@).0 is Parsed {
                lemma_expect_ident(s, c3);
                let c4 = expect_ident(s, c3).1;
                if expect_ident(s, c3).0 is Parsed {
                    lemma_signature(s, c4);
                    let c5 = signature(s, c4).1;
                    if signature(s, c4).0 is Parsed {
                        lemma_expect_char(s, c5, 123);
                        let c6 = expect_char(s, c5, 123).1;
                        if expect_char(s, c5, 123).0 is Parsed {
                            lemma_block_loop(s, c6, 125, Seq::empty());
                        }
                    }
                }
            }
        }
    }
}

pub proof fn lemma_flow_steps(s: Seq<u8>, c: Cursor, acc: Seq<Seq<char>>)
    requires
        0 <= c.pos <= s.len(),
    ensures
        settled(s, c, flow_steps(s, c, acc)),
    decreases s.len() - c.pos,
{
    lemma_skip(s, c);
    let c1 = skip(s, c);
    if !at_is(s, c1.pos, 125) {
        lemma_expect_ident(s, c1);
        match expect_ident(s, c1) {
            (Outcome::Parsed(step), c2) => {
                lemma_flow_steps(s, c2, acc.push(step));
            },
            _ => {},
        }
    }
}

pub proof fn lemma_flow_decl(s: Seq<u8>, c: Cursor)
    requires
        0 <= c.pos <= s.len(),
    ensures
        settled(s, c, flow_decl(s, c)),
        flow_decl(s, c).0 is Parsed ==> c.pos < flow_decl(s, c).1.pos,
{
    lemma_expect_word(s, c, "flow"@);
    let c1 = expect_word(s, c, "flow"@).1;
    if expect_word(s, c, "flow"@).0 is Parsed {
        lemma_expect_ident(s, c1);
        let c2 = expect_ident(s, c1).1;
        if expect_ident(s, c1).0 is Parsed {
            lemma_expect_char(s, c2, 123);
            let c3 = expect_char(s, c2, 123).1;
            if expect_char(s, c2, 123).0 is Parsed {
                lemma_flow_steps(s, c3, Seq::empty());
            }
        }
    }
}

/// The top-level loop never gets stuck, reports no cut character where
/// none can be, and succeeds only at the very end of the input.
pub proof fn lemma_program_loop(
    s: Seq<u8>,
    c: Cursor,
    boxes: Seq<BoxModel>,
    impls: Seq<ImplModel>,
    flows: Seq<FlowModel>,
)
    requires
        0 <= c.pos <= s.len(),
    ensures
        settled(s, c, program_loop(s, c, boxes, impls, flows)),
        program_loop(s, c, boxes, impls, flows).0 is Parsed ==> program_loop(
            s,
            c,
            boxes,
            impls,
            flows,
        ).1.pos == s.len(),
    decreases s.len() - c.pos,
{
    lemma_skip(s, c);
    let c1 = skip(s, c);
    if c1.pos < s.len() {
        lemma_peek_word(s, c1.pos);
        lemma_ident_end(s, c1.pos);
        match peek_word(s, c1.pos) {
            None => {},
            Some(n) => {
                if word_is(s, c1.pos, n, "box"@) {
                    lemma_box_decl(s, c1);
                    match box_decl(s, c1) {
                        (Outcome::Parsed(b), c2) => {
                            lemma_program_loop(s, c2, boxes.push(b), impls, flows);
                        },
                        _ => {},
                    }
                } else if word_is(s, c1.pos, n, "impl"@) {
                    lemma_impl_decl(s, c1);
                    match impl_decl(s, c1) {
                        (Outcome::Parsed(i), c2) => {
                            lemma_program_loop(s, c2, boxes, impls.push(i), flows);
                        },
                        _ => {},
                    }
                } else if word_is(s, c1.pos, n, "flow"@) {
                    lemma_flow_decl(s, c1);
                    match flow_decl(s, c1) {
                        (Outcome::Parsed(f), c2) => {
                            lemma_program_loop(s, c2, boxes, impls, flows.push(f));
                        },
                        _ => {},
                    }
                }
            },
        }
    }
}

} // verus!
