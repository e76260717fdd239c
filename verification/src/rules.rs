//! The meaning of the parser for parameters, declarations, statements and
//! whole programs, built on the lexical functions of `grammar`.
use vstd::prelude::*;
use vstd::utf8::*;
use crate::grammar::{
    Cursor, Outcome, failure, failed, moved, at_is, pair_at, text, skip, peek_word, word_is,
    expect_ident, expect_word, expect_char, type_ref, string_literal, path, expr_until_semicolon,
    expr_until_arrow, expr_until_brace, top_level_msg, lemma_skip,
};
use crate::model::{ParamModel, InstModel, BoxModel, StmtModel, ImplModel, ProgramModel, FlowModel};
use crate::text::trim_ws;

verus! {

// ------------------------------------------------------------ parameters
/// `: TYPE` after optional whitespace, or the empty type (the parameter's
/// type is then left to be inferred) when no colon follows.
pub open spec fn param_type(s: Seq<u8>, c: Cursor) -> (Outcome<Seq<char>>, Cursor) {
    let c1 = skip(s, c);
    if at_is(s, c1.pos, 58) {
        type_ref(s, moved(c1, 1))
    } else {
        (Outcome::Parsed(Seq::empty()), c1)
    }
}

/// The parameters after `acc`, up to (not including) the closing `)`.
/// A parameter's type is optional; a trailing comma is allowed.
pub open spec fn params_loop(s: Seq<u8>, c: Cursor, acc: Seq<ParamModel>) -> (
    Outcome<Seq<ParamModel>>,
    Cursor,
)
    decreases s.len() - c.pos,
{
    let c1 = skip(s, c);
    if at_is(s, c1.pos, 41) {
        (Outcome::Parsed(acc), c1)
    } else {
        let (o2, c2) = if acc.len() > 0 {
            match expect_char(s, c1, 44) {
                (Outcome::Parsed(_), cc) => (Outcome::Parsed(()), skip(s, cc)),
                (o, cc) => (o, cc),
            }
        } else {
            (Outcome::Parsed(()), c1)
        };
        if !(o2 is Parsed) {
            (failure(o2), c2)
        } else if at_is(s, c2.pos, 41) {
            (Outcome::Parsed(acc), c2)
        } else {
            match expect_ident(s, c2) {
                (Outcome::Parsed(name), c3) => match param_type(s, c3) {
                    (Outcome::Parsed(ty), c5) => if c.pos < c5.pos <= s.len() {
                        params_loop(s, c5, acc.push(ParamModel { name, ty }))
                    } else {
                        (Outcome::Stuck, c5)
                    },
                    (o, c5) => (failure(o), c5),
                },
                (o, c3) => (failure(o), c3),
            }
        }
    }
}

/// An optional `-> TYPE` after optional whitespace.
pub open spec fn ret_type(s: Seq<u8>, c: Cursor) -> (Outcome<Option<Seq<char>>>, Cursor) {
    let c1 = skip(s, c);
    match peek_word(s, c1.pos) {
        None => (Outcome::CutsChar, c1),
        Some(_) => if pair_at(s, c1.pos, 45, 62) {
            match type_ref(s, moved(c1, 2)) {
                (Outcome::Parsed(t), c2) => (Outcome::Parsed(Some(t)), c2),
                (o, c2) => (failure(o), c2),
            }
        } else {
            (Outcome::Parsed(None), c1)
        },
    }
}

/// `( PARAMS )` followed by an optional `-> TYPE`.
pub open spec fn signature(s: Seq<u8>, c: Cursor) -> (
    Outcome<(Seq<ParamModel>, Option<Seq<char>>)>,
    Cursor,
) {
    match expect_char(s, c, 40) {
        (Outcome::Parsed(_), c1) => match params_loop(s, c1, Seq::empty()) {
            (Outcome::Parsed(ps), c2) => match expect_char(s, c2, 41) {
                (Outcome::Parsed(_), c3) => match ret_type(s, c3) {
                    (Outcome::Parsed(rt), c4) => (Outcome::Parsed((ps, rt)), c4),
                    (o, c4) => (failure(o), c4),
                },
                (o, c3) => (failure(o), c3),
            },
            (o, c2) => (failure(o), c2),
        },
        (o, c1) => (failure(o), c1),
    }
}

// ------------------------------------------------------------- box items
/// `inst NAME ( PARAMS ) [-> TYPE]`
#[verifier::opaque]
pub open spec fn inst_decl(s: Seq<u8>, c: Cursor) -> (Outcome<InstModel>, Cursor) {
    match expect_word(s, c, "inst"@) {
        (Outcome::Parsed(_), c1) => match expect_ident(s, c1) {
            (Outcome::Parsed(name), c2) => match signature(s, c2) {
                (Outcome::Parsed((params, ret_type)), c3) => (
                    Outcome::Parsed(InstModel { name, params, ret_type }),
                    c3,
                ),
                (o, c3) => (failure(o), c3),
            },
            (o, c2) => (failure(o), c2),
        },
        (o, c1) => (failure(o), c1),
    }
}

/// The declarations of a box after `acc`, through the closing `}`.
pub open spec fn box_items(s: Seq<u8>, c: Cursor, acc: Seq<InstModel>) -> (
    Outcome<Seq<InstModel>>,
    Cursor,
)
    decreases s.len() - c.pos,
{
    let c1 = skip(s, c);
    if at_is(s, c1.pos, 125) {
        (Outcome::Parsed(acc), moved(c1, 1))
    } else {
        match inst_decl(s, c1) {
            (Outcome::Parsed(d), c2) => if c.pos < c2.pos <= s.len() {
                box_items(s, c2, acc.push(d))
            } else {
                (Outcome::Stuck, c2)
            },
            (o, c2) => (failure(o), c2),
        }
    }
}

/// A box named `name` with the declarations that `r` parsed.
pub open spec fn box_with(name: Seq<char>, r: (Outcome<Seq<InstModel>>, Cursor)) -> (
    Outcome<BoxModel>,
    Cursor,
) {
    match r {
        (Outcome::Parsed(instructions), c) => (
            Outcome::Parsed(BoxModel { name, instructions }),
            c,
        ),
        (o, c) => (failure(o), c),
    }
}

/// `box NAME { inst ... }`
pub open spec fn box_decl(s: Seq<u8>, c: Cursor) -> (Outcome<BoxModel>, Cursor) {
    match expect_word(s, c, "box"@) {
        (Outcome::Parsed(_), c1) => match expect_ident(s, c1) {
            (Outcome::Parsed(name), c2) => match expect_char(s, c2, 123) {
                (Outcome::Parsed(_), c3) => box_with(name, box_items(s, c3, Seq::empty())),
                (o, c3) => (failure(o), c3),
            },
            (o, c2) => (failure(o), c2),
        },
        (o, c1) => (failure(o), c1),
    }
}

// ------------------------------------------------------------ statements
/// The statements of a block after `acc`. The block ends at the end of the
/// input or at `end`; a closing `end` is consumed and kept as a final
/// `Empty` statement. A `,` or `;` after a statement is consumed.
pub open spec fn block_loop(s: Seq<u8>, c: Cursor, end: u8, acc: Seq<StmtModel>) -> (
    Outcome<Seq<StmtModel>>,
    Cursor,
)
    decreases s.len() - c.pos, 4int,
{
    let c1 = skip(s, c);
    proof {
        lemma_skip(s, c);
    }
    if c1.pos >= s.len() {
        (Outcome::Parsed(acc), c1)
    } else if s[c1.pos] == end {
        (Outcome::Parsed(acc.push(StmtModel::Empty)), moved(c1, 1))
    } else {
        match stmt(s, c1) {
            (Outcome::Parsed(st), c2) => {
                let c3 = if at_is(s, c2.pos, 44) || at_is(s, c2.pos, 59) {
                    moved(c2, 1)
                } else {
                    c2
                };
                if c.pos < c3.pos <= s.len() {
                    block_loop(s, c3, end, acc.push(st))
                } else {
                    (Outcome::Stuck, c3)
                }
            },
            (o, c2) => (failure(o), c2),
        }
    }
}

/// One statement: a braced block, or a statement chosen by its first word.
pub open spec fn stmt(s: Seq<u8>, c: Cursor) -> (Outcome<StmtModel>, Cursor)
    decreases s.len() - c.pos, 3int,
{
    let c1 = skip(s, c);
    proof {
        lemma_skip(s, c);
    }
    if at_is(s, c1.pos, 123) {
        match block_loop(s, moved(c1, 1), 125, Seq::empty()) {
            (Outcome::Parsed(b), c2) => (Outcome::Parsed(StmtModel::Block(b)), c2),
            (o, c2) => (failure(o), c2),
        }
    } else {
    match peek_word(s, c1.pos) {
        None => (Outcome::CutsChar, c1),
        Some(n) => if word_is(s, c1.pos, n, "let"@) {
            let_stmt(s, c1)
        } else if word_is(s, c1.pos, n, "caso"@) {
            caso(s, c1)
        } else if word_is(s, c1.pos, n, "retorna"@) {
            retorna(s, c1)
        } else if word_is(s, c1.pos, n, "asm"@) {
            asm_stmt(s, c1)
        } else if word_is(s, c1.pos, n, "loop"@) {
            loop_stmt(s, c1)
        } else if word_is(s, c1.pos, n, "for"@) {
            for_stmt(s, c1)
        } else if word_is(s, c1.pos, n, "ref"@) {
            ref_stmt(s, c1)
        } else {
            match expr_until_semicolon(s, c1) {
                (Outcome::Parsed(e), c2) => (Outcome::Parsed(StmtModel::Expr(e)), c2),
                (o, c2) => (failure(o), c2),
            }
        },
    }
    }
}

/// `caso COND => BODY` or `caso else => BODY`.
pub open spec fn caso(s: Seq<u8>, c: Cursor) -> (Outcome<StmtModel>, Cursor)
    decreases s.len() - c.pos, 2int,
{
    match expect_word(s, c, "caso"@) {
        (Outcome::Parsed(_), c1) => {
            let c2 = skip(s, c1);
            match peek_word(s, c2.pos) {
                None => (Outcome::CutsChar, c2),
                Some(n) => if word_is(s, c2.pos, n, "else"@) {
                    match expect_word(s, moved(c2, n), "=>"@) {
                        (Outcome::Parsed(_), c3) => if c.pos < c3.pos <= s.len() {
                            match caso_body(s, c3) {
                                (Outcome::Parsed(b), c4) => (
                                    Outcome::Parsed(StmtModel::CasoContrario(b)),
                                    c4,
                                ),
                                (o, c4) => (failure(o), c4),
                            }
                        } else {
                            (Outcome::Stuck, c3)
                        },
                        (o, c3) => (failure(o), c3),
                    }
                } else {
                    match expr_until_arrow(s, c2) {
                        (Outcome::Parsed(cond), c3) => match expect_word(s, c3, "=>"@) {
                            (Outcome::Parsed(_), c4) => if c.pos < c4.pos <= s.len() {
                                match caso_body(s, c4) {
                                    (Outcome::Parsed(body), c5) => (
                                        Outcome::Parsed(StmtModel::Caso { cond, body }),
                                        c5,
                                    ),
                                    (o, c5) => (failure(o), c5),
                                }
                            } else {
                                (Outcome::Stuck, c4)
                            },
                            (o, c4) => (failure(o), c4),
                        },
                        (o, c3) => (failure(o), c3),
                    }
                },
            }
        },
        (o, c1) => (failure(o), c1),
    }
}

/// The body of a `caso`: a braced block, a nested `caso`, or an
/// expression.
pub open spec fn caso_body(s: Seq<u8>, c: Cursor) -> (Outcome<Seq<StmtModel>>, Cursor)
    decreases s.len() - c.pos, 4int,
{
    let c1 = skip(s, c);
    proof {
        lemma_skip(s, c);
    }
    if at_is(s, c1.pos, 123) {
        block_loop(s, moved(c1, 1), 125, Seq::empty())
    } else {
        match peek_word(s, c1.pos) {
            None => (Outcome::CutsChar, c1),
            Some(n) => if word_is(s, c1.pos, n, "caso"@) {
                match stmt(s, c1) {
                    (Outcome::Parsed(st), c2) => (Outcome::Parsed(seq![st]), c2),
                    (o, c2) => (failure(o), c2),
                }
            } else {
                match expr_until_semicolon(s, c1) {
                    (Outcome::Parsed(e), c2) => (Outcome::Parsed(seq![StmtModel::Expr(e)]), c2),
                    (o, c2) => (failure(o), c2),
                }
            },
        }
    }
}

/// `loop { BODY }`
pub open spec fn loop_stmt(s: Seq<u8>, c: Cursor) -> (Outcome<StmtModel>, Cursor)
    decreases s.len() - c.pos, 2int,
{
    match expect_word(s, c, "loop"@) {
        (Outcome::Parsed(_), c1) => match expect_char(s, c1, 123) {
            (Outcome::Parsed(_), c2) => if c.pos < c2.pos <= s.len() {
                match block_loop(s, c2, 125, Seq::empty()) {
                    (Outcome::Parsed(b), c3) => (Outcome::Parsed(StmtModel::Loop(b)), c3),
                    (o, c3) => (failure(o), c3),
                }
            } else {
                (Outcome::Stuck, c2)
            },
            (o, c2) => (failure(o), c2),
        },
        (o, c1) => (failure(o), c1),
    }
}

/// `for VAR in ITER { BODY }`
pub open spec fn for_stmt(s: Seq<u8>, c: Cursor) -> (Outcome<StmtModel>, Cursor)
    decreases s.len() - c.pos, 2int,
{
    match expect_word(s, c, "for"@) {
        (Outcome::Parsed(_), c1) => match expect_ident(s, c1) {
            (Outcome::Parsed(var), c2) => match expect_word(s, c2, "in"@) {
                (Outcome::Parsed(_), c3) => match expr_until_brace(s, c3) {
                    (Outcome::Parsed(iter), c4) => match expect_char(s, c4, 123) {
                        (Outcome::Parsed(_), c5) => if c.pos < c5.pos <= s.len() {
                            match block_loop(s, c5, 125, Seq::empty()) {
                                (Outcome::Parsed(body), c6) => (
                                    Outcome::Parsed(StmtModel::For { var, iter, body }),
                                    c6,
                                ),
                                (o, c6) => (failure(o), c6),
                            }
                        } else {
                            (Outcome::Stuck, c5)
                        },
                        (o, c5) => (failure(o), c5),
                    },
                    (o, c4) => (failure(o), c4),
                },
                (o, c3) => (failure(o), c3),
            },
            (o, c2) => (failure(o), c2),
        },
        (o, c1) => (failure(o), c1),
    }
}

/// `let [mut] NAME[: TYPE] [= VALUE]`
pub open spec fn let_stmt(s: Seq<u8>, c: Cursor) -> (Outcome<StmtModel>, Cursor) {
    match expect_word(s, c, "let"@) {
        (Outcome::Parsed(_), c1) => {
            let c2 = skip(s, c1);
            match peek_word(s, c2.pos) {
                None => (Outcome::CutsChar, c2),
                Some(n) => {
                    let is_mut = word_is(s, c2.pos, n, "mut"@);
                    let c3 = if is_mut { moved(c2, n) } else { c2 };
                    match expect_ident(s, c3) {
                        (Outcome::Parsed(name), c4) => match let_type(s, c4) {
                            (Outcome::Parsed(ty), c5) => match let_value(s, skip(s, c5)) {
                                (Outcome::Parsed(value), c6) => (
                                    Outcome::Parsed(StmtModel::Let { name, ty, is_mut, value }),
                                    c6,
                                ),
                                (o, c6) => (failure(o), c6),
                            },
                            (o, c5) => (failure(o), c5),
                        },
                        (o, c4) => (failure(o), c4),
                    }
                },
            }
        },
        (o, c1) => (failure(o), c1),
    }
}

/// `: TYPE` directly at `c`, if there is a colon there.
pub open spec fn let_type(s: Seq<u8>, c: Cursor) -> (Outcome<Option<Seq<char>>>, Cursor) {
    if at_is(s, c.pos, 58) {
        match type_ref(s, moved(c, 1)) {
            (Outcome::Parsed(t), c1) => (Outcome::Parsed(Some(t)), c1),
            (o, c1) => (failure(o), c1),
        }
    } else {
        (Outcome::Parsed(None), c)
    }
}

/// `= VALUE` directly at `c`, if there is an equals sign there.
pub open spec fn let_value(s: Seq<u8>, c: Cursor) -> (Outcome<Option<Seq<char>>>, Cursor) {
    if at_is(s, c.pos, 61) {
        match expr_until_semicolon(s, moved(c, 1)) {
            (Outcome::Parsed(e), c1) => (Outcome::Parsed(Some(e)), c1),
            (o, c1) => (failure(o), c1),
        }
    } else {
        (Outcome::Parsed(None), c)
    }
}

/// `retorna [VALUE]`: no value when `;`, `,` or `}` follows.
pub open spec fn retorna(s: Seq<u8>, c: Cursor) -> (Outcome<StmtModel>, Cursor) {
    match expect_word(s, c, "retorna"@) {
        (Outcome::Parsed(_), c1) => {
            let c2 = skip(s, c1);
            if at_is(s, c2.pos, 59) || at_is(s, c2.pos, 44) || at_is(s, c2.pos, 125) {
                (Outcome::Parsed(StmtModel::Retorna(None)), c2)
            } else {
                match expr_until_semicolon(s, c2) {
                    (Outcome::Parsed(e), c3) => (Outcome::Parsed(StmtModel::Retorna(Some(e))), c3),
                    (o, c3) => (failure(o), c3),
                }
            }
        },
        (o, c1) => (failure(o), c1),
    }
}

/// `ref PATH`
pub open spec fn ref_stmt(s: Seq<u8>, c: Cursor) -> (Outcome<StmtModel>, Cursor) {
    match expect_word(s, c, "ref"@) {
        (Outcome::Parsed(_), c1) => match path(s, c1) {
            (Outcome::Parsed(p), c2) => (Outcome::Parsed(StmtModel::Ref(p)), c2),
            (o, c2) => (failure(o), c2),
        },
        (o, c1) => (failure(o), c1),
    }
}

// ------------------------------------------------------------------- asm
/// Whether the bytes `a` begin with the bytes `p`.
pub open spec fn bytes_start_with(a: Seq<u8>, p: Seq<u8>) -> bool {
    p.len() <= a.len() && a.subrange(0, p.len() as int) == p
}

/// Whether an `asm!` operand is an option or clobber list rather than an
/// operand proper.
pub open spec fn is_clobber(op: Seq<char>) -> bool {
    bytes_start_with(encode_utf8(op), encode_utf8("options("@)) || bytes_start_with(
        encode_utf8(op),
        encode_utf8("clobber_abi"@),
    )
}

/// Where an `asm!` operand that starts before `q` ends: the first `,` or
/// unmatched `)` outside parentheses and string literals, or the end of
/// the input.
pub open spec fn operand_end(s: Seq<u8>, q: int, depth: int, in_str: bool) -> int
    decreases s.len() - q,
{
    if q < 0 || q >= s.len() {
        q
    } else {
        let b = s[q];
        if b == 34 {
            operand_end(s, q + 1, depth, !in_str)
        } else if b == 40 && !in_str {
            operand_end(s, q + 1, depth + 1, in_str)
        } else if b == 41 && !in_str {
            if depth == 0 {
                q
            } else {
                operand_end(s, q + 1, depth - 1, in_str)
            }
        } else if b == 44 && depth == 0 && !in_str {
            q
        } else {
            operand_end(s, q + 1, depth, in_str)
        }
    }
}

/// The `, OPERAND` parts of an `asm!` after `ops` and `clobs`, up to (not
/// including) the closing `)`. A trailing comma is allowed.
pub open spec fn asm_operands(
    s: Seq<u8>,
    c: Cursor,
    ops: Seq<Seq<char>>,
    clobs: Seq<Seq<char>>,
) -> (Outcome<(Seq<Seq<char>>, Seq<Seq<char>>)>, Cursor)
    decreases s.len() - c.pos,
{
    let c1 = skip(s, c);
    if at_is(s, c1.pos, 41) {
        (Outcome::Parsed((ops, clobs)), c1)
    } else {
        match expect_char(s, c1, 44) {
            (Outcome::Parsed(_), c2) => {
                let c3 = skip(s, c2);
                if at_is(s, c3.pos, 41) {
                    (Outcome::Parsed((ops, clobs)), c3)
                } else {
                    let e = operand_end(s, c3.pos, 0, false);
                    proof {
                        lemma_skip(s, c);
                        lemma_skip(s, c1);
                        lemma_skip(s, c2);
                        lemma_operand_end(s, c3.pos, 0, false);
                    }
                    if !is_char_boundary(s, c3.pos) {
                        (Outcome::CutsChar, Cursor { pos: e, line: c3.line })
                    } else {
                        let op = trim_ws(text(s, c3.pos, e));
                        if is_clobber(op) {
                            asm_operands(s, Cursor { pos: e, line: c3.line }, ops, clobs.push(op))
                        } else {
                            asm_operands(s, Cursor { pos: e, line: c3.line }, ops.push(op), clobs)
                        }
                    }
                }
            },
            (o, c2) => (failure(o), c2),
        }
    }
}

/// The `asm!` statement with `template` whose operands `r` parsed, closed
/// by `)`.
pub open spec fn asm_with(
    template: Seq<char>,
    s: Seq<u8>,
    r: (Outcome<(Seq<Seq<char>>, Seq<Seq<char>>)>, Cursor),
) -> (Outcome<StmtModel>, Cursor) {
    match r {
        (Outcome::Parsed((operands, clobbers)), c5) => match expect_char(s, c5, 41) {
            (Outcome::Parsed(_), c6) => (
                Outcome::Parsed(StmtModel::Asm { template, operands, clobbers }),
                c6,
            ),
            (o, c6) => (failure(o), c6),
        },
        (o, c5) => (failure(o), c5),
    }
}

/// `asm!("TEMPLATE", OPERANDS)`
pub open spec fn asm_stmt(s: Seq<u8>, c: Cursor) -> (Outcome<StmtModel>, Cursor) {
    match expect_word(s, c, "asm"@) {
        (Outcome::Parsed(_), c1) => match expect_char(s, c1, 33) {
            (Outcome::Parsed(_), c2) => match expect_char(s, c2, 40) {
                (Outcome::Parsed(_), c3) => match string_literal(s, c3) {
                    (Outcome::Parsed(template), c4) => asm_with(
                        template,
                        s,
                        asm_operands(s, c4, Seq::empty(), Seq::empty()),
                    ),
                    (o, c4) => (failure(o), c4),
                },
                (o, c3) => (failure(o), c3),
            },
            (o, c2) => (failure(o), c2),
        },
        (o, c1) => (failure(o), c1),
    }
}

pub proof fn lemma_operand_end(s: Seq<u8>, q: int, depth: int, in_str: bool)
    ensures
        operand_end(s, q, depth, in_str) >= q,
        0 <= q <= s.len() ==> operand_end(s, q, depth, in_str) <= s.len(),
    decreases s.len() - q,
{
    if 0 <= q < s.len() {
        let b = s[q];
        if b == 34 {
            lemma_operand_end(s, q + 1, depth, !in_str);
        } else if b == 40 && !in_str {
            lemma_operand_end(s, q + 1, depth + 1, in_str);
        } else if b == 41 && !in_str {
            if depth != 0 {
                lemma_operand_end(s, q + 1, depth - 1, in_str);
            }
        } else if b == 44 && depth == 0 && !in_str {
        } else {
            lemma_operand_end(s, q + 1, depth, in_str);
        }
    }
}

// ------------------------------------------------------------- top level
/// `impl BOX::INST ( PARAMS ) [-> TYPE] { BODY }`
pub open spec fn impl_decl(s: Seq<u8>, c: Cursor) -> (Outcome<ImplModel>, Cursor) {
    match expect_word(s, c, "impl"@) {
        (Outcome::Parsed(_), c1) => match expect_ident(s, c1) {
            (Outcome::Parsed(box_name), c2) => match expect_word(s, c2, "::"@) {
                (Outcome::Parsed(_), c3) => match expect_ident(s, c3) {
                    (Outcome::Parsed(inst_name), c4) => match signature(s, c4) {
                        (Outcome::Parsed((params, ret_type)), c5) => match expect_char(s, c5, 123) {
                            (Outcome::Parsed(_), c6) => match block_loop(s, c6, 125, Seq::empty()) {
                                (Outcome::Parsed(body), c7) => (
                                    Outcome::Parsed(
                                        ImplModel { box_name, inst_name, params, ret_type, body },
                                    ),
                                    c7,
                                ),
                                (o, c7) => (failure(o), c7),
                            },
                            (o, c6) => (failure(o), c6),
                        },
                        (o, c5) => (failure(o), c5),
                    },
                    (o, c4) => (failure(o), c4),
                },
                (o, c3) => (failure(o), c3),
            },
            (o, c2) => (failure(o), c2),
        },
        (o, c1) => (failure(o), c1),
    }
}

/// The steps of a flow after `acc`, through the closing `}`.
pub open spec fn flow_steps(s: Seq<u8>, c: Cursor, acc: Seq<Seq<char>>) -> (
    Outcome<Seq<Seq<char>>>,
    Cursor,
)
    decreases s.len() - c.pos,
{
    let c1 = skip(s, c);
    if at_is(s, c1.pos, 125) {
        (Outcome::Parsed(acc), moved(c1, 1))
    } else {
        match expect_ident(s, c1) {
            (Outcome::Parsed(step), c2) => if c.pos < c2.pos <= s.len() {
                flow_steps(s, c2, acc.push(step))
            } else {
                (Outcome::Stuck, c2)
            },
            (o, c2) => (failure(o), c2),
        }
    }
}

/// `flow NAME { STEP ... }`
pub open spec fn flow_decl(s: Seq<u8>, c: Cursor) -> (Outcome<FlowModel>, Cursor) {
    match expect_word(s, c, "flow"@) {
        (Outcome::Parsed(_), c1) => match expect_ident(s, c1) {
            (Outcome::Parsed(name), c2) => match expect_char(s, c2, 123) {
                (Outcome::Parsed(_), c3) => match flow_steps(s, c3, Seq::empty()) {
                    (Outcome::Parsed(steps), c4) => (Outcome::Parsed(FlowModel { name, steps }), c4),
                    (o, c4) => (failure(o), c4),
                },
                (o, c3) => (failure(o), c3),
            },
            (o, c2) => (failure(o), c2),
        },
        (o, c1) => (failure(o), c1),
    }
}

/// The top-level items after `boxes`, `impls` and `flows`, to the end of
/// the input.
pub open spec fn program_loop(
    s: Seq<u8>,
    c: Cursor,
    boxes: Seq<BoxModel>,
    impls: Seq<ImplModel>,
    flows: Seq<FlowModel>,
) -> (Outcome<ProgramModel>, Cursor)
    decreases s.len() - c.pos,
{
    let c1 = skip(s, c);
    if c1.pos >= s.len() {
        (Outcome::Parsed(ProgramModel { boxes, impls, flows }), c1)
    } else {
        match peek_word(s, c1.pos) {
            None => (Outcome::CutsChar, c1),
            Some(n) => if word_is(s, c1.pos, n, "box"@) {
                match box_decl(s, c1) {
                    (Outcome::Parsed(b), c2) => if c.pos < c2.pos <= s.len() {
                        program_loop(s, c2, boxes.push(b), impls, flows)
                    } else {
                        (Outcome::Stuck, c2)
                    },
                    (o, c2) => (failure(o), c2),
                }
            } else if word_is(s, c1.pos, n, "impl"@) {
                match impl_decl(s, c1) {
                    (Outcome::Parsed(i), c2) => if c.pos < c2.pos <= s.len() {
                        program_loop(s, c2, boxes, impls.push(i), flows)
                    } else {
                        (Outcome::Stuck, c2)
                    },
                    (o, c2) => (failure(o), c2),
                }
            } else if word_is(s, c1.pos, n, "flow"@) {
                match flow_decl(s, c1) {
                    (Outcome::Parsed(f), c2) => if c.pos < c2.pos <= s.len() {
                        program_loop(s, c2, boxes, impls, flows.push(f))
                    } else {
                        (Outcome::Stuck, c2)
                    },
                    (o, c2) => (failure(o), c2),
                }
            } else {
                (failed(top_level_msg(text(s, c1.pos, c1.pos + n)), c1), c1)
            },
        }
    }
}

/// The whole input from `c` on: every box, implementation and flow, in
/// order.
pub open spec fn program(s: Seq<u8>, c: Cursor) -> (Outcome<ProgramModel>, Cursor) {
    program_loop(s, c, Seq::empty(), Seq::empty(), Seq::empty())
}
} // verus!
