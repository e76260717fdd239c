//! Properties of the parser and of the renderer that hold for every input.
use vstd::prelude::*;
use vstd::utf8::*;
use crate::grammar::{
    Cursor, Outcome, skip, newlines, line_comment_end, block_comment_end, moved, semicolon_end,
    arrow_end, ident_end, lemma_skip,
};
use crate::model::ProgramModel;
use crate::rules::program;
use crate::parser::cuts_char;
use crate::progress::{all_boundaries, lemma_program_loop};
use crate::shift::{sh, sh_res};
use crate::render::boxes_text;
use crate::ast::Box;
use crate::text::{space_byte, ident_byte};

verus! {

/// The program with no boxes, implementations or flows.
pub open spec fn empty_program() -> ProgramModel {
    ProgramModel { boxes: Seq::empty(), impls: Seq::empty(), flows: Seq::empty() }
}

/// Parsing never comes to a step that does not move forward: from any
/// position in the input the outcome is a program, an error, or a cut
/// character.
pub proof fn law_never_stuck(s: Seq<u8>, c: Cursor)
    requires
        0 <= c.pos <= s.len(),
    ensures
        !(program(s, c).0 is Stuck),
{
    lemma_program_loop(s, c, Seq::empty(), Seq::empty(), Seq::empty());
}

/// A successful parse ends exactly at the end of the input: anything left
/// over that is not whitespace or a comment is an error.
pub proof fn law_success_ends_at_input_end(s: Seq<u8>, c: Cursor)
    requires
        0 <= c.pos <= s.len(),
    ensures
        program(s, c).0 is Parsed ==> program(s, c).1.pos == s.len(),
{
    lemma_program_loop(s, c, Seq::empty(), Seq::empty(), Seq::empty());
}

/// Where every position of the input is a character boundary, parsing
/// never has to cut a character.
pub proof fn law_boundaries_never_cut(s: Seq<u8>, c: Cursor)
    requires
        0 <= c.pos <= s.len(),
        all_boundaries(s),
    ensures
        !cuts_char(s, c),
{
    lemma_program_loop(s, c, Seq::empty(), Seq::empty(), Seq::empty());
}

/// Every position of the encoding of ASCII text is a character boundary.
pub proof fn lemma_ascii_boundaries(cs: Seq<char>)
    requires
        is_ascii_chars(cs),
    ensures
        all_boundaries(encode_utf8(cs)),
{
    let s = encode_utf8(cs);
    encode_utf8_valid_utf8(cs);
    is_ascii_chars_encode_utf8(cs);
    is_char_boundary_start_end_of_seq(s);
    assert forall|p: int| 0 <= p <= s.len() implies #[trigger] is_char_boundary(s, p) by {
        if p < s.len() {
            assert(cs[p] as u8 == s[p]);
            is_char_boundary_iff_not_is_continuation_byte(s, p);
        }
    }
}

/// ASCII input meets the condition of `Parser::parse`: parsing it from
/// any position never has to cut a character.
pub proof fn law_ascii_never_cuts(cs: Seq<char>, c: Cursor)
    requires
        is_ascii_chars(cs),
        0 <= c.pos <= encode_utf8(cs).len(),
    ensures
        !cuts_char(encode_utf8(cs), c),
{
    lemma_ascii_boundaries(cs);
    law_boundaries_never_cut(encode_utf8(cs), c);
}

/// After a successful parse, parsing again finds nothing more: the empty
/// program, with the parser left where it was.
pub proof fn law_parse_again_after_success(s: Seq<u8>, c: Cursor)
    requires
        0 <= c.pos <= s.len(),
        program(s, c).0 is Parsed,
    ensures
        program(s, program(s, c).1) == (Outcome::Parsed(empty_program()), program(s, c).1),
{
    law_success_ends_at_input_end(s, c);
    let c2 = program(s, c).1;
    lemma_skip(s, c2);
    assert(skip(s, c2) == c2);
}

/// Skipping stops only at the end of the input or at a byte that starts
/// neither whitespace, a line feed, `//` nor `/*`.
pub proof fn law_skip_stops_at_code(s: Seq<u8>, c: Cursor)
    requires
        0 <= c.pos <= s.len(),
    ensures
        skip(s, c).pos < s.len() ==> {
            let b = s[skip(s, c).pos];
            &&& b != 10
            &&& !space_byte(b)
            &&& !(b == 47 && skip(s, c).pos + 1 < s.len() && (s[skip(s, c).pos + 1] == 47
                || s[skip(s, c).pos + 1] == 42))
        },
    decreases s.len() - c.pos,
{
    if c.pos < s.len() {
        let b = s[c.pos];
        if b == 10 {
            law_skip_stops_at_code(s, Cursor { pos: c.pos + 1, line: c.line + 1 });
        } else if space_byte(b) {
            law_skip_stops_at_code(s, moved(c, 1));
        } else if b == 47 && c.pos + 1 < s.len() {
            if s[c.pos + 1] == 47 {
                crate::grammar::lemma_line_comment_end(s, c.pos + 2);
                law_skip_stops_at_code(s, Cursor { pos: line_comment_end(s, c.pos + 2), line: c.line });
            } else if s[c.pos + 1] == 42 {
                crate::grammar::lemma_block_comment_end(s, moved(c, 2));
                law_skip_stops_at_code(s, block_comment_end(s, moved(c, 2)));
            }
        }
    }
}

/// Skipping twice gives the same cursor as skipping once.
pub proof fn law_skip_idempotent(s: Seq<u8>, c: Cursor)
    requires
        0 <= c.pos <= s.len(),
    ensures
        skip(s, skip(s, c)) == skip(s, c),
{
    lemma_skip(s, c);
    law_skip_stops_at_code(s, c);
}

/// Leading whitespace and comments change nothing but the line: parsing
/// from `c` is parsing from just after the whitespace and comments there.
pub proof fn law_leading_blanks_skipped(s: Seq<u8>, c: Cursor)
    requires
        0 <= c.pos <= s.len(),
    ensures
        program(s, c) == program(s, skip(s, c)),
{
    law_skip_idempotent(s, c);
    lemma_skip(s, c);
    let c1 = skip(s, c);
    if c1.pos < s.len() {
        crate::grammar::lemma_peek_word(s, c1.pos);
        crate::progress::lemma_box_decl(s, c1);
        crate::progress::lemma_impl_decl(s, c1);
        crate::progress::lemma_flow_decl(s, c1);
    }
}

/// Parsing does not depend on what comes before: with valid UTF-8 text
/// `w` put in front of the input, and the parser started `d` lines
/// further down, the outcome is the same up to positions moved by the
/// length of `w` and lines moved by `d`; an error keeps its message.
pub proof fn law_prefix_moves_positions(w: Seq<u8>, s: Seq<u8>, c: Cursor, d: int)
    requires
        valid_utf8(w),
        valid_utf8(s),
        0 <= c.pos <= s.len(),
    ensures
        program(w + s, sh(c, w.len() as int, d)) == sh_res(program(s, c), w.len() as int, d),
{
    crate::shift::lemma_sh_program_loop(w, s, c, d, Seq::empty(), Seq::empty(), Seq::empty());
}

/// Leading whitespace and comments `w` change nothing but the lines: where
/// skipping them from the start of `w + s` reaches the end of `w` on line
/// `line` and goes on from there, the program is the same as that of `s`,
/// and an error carries the same message with its line moved down by
/// `line - 1`.
pub proof fn law_blank_prefix(w: Seq<u8>, s: Seq<u8>, line: int)
    requires
        valid_utf8(w),
        valid_utf8(s),
        skip(w + s, Cursor { pos: 0, line: 1 }) == skip(w + s, Cursor { pos: w.len() as int, line }),
    ensures
        program(w + s, Cursor { pos: 0, line: 1 }) == sh_res(
            program(s, Cursor { pos: 0, line: 1 }),
            w.len() as int,
            line - 1,
        ),
{
    let t = w + s;
    law_leading_blanks_skipped(t, Cursor { pos: 0, line: 1 });
    law_leading_blanks_skipped(t, Cursor { pos: w.len() as int, line });
    law_prefix_moves_positions(w, s, Cursor { pos: 0, line: 1 }, line - 1);
    assert(sh(Cursor { pos: 0, line: 1 }, w.len() as int, line - 1) == Cursor {
        pos: w.len() as int,
        line,
    });
}

/// The number of `open` bytes minus the number of `close` bytes from `q`
/// up to `e`.
pub open spec fn balance(s: Seq<u8>, q: int, e: int, open: u8, close: u8) -> int
    decreases e - q,
{
    if e <= q {
        0
    } else {
        balance(s, q, e - 1, open, close) + (if s[e - 1] == open {
            1int
        } else {
            0int
        }) - (if s[e - 1] == close {
            1int
        } else {
            0int
        })
    }
}

/// Whether an expression starting at `q` may end at `k`: a `;`, `,` or
/// line feed with as many `(` as `)` and as many `{` as `}` before it.
pub open spec fn expr_stop(s: Seq<u8>, q: int, k: int) -> bool {
    &&& (s[k] == 59 || s[k] == 44 || s[k] == 10)
    &&& balance(s, q, k, 40, 41) == 0
    &&& balance(s, q, k, 123, 125) == 0
}

proof fn lemma_semicolon_least(s: Seq<u8>, q: int, r: int)
    requires
        0 <= q <= r <= s.len(),
        forall|k: int| q <= k < r ==> !#[trigger] expr_stop(s, q, k),
    ensures
        ({
            let e = semicolon_end(s, r, balance(s, q, r, 40, 41), balance(s, q, r, 123, 125));
            &&& r <= e <= s.len()
            &&& e < s.len() ==> expr_stop(s, q, e)
            &&& forall|k: int| q <= k < e ==> !#[trigger] expr_stop(s, q, k)
        }),
    decreases s.len() - r,
{
    if r < s.len() {
        let p = balance(s, q, r, 40, 41);
        let b = balance(s, q, r, 123, 125);
        assert(balance(s, q, r + 1, 40, 41) == p + (if s[r] == 40 { 1int } else { 0int }) - (
        if s[r] == 41 {
            1int
        } else {
            0int
        }));
        assert(balance(s, q, r + 1, 123, 125) == b + (if s[r] == 123 { 1int } else { 0int }) - (
        if s[r] == 125 {
            1int
        } else {
            0int
        }));
        if !((s[r] == 59 || s[r] == 44 || s[r] == 10) && p == 0 && b == 0) {
            assert(!expr_stop(s, q, r));
            lemma_semicolon_least(s, q, r + 1);
        }
    }
}

/// An expression ending at `;`, `,` or a line feed ends at the first such
/// byte outside parentheses and braces, or at the end of the input.
pub proof fn law_expression_end_is_least(s: Seq<u8>, q: int)
    requires
        0 <= q <= s.len(),
    ensures
        q <= semicolon_end(s, q, 0, 0) <= s.len(),
        semicolon_end(s, q, 0, 0) < s.len() ==> expr_stop(s, q, semicolon_end(s, q, 0, 0)),
        forall|k: int| q <= k < semicolon_end(s, q, 0, 0) ==> !#[trigger] expr_stop(s, q, k),
{
    lemma_semicolon_least(s, q, q);
}

/// Input that holds only whitespace and comments parses to the empty
/// program.
pub proof fn law_blank_input_is_empty(s: Seq<u8>, c: Cursor)
    requires
        skip(s, c).pos >= s.len(),
    ensures
        program(s, c) == (Outcome::Parsed(empty_program()), skip(s, c)),
{
}

proof fn lemma_line_comment_lines(s: Seq<u8>, q: int)
    requires
        0 <= q <= s.len(),
    ensures
        newlines(s, line_comment_end(s, q)) == newlines(s, q),
    decreases s.len() - q,
{
    if 0 <= q < s.len() && s[q] != 10 {
        lemma_line_comment_lines(s, q + 1);
    }
}

proof fn lemma_block_comment_lines(s: Seq<u8>, c: Cursor)
    requires
        0 <= c.pos <= s.len(),
    ensures
        block_comment_end(s, c).line == c.line + newlines(s, block_comment_end(s, c).pos)
            - newlines(s, c.pos),
    decreases s.len() - c.pos,
{
    if 0 <= c.pos && c.pos + 1 < s.len() {
        let line = if s[c.pos] == 10 { c.line + 1 } else { c.line };
        if s[c.pos] == 42 && s[c.pos + 1] == 47 {
            assert(newlines(s, c.pos + 2) == newlines(s, c.pos + 1));
        } else {
            lemma_block_comment_lines(s, Cursor { pos: c.pos + 1, line });
        }
    }
}

/// Skipping whitespace and comments advances the line number by exactly
/// the number of line feeds skipped.
pub proof fn law_skip_counts_lines(s: Seq<u8>, c: Cursor)
    requires
        0 <= c.pos <= s.len(),
    ensures
        skip(s, c).line == c.line + newlines(s, skip(s, c).pos) - newlines(s, c.pos),
    decreases s.len() - c.pos,
{
    if c.pos < s.len() {
        let b = s[c.pos];
        assert(newlines(s, c.pos + 1) == newlines(s, c.pos) + (if b == 10 { 1int } else { 0int }));
        if b == 10 {
            law_skip_counts_lines(s, Cursor { pos: c.pos + 1, line: c.line + 1 });
        } else if space_byte(b) {
            law_skip_counts_lines(s, moved(c, 1));
        } else if b == 47 && c.pos + 1 < s.len() {
            assert(newlines(s, c.pos + 2) == newlines(s, c.pos + 1) + (if s[c.pos + 1] == 10 {
                1int
            } else {
                0int
            }));
            if s[c.pos + 1] == 47 {
                crate::grammar::lemma_line_comment_end(s, c.pos + 2);
                lemma_line_comment_lines(s, c.pos + 2);
                law_skip_counts_lines(s, Cursor { pos: line_comment_end(s, c.pos + 2), line: c.line });
            } else if s[c.pos + 1] == 42 {
                crate::grammar::lemma_block_comment_end(s, moved(c, 2));
                lemma_block_comment_lines(s, moved(c, 2));
                law_skip_counts_lines(s, block_comment_end(s, moved(c, 2)));
            }
        }
    }
}

/// Whether an expression starting at `q` may end at `k` before `=>`: a
/// `=>` with as many `(` as `)` before it.
pub open spec fn arrow_stop(s: Seq<u8>, q: int, k: int) -> bool {
    &&& s[k] == 61
    &&& k + 1 < s.len()
    &&& s[k + 1] == 62
    &&& balance(s, q, k, 40, 41) == 0
}

proof fn lemma_arrow_least(s: Seq<u8>, q: int, r: int)
    requires
        0 <= q <= r <= s.len(),
        forall|k: int| q <= k < r ==> !#[trigger] arrow_stop(s, q, k),
    ensures
        ({
            let e = arrow_end(s, r, balance(s, q, r, 40, 41));
            &&& r <= e <= s.len()
            &&& e < s.len() ==> arrow_stop(s, q, e)
            &&& forall|k: int| q <= k < e ==> !#[trigger] arrow_stop(s, q, k)
        }),
    decreases s.len() - r,
{
    if r < s.len() {
        let p = balance(s, q, r, 40, 41);
        assert(balance(s, q, r + 1, 40, 41) == p + (if s[r] == 40 { 1int } else { 0int }) - (
        if s[r] == 41 {
            1int
        } else {
            0int
        }));
        if !(s[r] == 61 && p == 0 && r + 1 < s.len() && s[r + 1] == 62) {
            assert(!arrow_stop(s, q, r));
            lemma_arrow_least(s, q, r + 1);
        }
    }
}

/// A condition ending at `=>` ends at the first `=>` outside parentheses,
/// or at the end of the input.
pub proof fn law_condition_end_is_least(s: Seq<u8>, q: int)
    requires
        0 <= q <= s.len(),
    ensures
        q <= arrow_end(s, q, 0) <= s.len(),
        arrow_end(s, q, 0) < s.len() ==> arrow_stop(s, q, arrow_end(s, q, 0)),
        forall|k: int| q <= k < arrow_end(s, q, 0) ==> !#[trigger] arrow_stop(s, q, k),
{
    lemma_arrow_least(s, q, q);
}

/// A word of identifier bytes ends at the first byte from `q` on that is
/// not an identifier byte, or at the end of the input.
pub proof fn law_word_end_is_least(s: Seq<u8>, q: int)
    requires
        0 <= q <= s.len(),
    ensures
        q <= ident_end(s, q) <= s.len(),
        ident_end(s, q) < s.len() ==> !ident_byte(s[ident_end(s, q)]),
        forall|k: int| q <= k < ident_end(s, q) ==> ident_byte(#[trigger] s[k]),
    decreases s.len() - q,
{
    if q < s.len() && ident_byte(s[q]) {
        law_word_end_is_least(s, q + 1);
    }
}

/// Whether `ch` is an ASCII letter, digit or `_`.
pub open spec fn ascii_ident_char(ch: char) -> bool {
    let v = ch as u32;
    (48 <= v <= 57) || (65 <= v <= 90) || (97 <= v <= 122) || v == 95
}

/// The shape of a type name: `!`, `[T]`, one of `&mut `, `&`, `*const `,
/// `*mut ` or `*` before a type name, or a nonempty run of ASCII letters,
/// digits and `_`.
pub open spec fn type_shape(t: Seq<char>) -> bool
    decreases t.len(),
{
    if t.len() == 0 {
        false
    } else if t == seq!['!'] {
        true
    } else if t[0] == '[' {
        t.len() >= 2 && t[t.len() - 1] == ']' && type_shape(t.subrange(1, t.len() - 1))
    } else if t[0] == '&' || t[0] == '*' {
        ||| (t.len() > 5 && (t.subrange(0, 5) == "&mut "@ || t.subrange(0, 5) == "*mut "@)
            && type_shape(t.subrange(5, t.len() as int)))
        ||| (t.len() > 7 && t.subrange(0, 7) == "*const "@ && type_shape(
            t.subrange(7, t.len() as int),
        ))
        ||| type_shape(t.subrange(1, t.len() as int))
    } else {
        forall|i: int| 0 <= i < t.len() ==> ascii_ident_char(#[trigger] t[i])
    }
}

/// The text of ASCII input between two positions is the characters there.
proof fn lemma_ascii_text(cs: Seq<char>, a: int, e: int)
    requires
        is_ascii_chars(cs),
        0 <= a <= e <= cs.len(),
    ensures
        crate::grammar::text(encode_utf8(cs), a, e) == cs.subrange(a, e),
{
    let sub = cs.subrange(a, e);
    is_ascii_chars_encode_utf8(cs);
    assert(is_ascii_chars(sub));
    is_ascii_chars_encode_utf8(sub);
    assert(encode_utf8(cs).subrange(a, e) =~= encode_utf8(sub));
    encode_utf8_decode_utf8(sub);
}

/// Prefixing a type name with one of the pointer and reference prefixes
/// keeps its shape.
proof fn lemma_prefixed_shape(p: Seq<char>, t: Seq<char>)
    requires
        type_shape(t),
        p == "&mut "@ || p == "&"@ || p == "*const "@ || p == "*mut "@ || p == "*"@,
    ensures
        type_shape(p + t),
{
    reveal_strlit("&mut ");
    reveal_strlit("&");
    reveal_strlit("*const ");
    reveal_strlit("*mut ");
    reveal_strlit("*");
    let u = p + t;
    if p.len() == 5 {
        assert(u.subrange(0, 5) =~= p);
        assert(u.subrange(5, u.len() as int) =~= t);
    } else if p.len() == 7 {
        assert(u.subrange(0, 7) =~= p);
        assert(u.subrange(7, u.len() as int) =~= t);
    } else {
        assert(u.subrange(1, u.len() as int) =~= t);
    }
}

/// On ASCII input every type name that parses has the shape of a type
/// name; whitespace and comments between its parts are left out.
pub proof fn law_type_name_shape(cs: Seq<char>, c: Cursor)
    requires
        is_ascii_chars(cs),
        0 <= c.pos <= encode_utf8(cs).len(),
    ensures
        crate::grammar::type_ref(encode_utf8(cs), c).0 matches Outcome::Parsed(t) ==> type_shape(t),
    decreases encode_utf8(cs).len() - c.pos,
{
    let s = encode_utf8(cs);
    is_ascii_chars_encode_utf8(cs);
    lemma_skip(s, c);
    let c1 = skip(s, c);
    if crate::grammar::at_is(s, c1.pos, 33) {
        reveal_strlit("!");
        assert("!"@ =~= seq!['!']);
    } else if crate::grammar::at_is(s, c1.pos, 91) {
        law_type_name_shape(cs, moved(c1, 1));
        match crate::grammar::type_ref(s, moved(c1, 1)) {
            (Outcome::Parsed(t), c2) => {
                reveal_strlit("[");
                reveal_strlit("]");
                let u = "["@ + t + "]"@;
                assert(u.subrange(1, u.len() - 1) =~= t);
            },
            _ => {},
        }
    } else if crate::grammar::at_is(s, c1.pos, 38) || crate::grammar::at_is(s, c1.pos, 42) {
        let amp = crate::grammar::at_is(s, c1.pos, 38);
        lemma_skip(s, moved(c1, 1));
        let c2 = skip(s, moved(c1, 1));
        crate::grammar::lemma_peek_word(s, c2.pos);
        match crate::grammar::peek_word(s, c2.pos) {
            None => {},
            Some(n) => {
                let is_mut = crate::grammar::word_is(s, c2.pos, n, "mut"@);
                let is_const = !amp && crate::grammar::word_is(s, c2.pos, n, "const"@);
                let c3 = if is_mut || is_const {
                    moved(c2, n)
                } else {
                    c2
                };
                let prefix = if amp {
                    if is_mut {
                        "&mut "@
                    } else {
                        "&"@
                    }
                } else if is_const {
                    "*const "@
                } else if is_mut {
                    "*mut "@
                } else {
                    "*"@
                };
                law_type_name_shape(cs, c3);
                match crate::grammar::type_ref(s, c3) {
                    (Outcome::Parsed(t), _) => {
                        lemma_prefixed_shape(prefix, t);
                    },
                    _ => {},
                }
            },
        }
    } else {
        law_skip_idempotent(s, c);
        let e = ident_end(s, c1.pos);
        law_word_end_is_least(s, c1.pos);
        if e > c1.pos && is_char_boundary(s, c1.pos) && is_char_boundary(s, e) {
            lemma_ascii_text(cs, c1.pos, e);
            let t = cs.subrange(c1.pos, e);
            assert forall|i: int| 0 <= i < t.len() implies ascii_ident_char(#[trigger] t[i]) by {
                assert(ident_byte(s[c1.pos + i]));
                assert(cs[c1.pos + i] as u8 == s[c1.pos + i]);
            }
            assert(t[0] != '!' && t[0] != '[' && t[0] != '&' && t[0] != '*') by {
                assert(ident_byte(s[c1.pos]));
                assert(cs[c1.pos] as u8 == s[c1.pos]);
            }
            assert(t != seq!['!']);
        }
    }
}

/// The operands of an `asm!` are split in source order: what was already
/// collected stays in front, every later operand proper is no option or
/// clobber list, and every later option or clobber list is one.
pub proof fn law_asm_operands_split(
    s: Seq<u8>,
    c: Cursor,
    ops: Seq<Seq<char>>,
    clobs: Seq<Seq<char>>,
)
    ensures
        crate::rules::asm_operands(s, c, ops, clobs).0 matches Outcome::Parsed((o, k)) ==> {
            &&& o.len() >= ops.len() && o.subrange(0, ops.len() as int) == ops
            &&& k.len() >= clobs.len() && k.subrange(0, clobs.len() as int) == clobs
            &&& forall|i: int| ops.len() <= i < o.len() ==> !crate::rules::is_clobber(#[trigger] o[i])
            &&& forall|j: int| clobs.len() <= j < k.len() ==> crate::rules::is_clobber(#[trigger] k[j])
        },
    decreases s.len() - c.pos,
{
    let c1 = skip(s, c);
    lemma_skip(s, c);
    if !crate::grammar::at_is(s, c1.pos, 41) {
        match crate::grammar::expect_char(s, c1, 44) {
            (Outcome::Parsed(_), c2) => {
                let c3 = skip(s, c2);
                lemma_skip(s, c1);
                lemma_skip(s, c2);
                if !crate::grammar::at_is(s, c3.pos, 41) {
                    let e = crate::rules::operand_end(s, c3.pos, 0, false);
                    crate::rules::lemma_operand_end(s, c3.pos, 0, false);
                    if is_char_boundary(s, c3.pos) {
                        let op = crate::text::trim_ws(crate::grammar::text(s, c3.pos, e));
                        let next = Cursor { pos: e, line: c3.line };
                        if crate::rules::is_clobber(op) {
                            law_asm_operands_split(s, next, ops, clobs.push(op));
                            match crate::rules::asm_operands(s, next, ops, clobs.push(op)).0 {
                                Outcome::Parsed((o, k)) => {
                                    assert(k.subrange(0, clobs.len() as int) =~= k.subrange(
                                        0,
                                        clobs.len() + 1int,
                                    ).subrange(0, clobs.len() as int));
                                    assert(k[clobs.len() as int] == clobs.push(op)[clobs.len() as int]);
                                },
                                _ => {},
                            }
                        } else {
                            law_asm_operands_split(s, next, ops.push(op), clobs);
                            match crate::rules::asm_operands(s, next, ops.push(op), clobs).0 {
                                Outcome::Parsed((o, k)) => {
                                    assert(o.subrange(0, ops.len() as int) =~= o.subrange(
                                        0,
                                        ops.len() + 1int,
                                    ).subrange(0, ops.len() as int));
                                    assert(o[ops.len() as int] == ops.push(op)[ops.len() as int]);
                                },
                                _ => {},
                            }
                        }
                    }
                }
            },
            _ => {},
        }
    }
}

/// Rendering boxes one after another gives the texts of the boxes one
/// after another.
pub proof fn law_render_concatenates(a: Seq<Box>, b: Seq<Box>)
    ensures
        boxes_text(a + b) == boxes_text(a) + boxes_text(b),
    decreases b.len(),
{
    if b.len() == 0 {
        assert(a + b =~= a);
    } else {
        law_render_concatenates(a, b.drop_last());
        assert((a + b).drop_last() =~= a + b.drop_last());
    }
}

/// Rendering one more parameter appends `, ` (unless it is the first)
/// and then `NAME`, followed by `: TYPE` where a type is given: the
/// parameters are joined with exactly one `, ` between each pair.
pub proof fn law_params_text_push(ps: Seq<(String, String)>, p: (String, String))
    ensures
        crate::render::params_text(ps.push(p)) == crate::render::params_text(ps) + (if ps.len()
            > 0 {
            ", "@
        } else {
            Seq::empty()
        }) + p.0@ + (if p.1@.len() > 0 {
            ": "@ + p.1@
        } else {
            Seq::empty()
        }),
{
    assert(ps.push(p).drop_last() =~= ps);
}

/// The text of a parameter: `NAME`, and `: TYPE` where a type is given.
pub open spec fn param_text(p: (String, String)) -> Seq<char> {
    p.0@ + (if p.1@.len() > 0 {
        ": "@ + p.1@
    } else {
        Seq::empty()
    })
}

/// Two nonempty parameter lists rendered after one another are joined by
/// exactly one `, `.
pub proof fn law_params_text_join(a: Seq<(String, String)>, b: Seq<(String, String)>)
    requires
        a.len() > 0,
        b.len() > 0,
    ensures
        crate::render::params_text(a + b) == crate::render::params_text(a) + ", "@
            + crate::render::params_text(b),
    decreases b.len(),
{
    let p = b.last();
    let b0 = b.drop_last();
    assert((a + b).drop_last() =~= a + b0);
    assert(a + b =~= (a + b0).push(p));
    assert(b =~= b0.push(p));
    law_params_text_push(a + b0, p);
    law_params_text_push(b0, p);
    if b0.len() > 0 {
        law_params_text_join(a, b0);
    } else {
        assert(a + b0 =~= a);
        assert(crate::render::params_text(b0) == Seq::<char>::empty());
    }
}

/// A parsed implementation has the parameters and the return type that
/// the parameter list and return type after its name parse to, the same
/// rule as for a declaration: whatever the parameters, a `-> TYPE` is
/// kept.
pub proof fn law_impl_signature(s: Seq<u8>, c: Cursor)
    requires
        0 <= c.pos <= s.len(),
    ensures
        crate::rules::impl_decl(s, c).0 matches Outcome::Parsed(i) ==> exists|c4: Cursor|
            c.pos < c4.pos <= crate::rules::impl_decl(s, c).1.pos && (
            #[trigger] crate::rules::signature(s, c4)).0 == Outcome::Parsed(
                (i.params, i.ret_type),
            ),
{
    crate::progress::lemma_impl_decl(s, c);
    let c1 = crate::grammar::expect_word(s, c, "impl"@).1;
    crate::progress::lemma_expect_word(s, c, "impl"@);
    if crate::grammar::expect_word(s, c, "impl"@).0 is Parsed {
        crate::progress::lemma_expect_ident(s, c1);
        let c2 = crate::grammar::expect_ident(s, c1).1;
        if crate::grammar::expect_ident(s, c1).0 is Parsed {
            crate::progress::lemma_expect_word(s, c2, "::"@);
            let c3 = crate::grammar::expect_word(s, c2, "::"@).1;
            if crate::grammar::expect_word(s, c2, "::"@).0 is Parsed {
                crate::progress::lemma_expect_ident(s, c3);
                let c4 = crate::grammar::expect_ident(s, c3).1;
                if crate::grammar::expect_ident(s, c3).0 is Parsed {
                    crate::progress::lemma_signature(s, c4);
                    let c5 = crate::rules::signature(s, c4).1;
                    if crate::rules::signature(s, c4).0 is Parsed {
                        crate::progress::lemma_expect_char(s, c5, 123);
                        let c6 = crate::grammar::expect_char(s, c5, 123).1;
                        if crate::grammar::expect_char(s, c5, 123).0 is Parsed {
                            crate::progress::lemma_block_loop(s, c6, 125, Seq::empty());
                        }
                    }
                }
            }
        }
    }
}

/// A parsed declaration has the parameters and the return type that the
/// parameter list and return type after its name parse to.
pub proof fn law_inst_signature(s: Seq<u8>, c: Cursor)
    requires
        0 <= c.pos <= s.len(),
    ensures
        crate::rules::inst_decl(s, c).0 matches Outcome::Parsed(d) ==> exists|c2: Cursor|
            c.pos < c2.pos <= crate::rules::inst_decl(s, c).1.pos && (
            #[trigger] crate::rules::signature(s, c2)).0 == Outcome::Parsed(
                (d.params, d.ret_type),
            ),
{
    reveal(crate::rules::inst_decl);
    crate::progress::lemma_inst_decl(s, c);
    let c1 = crate::grammar::expect_word(s, c, "inst"@).1;
    crate::progress::lemma_expect_word(s, c, "inst"@);
    if crate::grammar::expect_word(s, c, "inst"@).0 is Parsed {
        crate::progress::lemma_expect_ident(s, c1);
        let c2 = crate::grammar::expect_ident(s, c1).1;
        if crate::grammar::expect_ident(s, c1).0 is Parsed {
            crate::progress::lemma_signature(s, c2);
        }
    }
}

/// Whether `*/` starts at `k`.
pub open spec fn closes_at(s: Seq<u8>, k: int) -> bool {
    0 <= k && k + 1 < s.len() && s[k] == 42 && s[k + 1] == 47
}

proof fn lemma_newlines_step(s: Seq<u8>, k: int)
    requires
        0 <= k < s.len(),
    ensures
        newlines(s, k + 1) == newlines(s, k) + (if s[k] == 10 { 1int } else { 0int }),
{
}

proof fn lemma_comment_closed(s: Seq<u8>, k: int, q: int, line: int)
    requires
        0 <= k <= q,
        closes_at(s, q),
        forall|j: int| k <= j < q ==> !#[trigger] closes_at(s, j),
    ensures
        block_comment_end(s, Cursor { pos: k, line }) == (Cursor {
            pos: q + 2,
            line: line + newlines(s, q) - newlines(s, k),
        }),
    decreases q - k,
{
    if k < q {
        assert(!closes_at(s, k));
        lemma_newlines_step(s, k);
        let line2 = if s[k] == 10 { line + 1 } else { line };
        lemma_comment_closed(s, k + 1, q, line2);
    }
}

proof fn lemma_comment_open(s: Seq<u8>, k: int, line: int)
    requires
        0 <= k <= s.len(),
        forall|j: int| k <= j ==> !#[trigger] closes_at(s, j),
    ensures
        block_comment_end(s, Cursor { pos: k, line }) == (if k + 1 < s.len() {
            Cursor { pos: s.len() - 1, line: line + newlines(s, s.len() - 1) - newlines(s, k) }
        } else {
            Cursor { pos: k, line }
        }),
    decreases s.len() - k,
{
    if k + 1 < s.len() {
        assert(!closes_at(s, k));
        lemma_newlines_step(s, k);
        let line2 = if s[k] == 10 { line + 1 } else { line };
        lemma_comment_open(s, k + 1, line2);
    }
}

/// A block comment is skipped as a whole: from `/*`, skipping goes on
/// right after the first `*/` that follows, whatever other `*` bytes the
/// comment holds, with the line moved down by the line feeds inside.
pub proof fn law_block_comment_skipped(s: Seq<u8>, c: Cursor, q: int)
    requires
        0 <= c.pos,
        c.pos + 2 <= q,
        s[c.pos] == 47,
        s[c.pos + 1] == 42,
        closes_at(s, q),
        forall|j: int| c.pos + 2 <= j < q ==> !#[trigger] closes_at(s, j),
    ensures
        skip(s, c) == skip(
            s,
            Cursor { pos: q + 2, line: c.line + newlines(s, q) - newlines(s, c.pos) },
        ),
{
    lemma_newlines_step(s, c.pos);
    lemma_newlines_step(s, c.pos + 1);
    lemma_comment_closed(s, c.pos + 2, q, c.line);
}

/// An unclosed block comment runs to the end of the input: from `/*` with
/// no `*/` after it, skipping goes on from the last byte (or the end of
/// the input when the comment's text is empty), with the line moved down
/// by the line feeds before it.
pub proof fn law_unclosed_block_comment(s: Seq<u8>, c: Cursor)
    requires
        0 <= c.pos,
        c.pos + 1 < s.len(),
        s[c.pos] == 47,
        s[c.pos + 1] == 42,
        forall|j: int| c.pos + 2 <= j ==> !#[trigger] closes_at(s, j),
    ensures
        skip(s, c) == (if c.pos + 3 < s.len() {
            skip(
                s,
                Cursor {
                    pos: s.len() - 1,
                    line: c.line + newlines(s, s.len() - 1) - newlines(s, c.pos),
                },
            )
        } else {
            skip(s, Cursor { pos: c.pos + 2, line: c.line })
        }),
{
    lemma_newlines_step(s, c.pos);
    lemma_newlines_step(s, c.pos + 1);
    lemma_comment_open(s, c.pos + 2, c.line);
}

/// The return type of a signature is what follows its closing `)`,
/// whatever the parameters: `Some(TYPE)` after `->`, else `None`.
pub proof fn law_signature_return_type(s: Seq<u8>, c: Cursor)
    requires
        0 <= c.pos <= s.len(),
    ensures
        crate::rules::signature(s, c).0 matches Outcome::Parsed((ps, rt)) ==> exists|c3: Cursor|
            c.pos < c3.pos <= s.len() && s[c3.pos - 1] == 41 && (
            #[trigger] crate::rules::ret_type(s, c3)).0 == Outcome::Parsed(rt),
{
    crate::progress::lemma_expect_char(s, c, 40);
    let c1 = crate::grammar::expect_char(s, c, 40).1;
    if crate::grammar::expect_char(s, c, 40).0 is Parsed {
        crate::progress::lemma_params_loop(s, c1, Seq::empty());
        let c2 = crate::rules::params_loop(s, c1, Seq::empty()).1;
        if crate::rules::params_loop(s, c1, Seq::empty()).0 is Parsed {
            crate::progress::lemma_expect_char(s, c2, 41);
            lemma_skip(s, c2);
            let c3 = crate::grammar::expect_char(s, c2, 41).1;
            if crate::grammar::expect_char(s, c2, 41).0 is Parsed {
                assert(s[c3.pos - 1] == 41);
            }
        }
    }
}

} // verus!

