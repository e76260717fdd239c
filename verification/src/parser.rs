//! A recursive-descent parser for Hako declarations and implementations.
use vstd::prelude::*;
use vstd::string::StringSliceAdditionalSpecFns;
use vstd::utf8::*;
use crate::ast::{Flow, HakoBox, HakoImpl, HakoInstDecl, HakoParam, HakoProgram, HakoStmt};
use crate::rules::program;
use crate::model::{params_model, opt_chars, stmts_model, stmt_model, strings_chars};
use crate::grammar::{
    Cursor, ErrorModel, Outcome, newlines, skip, line_comment_end, block_comment_end, ident_end,
    peek_word, word_is, text, expect_ident, expect_word, expect_char, lemma_skip, lemma_ident_end,
    lemma_peek_word, type_ref,
};
use crate::text::{
    is_space_byte, is_alnum_byte, trim_ws, trim_str, expected_char_message, decimal,
    push_decimal,
};

verus! {

broadcast use group_utf8_lib;

/// A parse error: a message and the line it was found on.
#[derive(Debug)]
pub struct ParseError {
    pub msg: String,
    pub line: usize,
}

impl View for ParseError {
    type V = ErrorModel;

    open spec fn view(&self) -> ErrorModel {
        ErrorModel { msg: self.msg@, line: self.line as int }
    }
}

impl ParseError {
    /// `line N: MESSAGE`
    pub fn describe(&self) -> (r: String)
        ensures
            r@ == "line "@ + decimal(self.line as nat) + ": "@ + self.msg@,
    {
        let mut r = String::from_str("line ");
        push_decimal(&mut r, self.line);
        r.append(": ");
        r.append(self.msg.as_str());
        r
    }
}

/// Why a parsing step stopped: an error, or text that would have to be
/// cut inside a multi-byte character.
pub enum Halt {
    Error(ParseError),
    CutsChar,
}


/// The models of boxes, in order.
pub open spec fn boxes_model(v: Seq<HakoBox>) -> Seq<crate::model::BoxModel> {
    v.map_values(|b: HakoBox| b@)
}

/// The models of flows, in order.
pub open spec fn flows_model(v: Seq<Flow>) -> Seq<crate::model::FlowModel> {
    v.map_values(|f: Flow| f@)
}

/// The models of implementations, in order.
pub open spec fn impls_model(v: Seq<HakoImpl>) -> Seq<crate::model::ImplModel> {
    v.map_values(|i: HakoImpl| i@)
}

/// Whether parsing the input from `c` would cut the text of a word, an
/// identifier or an expression inside a multi-byte character: where an
/// identifier ends just before a UTF-8 continuation byte, or where an
/// unterminated block comment leaves the parser inside a character.
pub open spec fn cuts_char(s: Seq<u8>, c: Cursor) -> bool {
    program(s, c).0 is CutsChar
}

/// Whether `r`, with the parser left at `c`, is the outcome `out`.
pub open spec fn parsed_as(
    r: Result<HakoProgram, ParseError>,
    c: Cursor,
    out: (Outcome<crate::model::ProgramModel>, Cursor),
) -> bool {
    &&& c == out.1
    &&& match r {
        Ok(p) => out.0 == Outcome::Parsed(p@),
        Err(e) => out.0 == Outcome::<crate::model::ProgramModel>::Failed(e@),
    }
}

/// The models of declarations, in order.
pub open spec fn insts_model(v: Seq<HakoInstDecl>) -> Seq<crate::model::InstModel> {
    v.map_values(|i: HakoInstDecl| i@)
}

/// Whether the result `r` of a step is the outcome `o`, the values being
/// compared through `f`.
pub open spec fn agrees<T, M>(r: Result<T, Halt>, o: Outcome<M>, f: spec_fn(T) -> M) -> bool {
    match r {
        Ok(v) => o == Outcome::Parsed(f(v)),
        Err(Halt::Error(e)) => o == Outcome::<M>::Failed(e@),
        Err(Halt::CutsChar) => o is CutsChar,
    }
}

/// The parser: the input, the byte position and the current line.
pub struct Parser {
    input: String,
    pos: usize,
    line: usize,
}

/// The smaller of `a` and `b`.
pub open spec fn min(a: int, b: int) -> int {
    if a <= b {
        a
    } else {
        b
    }
}

pub proof fn lemma_newlines_bound(s: Seq<u8>, k: int)
    ensures
        newlines(s, k) <= if k < 0 { 0 } else { k },
    decreases k,
{
    if k > 0 && s.len() >= k {
        lemma_newlines_bound(s, k - 1);
    }
}

pub proof fn lemma_newlines_mono(s: Seq<u8>, a: int, b: int)
    requires
        0 <= a <= b <= s.len(),
    ensures
        newlines(s, a) <= newlines(s, b),
    decreases b - a,
{
    if a < b {
        lemma_newlines_mono(s, a, b - 1);
    }
}

/// A position that is a character boundary stays one in the rest of the
/// input after another boundary.
proof fn lemma_boundary_in_rest(s: Seq<u8>, a: int, b: int)
    requires
        valid_utf8(s),
        0 <= a <= b <= s.len(),
        is_char_boundary(s, a),
        is_char_boundary(s, b),
    ensures
        valid_utf8(s.subrange(a, s.len() as int)),
        is_char_boundary(s.subrange(a, s.len() as int), b - a),
{
    let r = s.subrange(a, s.len() as int);
    valid_utf8_split(s, a);
    if b == s.len() {
        is_char_boundary_start_end_of_seq(r);
    } else {
        is_char_boundary_iff_not_is_continuation_byte(s, b);
        assert(r[b - a] == s[b]);
        is_char_boundary_iff_not_is_continuation_byte(r, b - a);
    }
}

/// A position holding an ASCII byte is a character boundary.
proof fn lemma_ascii_boundary(s: Seq<u8>, p: int)
    requires
        valid_utf8(s),
        0 <= p < s.len(),
        s[p] < 128,
    ensures
        is_char_boundary(s, p),
{
    is_char_boundary_iff_not_is_continuation_byte(s, p);
}


/// The position after an ASCII byte is a character boundary.
proof fn lemma_after_ascii(s: Seq<u8>, k: int)
    requires
        valid_utf8(s),
        0 <= k < s.len(),
        s[k] < 128,
    ensures
        is_char_boundary(s, k + 1),
{
    if k + 1 == s.len() {
        is_char_boundary_start_end_of_seq(s);
    } else {
        lemma_ascii_boundary(s, k);
        let r = s.subrange(k, s.len() as int);
        valid_utf8_split(s, k);
        assert(valid_utf8(r));
        assert(length_of_first_scalar(r) == 1);
        let t = pop_first_scalar(r);
        assert(t =~= s.subrange(k + 1, s.len() as int));
        assert(valid_utf8(t));
        assert(t[0] == s[k + 1]);
        is_char_boundary_iff_not_is_continuation_byte(s, k + 1);
    }
}

/// The word peeked at a position starts and ends on character boundaries.
proof fn lemma_peek_word_bounds(s: Seq<u8>, p: int)
    requires
        valid_utf8(s),
        0 <= p <= s.len(),
        peek_word(s, p) is Some,
    ensures
        is_char_boundary(s, p),
        is_char_boundary(s, p + peek_word(s, p)->0),
        p + peek_word(s, p)->0 <= s.len(),
{
    lemma_peek_word(s, p);
    lemma_ident_end(s, p);
    if crate::grammar::pair_at(s, p, 58, 58) || crate::grammar::pair_at(s, p, 45, 62)
        || crate::grammar::pair_at(s, p, 61, 62) {
        lemma_after_ascii(s, p + 1);
    }
}

/// Every character takes at least one byte.
pub proof fn lemma_encode_len(cs: Seq<char>)
    ensures
        encode_utf8(cs).len() >= cs.len(),
    decreases cs.len(),
{
    if cs.len() > 0 {
        lemma_encode_len(cs.drop_first());
    }
}

/// Appending a statement appends its model.
proof fn lemma_stmts_push(v: Seq<HakoStmt>, x: HakoStmt)
    ensures
        stmts_model(v.push(x)) == stmts_model(v).push(stmt_model(x)),
{
    assert(v.push(x).drop_last() =~= v);
}

/// Whether the bytes of `t` begin with the bytes of `pat`.
fn has_prefix(t: &str, pat: &str) -> (r: bool)
    ensures
        r == crate::rules::bytes_start_with(encode_utf8(t@), encode_utf8(pat@)),
{
    let tb = t.as_bytes();
    let pb = pat.as_bytes();
    if pb.len() > tb.len() {
        return false;
    }
    let mut i: usize = 0;
    while i < pb.len()
        invariant
            tb@ == encode_utf8(t@),
            pb@ == encode_utf8(pat@),
            pb@.len() <= tb@.len(),
            0 <= i <= pb@.len(),
            forall|j: int| 0 <= j < i ==> tb@[j] == pb@[j],
        decreases pb@.len() - i,
    {
        if tb[i] != pb[i] {
            assert(tb@.subrange(0, pb@.len() as int)[i as int] != pb@[i as int]);
            return false;
        }
        i = i + 1;
    }
    assert(tb@.subrange(0, pb@.len() as int) =~= pb@);
    true
}

impl Parser {
    /// The step from `old` to this parser returned `r` and followed the
    /// outcome `out`, values compared through `f`.
    pub open spec fn follows<T, M>(
        self,
        old: Parser,
        r: Result<T, Halt>,
        out: (Outcome<M>, Cursor),
        f: spec_fn(T) -> M,
    ) -> bool {
        &&& self.bytes() == old.bytes()
        &&& agrees(r, out.0, f)
        &&& (!(out.0 is CutsChar) ==> self.cursor() == out.1)
        &&& old.cursor().pos <= self.cursor().pos
        &&& old.cursor().line <= self.cursor().line
        &&& (r matches Err(Halt::Error(e)) ==> e.line == self.cursor().line)
    }

    #[verifier::type_invariant]
    spec fn inv(self) -> bool {
        let s = encode_utf8(self.input@);
        &&& s.len() < usize::MAX
        &&& self.pos <= s.len() + 1
        &&& 1 <= self.line <= 1 + newlines(s, min(self.pos as int, s.len() as int))
    }

    /// The input's UTF-8 bytes.
    pub closed spec fn bytes(&self) -> Seq<u8> {
        encode_utf8(self.input@)
    }

    /// The byte position and the line.
    pub closed spec fn cursor(&self) -> Cursor {
        Cursor { pos: self.pos as int, line: self.line as int }
    }

    /// A parser at the start of `input`, on line 1.
    pub fn new(input: &str) -> (p: Parser)
        requires
            input.spec_bytes().len() < usize::MAX,
        ensures
            p.bytes() == input.spec_bytes(),
            p.cursor() == (Cursor { pos: 0, line: 1 }),
    {
        Parser { input: input.to_owned(), pos: 0, line: 1 }
    }

    fn len(&self) -> (n: usize)
        ensures
            n == self.bytes().len(),
    {
        proof {
            use_type_invariant(self);
        }
        self.input.as_str().len()
    }

    /// Whether byte position `i` is a character boundary.
    fn boundary(&self, i: usize) -> (r: bool)
        ensures
            r == is_char_boundary(self.bytes(), i as int),
    {
        self.input.as_str().is_char_boundary(i)
    }

    /// The byte at the current position, if any.
    fn peek_char(&self) -> (r: Option<u8>)
        ensures
            r == (if 0 <= self.pos < self.bytes().len() {
                Some(self.bytes()[self.pos as int])
            } else {
                None::<u8>
            }),
    {
        let bytes = self.input.as_str().as_bytes();
        if self.pos < bytes.len() {
            Some(bytes[self.pos])
        } else {
            None
        }
    }

    /// Moves to byte position `p`, keeping the line.
    fn advance_to(&mut self, p: usize)
        requires
            old(self).pos <= p <= old(self).bytes().len() + 1,
        ensures
            final(self).bytes() == old(self).bytes(),
            final(self).cursor() == (Cursor { pos: p as int, line: old(self).line as int }),
    {
        proof {
            use_type_invariant(&*self);
            let s = self.bytes();
            lemma_newlines_mono(s, min(self.pos as int, s.len() as int), min(p as int, s.len() as int));
        }
        self.pos = p;
    }

    fn skip_whitespace_and_comments(&mut self)
        ensures
            final(self).bytes() == old(self).bytes(),
            final(self).cursor() == skip(old(self).bytes(), old(self).cursor()),
    {
        proof {
            use_type_invariant(&*self);
        }
        let ghost s = self.bytes();
        let ghost c0 = self.cursor();
        let bytes = self.input.as_str().as_bytes();
        let len = bytes.len();
        let mut pos = self.pos;
        let mut line = self.line;
        if pos > len {
            proof {
                lemma_skip(s, c0);
            }
            return ;
        }
        loop
            invariant
                bytes@ == s,
                len == s.len(),
                s.len() < usize::MAX,
                c0.pos <= pos <= len,
                1 <= line <= 1 + newlines(s, pos as int),
                skip(s, Cursor { pos: pos as int, line: line as int }) == skip(s, c0),
            ensures
                c0.pos <= pos <= len,
                1 <= line <= 1 + newlines(s, pos as int),
                skip(s, c0) == (Cursor { pos: pos as int, line: line as int }),
            decreases len - pos,
        {
            if pos >= len {
                break ;
            }
            proof {
                lemma_newlines_bound(s, pos as int);
            }
            let b = bytes[pos];
            if b == 10 {
                pos = pos + 1;
                line = line + 1;
            } else if is_space_byte(b) {
                pos = pos + 1;
                proof {
                    lemma_newlines_mono(s, pos - 1, pos as int);
                }
            } else if b == 47 && pos + 1 < len {
                let n = bytes[pos + 1];
                if n == 47 {
                    let ghost start = pos + 2;
                    pos = pos + 2;
                    proof {
                        lemma_newlines_mono(s, pos - 2, pos as int);
                    }
                    while pos < len && bytes[pos] != 10
                        invariant
                            bytes@ == s,
                            len == s.len(),
                            start <= pos <= len,
                            1 <= line <= 1 + newlines(s, pos as int),
                            line_comment_end(s, pos as int) == line_comment_end(s, start),
                        decreases len - pos,
                    {
                        pos = pos + 1;
                        proof {
                            lemma_newlines_mono(s, pos - 1, pos as int);
                        }
                    }
                } else if n == 42 {
                    let ghost start = Cursor { pos: pos + 2, line: line as int };
                    pos = pos + 2;
                    proof {
                        lemma_newlines_mono(s, pos - 2, pos as int);
                    }
                    while pos + 1 < len
                        invariant_except_break
                            block_comment_end(s, Cursor { pos: pos as int, line: line as int })
                                == block_comment_end(s, start),
                        invariant
                            bytes@ == s,
                            len == s.len(),
                            s.len() < usize::MAX,
                            start.pos <= pos <= len,
                            1 <= line <= 1 + newlines(s, pos as int),
                        ensures
                            start.pos <= pos <= len,
                            1 <= line <= 1 + newlines(s, pos as int),
                            block_comment_end(s, start) == (Cursor {
                                pos: pos as int,
                                line: line as int,
                            }),
                        decreases len - pos,
                    {
                        proof {
                            lemma_newlines_bound(s, pos as int);
                        }
                        if bytes[pos] == 10 {
                            line = line + 1;
                        }
                        if bytes[pos] == 42 && bytes[pos + 1] == 47 {
                            pos = pos + 2;
                            proof {
                                lemma_newlines_mono(s, pos - 1, pos as int);
                            }
                            break ;
                        }
                        pos = pos + 1;
                    }
                } else {
                    break ;
                }
            } else {
                break ;
            }
        }
        proof {
            lemma_newlines_mono(s, min(c0.pos, s.len() as int), pos as int);
        }
        self.pos = pos;
        self.line = line;
    }

    /// The byte length of the word at the current position (see
    /// `grammar::peek_word`).
    fn peek_word(&self) -> (r: Option<usize>)
        ensures
            r matches Some(n) ==> peek_word(self.bytes(), self.pos as int) == Some(n as int),
            r is None ==> peek_word(self.bytes(), self.pos as int) is None,
    {
        proof {
            use_type_invariant(self);
        }
        let ghost s = self.bytes();
        let st = self.input.as_str();
        let bytes = st.as_bytes();
        let len = bytes.len();
        let start = self.pos;
        if !st.is_char_boundary(start) {
            return None;
        }
        if start + 1 < len && ((bytes[start] == 58 && bytes[start + 1] == 58) || (bytes[start]
            == 45 && bytes[start + 1] == 62) || (bytes[start] == 61 && bytes[start + 1] == 62)) {
            return Some(2);
        }
        let end = self.ident_end_from(start);
        proof {
            lemma_ident_end(s, start as int);
        }
        if end > start && !st.is_char_boundary(end) {
            None
        } else {
            Some(end - start)
        }
    }

    /// Whether the `n` bytes at the current position encode `kw`.
    fn word_is(&self, n: usize, kw: &str) -> (r: bool)
        requires
            self.pos + n <= self.bytes().len(),
        ensures
            r == word_is(self.bytes(), self.pos as int, n as int, kw@),
    {
        proof {
            use_type_invariant(self);
        }
        let ghost s = self.bytes();
        let bytes = self.input.as_str().as_bytes();
        let kb = kw.as_bytes();
        if kb.len() != n {
            return false;
        }
        let start = self.pos;
        let mut i: usize = 0;
        while i < n
            invariant
                bytes@ == s,
                kb@ == encode_utf8(kw@),
                kb@.len() == n,
                s == self.bytes(),
                start == self.pos,
                s.len() < usize::MAX,
                start + n <= s.len(),
                0 <= i <= n,
                forall|j: int| 0 <= j < i ==> s[start + j] == kb@[j],
            decreases n - i,
        {
            if bytes[start + i] != kb[i] {
                assert(s.subrange(start as int, start + n)[i as int] != kb@[i as int]);
                assert(s.subrange(start as int, start + n) != encode_utf8(kw@));
                return false;
            }
            i = i + 1;
        }
        assert(s.subrange(start as int, start + n) =~= kb@);
        true
    }

    /// Whether the two bytes at the current position are `a` and `b`.
    fn pair_here(&self, a: u8, b: u8) -> (r: bool)
        ensures
            r == crate::grammar::pair_at(self.bytes(), self.pos as int, a, b),
    {
        proof {
            use_type_invariant(self);
        }
        let bytes = self.input.as_str().as_bytes();
        self.pos < bytes.len() && self.pos + 1 < bytes.len() && bytes[self.pos] == a && bytes[self.pos + 1] == b
    }

    /// The text between two character boundaries.
    fn text(&self, a: usize, b: usize) -> (r: String)
        requires
            a <= b <= self.bytes().len(),
            is_char_boundary(self.bytes(), a as int),
            is_char_boundary(self.bytes(), b as int),
        ensures
            r@ == text(self.bytes(), a as int, b as int),
    {
        let mid = self.slice(a, b);
        mid.to_owned()
    }

    /// The text between two character boundaries, without its leading and
    /// trailing whitespace.
    fn trimmed_text(&self, a: usize, b: usize) -> (r: String)
        requires
            a <= b <= self.bytes().len(),
            is_char_boundary(self.bytes(), a as int),
            is_char_boundary(self.bytes(), b as int),
        ensures
            r@ == trim_ws(text(self.bytes(), a as int, b as int)),
    {
        let mid = self.slice(a, b);
        trim_str(mid).to_owned()
    }

    fn slice(&self, a: usize, b: usize) -> (r: &str)
        requires
            a <= b <= self.bytes().len(),
            is_char_boundary(self.bytes(), a as int),
            is_char_boundary(self.bytes(), b as int),
        ensures
            r@ == text(self.bytes(), a as int, b as int),
    {
        let ghost s = self.bytes();
        let st = self.input.as_str();
        let (_, rest) = st.split_at(a);
        proof {
            lemma_boundary_in_rest(s, a as int, b as int);
            assert(rest.spec_bytes() =~= s.subrange(a as int, s.len() as int));
        }
        let (mid, _) = rest.split_at(b - a);
        proof {
            assert(mid.spec_bytes() =~= s.subrange(a as int, b as int));
            encode_utf8_decode_utf8(mid@);
        }
        mid
    }

    /// An error at the current line.
    fn error(&self, msg: String) -> (e: ParseError)
        ensures
            e@ == (ErrorModel { msg: msg@, line: self.line as int }),
    {
        ParseError { msg, line: self.line }
    }

    /// The end of the run of identifier bytes at `start`.
    fn ident_end_from(&self, start: usize) -> (end: usize)
        ensures
            end as int == ident_end(self.bytes(), start as int),
    {
        proof {
            use_type_invariant(self);
            lemma_ident_end(self.bytes(), start as int);
        }
        let ghost s = self.bytes();
        let bytes = self.input.as_str().as_bytes();
        let len = bytes.len();
        let mut end = start;
        while end < len && (is_alnum_byte(bytes[end]) || bytes[end] == 95)
            invariant
                bytes@ == s,
                len == s.len(),
                start <= end,
                end < len ==> end >= 0,
                ident_end(s, end as int) == ident_end(s, start as int),
            decreases len - end,
        {
            end = end + 1;
        }
        end
    }

    fn expect_ident(&mut self) -> (r: Result<String, Halt>)
        ensures
            final(self).follows(
                *old(self),
                r,
                expect_ident(old(self).bytes(), old(self).cursor()),
                |v: String| v@,
            ),
            r is Ok ==> old(self).pos < final(self).pos <= final(self).bytes().len(),
    {
        proof {
            lemma_skip(self.bytes(), self.cursor());
        }
        self.skip_whitespace_and_comments();
        proof {
            use_type_invariant(&*self);
            lemma_ident_end(self.bytes(), self.pos as int);
        }
        let start = self.pos;
        let end = self.ident_end_from(start);
        if end == start {
            return Err(Halt::Error(self.error(String::from_str("expected identifier"))));
        }
        if !self.boundary(start) || !self.boundary(end) {
            return Err(Halt::CutsChar);
        }
        let t = self.text(start, end);
        self.advance_to(end);
        Ok(t)
    }

    fn expect_word(&mut self, kw: &str) -> (r: Result<(), Halt>)
        ensures
            final(self).follows(
                *old(self),
                r,
                expect_word(old(self).bytes(), old(self).cursor(), kw@),
                |v: ()| v,
            ),
            r is Ok ==> old(self).pos <= final(self).pos <= final(self).bytes().len(),
            r is Ok && kw@.len() > 0 ==> old(self).pos < final(self).pos,
    {
        proof {
            lemma_skip(self.bytes(), self.cursor());
        }
        self.skip_whitespace_and_comments();
        proof {
            use_type_invariant(&*self);
        }
        let n = match self.peek_word() {
            None => {
                return Err(Halt::CutsChar);
            },
            Some(n) => n,
        };
        proof {
            lemma_peek_word_bounds(self.bytes(), self.pos as int);
        }
        if self.word_is(n, kw) {
            proof {
                lemma_encode_len(kw@);
            }
            let p = self.pos + n;
            self.advance_to(p);
            Ok(())
        } else {
            let got = self.text(self.pos, self.pos + n);
            let mut m = String::from_str("expected '");
            m.append(kw);
            m.append("', got '");
            m.append(got.as_str());
            m.append("'");
            Err(Halt::Error(self.error(m)))
        }
    }

    fn expect_char(&mut self, ch: u8) -> (r: Result<(), Halt>)
        requires
            ch < 128,
        ensures
            final(self).follows(
                *old(self),
                r,
                expect_char(old(self).bytes(), old(self).cursor(), ch),
                |v: ()| v,
            ),
            r is Ok ==> old(self).pos < final(self).pos <= final(self).bytes().len(),
    {
        proof {
            lemma_skip(self.bytes(), self.cursor());
        }
        self.skip_whitespace_and_comments();
        proof {
            use_type_invariant(&*self);
        }
        match self.peek_char() {
            Some(b) => {
                if b == ch {
                    let p = self.pos + 1;
                    self.advance_to(p);
                    return Ok(());
                }
            },
            None => {},
        }
        let m = expected_char_message(ch, self.peek_char());
        Err(Halt::Error(self.error(m)))
    }

    /// Whether the byte at the current position is `b`.
    fn at_char(&self, b: u8) -> (r: bool)
        ensures
            r == crate::grammar::at_is(self.bytes(), self.pos as int, b),
    {
        match self.peek_char() {
            Some(c) => c == b,
            None => false,
        }
    }

    fn parse_type_name(&mut self) -> (r: Result<String, Halt>)
        ensures
            final(self).follows(
                *old(self),
                r,
                type_ref(old(self).bytes(), old(self).cursor()),
                |v: String| v@,
            ),
            r is Ok ==> old(self).pos < final(self).pos <= final(self).bytes().len(),
        decreases old(self).bytes().len() - old(self).pos,
    {
        proof {
            lemma_skip(self.bytes(), self.cursor());
        }
        self.skip_whitespace_and_comments();
        proof {
            use_type_invariant(&*self);
        }
        if self.at_char(33) {
            let p = self.pos + 1;
            self.advance_to(p);
            return Ok(String::from_str("!"));
        }
        if self.at_char(91) {
            let p = self.pos + 1;
            self.advance_to(p);
            let inner = match self.parse_type_name() {
                Ok(v) => v,
                Err(e) => {
                    return Err(e);
                },
            };
            match self.expect_char(93) {
                Ok(_) => {},
                Err(e) => {
                    return Err(e);
                },
            }
            let mut t = String::from_str("[");
            t.append(inner.as_str());
            t.append("]");
            return Ok(t);
        }
        if self.at_char(38) || self.at_char(42) {
            let amp = self.at_char(38);
            let p = self.pos + 1;
            self.advance_to(p);
            proof {
                lemma_skip(self.bytes(), self.cursor());
            }
            self.skip_whitespace_and_comments();
            proof {
                use_type_invariant(&*self);
            }
            let n = match self.peek_word() {
                None => {
                    return Err(Halt::CutsChar);
                },
                Some(n) => n,
            };
            proof {
                lemma_peek_word_bounds(self.bytes(), self.pos as int);
            }
            let is_mut = self.word_is(n, "mut");
            let is_const = !amp && self.word_is(n, "const");
            if is_mut || is_const {
                let p = self.pos + n;
                self.advance_to(p);
            }
            let mut t = if amp {
                if is_mut {
                    String::from_str("&mut ")
                } else {
                    String::from_str("&")
                }
            } else if is_const {
                String::from_str("*const ")
            } else if is_mut {
                String::from_str("*mut ")
            } else {
                String::from_str("*")
            };
            let rest = match self.parse_type_name() {
                Ok(v) => v,
                Err(e) => {
                    return Err(e);
                },
            };
            t.append(rest.as_str());
            return Ok(t);
        }
        self.expect_ident()
    }

    fn parse_string_literal(&mut self) -> (r: Result<String, Halt>)
        ensures
            final(self).follows(
                *old(self),
                r,
                crate::grammar::string_literal(old(self).bytes(), old(self).cursor()),
                |v: String| v@,
            ),
            r is Ok ==> old(self).pos < final(self).pos <= final(self).bytes().len(),
    {
        proof {
            lemma_skip(self.bytes(), self.cursor());
        }
        self.skip_whitespace_and_comments();
        proof {
            use_type_invariant(&*self);
        }
        if !self.at_char(34) {
            return Err(Halt::Error(self.error(String::from_str("expected string literal"))));
        }
        let ghost s = self.bytes();
        let ghost line = self.line as int;
        let ghost target = crate::grammar::string_literal(old(self).bytes(), old(self).cursor());
        let len = self.len();
        let start = self.pos + 1;
        let mut q = start;
        assert(target == crate::grammar::string_body(s, start as int, start as int, line));
        loop
            invariant
                s == self.bytes(),
                s == old(self).bytes(),
                old(self).pos <= self.pos,
                old(self).line <= self.line,
                len == s.len(),
                s.len() < usize::MAX,
                self.pos + 1 == start,
                old(self).pos <= self.pos < len,
                s[start - 1] == 34,
                line == self.line,
                start <= q <= len + 1,
                crate::grammar::string_body(s, start as int, q as int, line) == target,
                target == crate::grammar::string_literal(old(self).bytes(), old(self).cursor()),
            decreases len + 1 - q,
        {
            if q >= len {
                let e = self.error(String::from_str("unterminated string literal"));
                self.advance_to(q);
                return Err(Halt::Error(e));
            }
            let b = self.input.as_str().as_bytes()[q];
            if b == 34 {
                proof {
                    lemma_after_ascii(s, start - 1);
                    lemma_ascii_boundary(s, q as int);
                }
                let t = self.text(start, q);
                self.advance_to(q + 1);
                return Ok(t);
            }
            if b == 92 {
                q = q + 2;
            } else {
                q = q + 1;
            }
        }
    }

    fn parse_path(&mut self) -> (r: Result<String, Halt>)
        ensures
            final(self).follows(
                *old(self),
                r,
                crate::grammar::path(old(self).bytes(), old(self).cursor()),
                |v: String| v@,
            ),
            r is Ok ==> old(self).pos < final(self).pos <= final(self).bytes().len(),
    {
        let ghost s = self.bytes();
        let ghost c0 = self.cursor();
        let mut p = match self.expect_ident() {
            Ok(v) => v,
            Err(e) => {
                return Err(e);
            },
        };
        proof {
            use_type_invariant(&*self);
        }
        loop
            invariant_except_break
                crate::grammar::path_rest(s, self.cursor(), p@) == crate::grammar::path(s, c0),
            invariant
                s == self.bytes(),
                s == old(self).bytes(),
                old(self).pos <= self.pos,
                old(self).line <= self.line,
                c0 == old(self).cursor(),
                s.len() < usize::MAX,
                c0.pos < self.pos <= s.len(),
            ensures
                c0.pos < self.pos <= s.len(),
                crate::grammar::path(s, c0) == (Outcome::Parsed(p@), self.cursor()),
            decreases s.len() - self.pos,
        {
            let ghost c_head = self.cursor();
            proof {
                lemma_skip(s, self.cursor());
            }
            self.skip_whitespace_and_comments();
            match self.peek_word() {
                None => {
                    return Err(Halt::CutsChar);
                },
                Some(_) => {},
            }
            if self.pair_here(58, 58) {
                let q = self.pos + 2;
                self.advance_to(q);
                let id = match self.expect_ident() {
                    Ok(v) => v,
                    Err(e) => {
                        return Err(e);
                    },
                };
                p.append("::");
                p.append(id.as_str());
            } else {
                break ;
            }
        }
        Ok(p)
    }

    fn parse_expr_until_semicolon(&mut self) -> (r: Result<String, Halt>)
        ensures
            final(self).follows(
                *old(self),
                r,
                crate::grammar::expr_until_semicolon(old(self).bytes(), old(self).cursor()),
                |v: String| v@,
            ),
            r is Ok ==> old(self).pos <= final(self).pos <= final(self).bytes().len(),
            r is Ok && old(self).pos == final(self).pos && final(self).pos < final(self).bytes().len()
                ==> {
                let b = final(self).bytes()[final(self).pos as int];
                b == 59 || b == 44 || b == 10
            },
    {
        proof {
            use_type_invariant(&*self);
        }
        let ghost s = self.bytes();
        let start = self.pos;
        if !self.boundary(start) {
            return Err(Halt::CutsChar);
        }
        let len = self.len();
        let mut q = start;
        let mut parens: i128 = 0;
        let mut braces: i128 = 0;
        {
            let bytes = self.input.as_str().as_bytes();
            while q < len
                invariant
                    bytes@ == s,
                    len == s.len(),
                    start <= q <= len,
                    len < usize::MAX,
                    -(q - start) <= parens <= q - start,
                    -(q - start) <= braces <= q - start,
                    crate::grammar::semicolon_end(s, q as int, parens as int, braces as int)
                        == crate::grammar::semicolon_end(s, start as int, 0, 0),
                ensures
                    start <= q <= len,
                    crate::grammar::semicolon_end(s, start as int, 0, 0) == q,
                    q < len ==> (s[q as int] == 59 || s[q as int] == 44 || s[q as int] == 10),
                decreases len - q,
            {
                let b = bytes[q];
                if b == 40 {
                    parens = parens + 1;
                } else if b == 41 {
                    parens = parens - 1;
                } else if b == 123 {
                    braces = braces + 1;
                } else if b == 125 {
                    braces = braces - 1;
                } else if (b == 59 || b == 44 || b == 10) && parens == 0 && braces == 0 {
                    break ;
                }
                q = q + 1;
            }
        }
        proof {
            if q < len {
                lemma_ascii_boundary(s, q as int);
            }
        }
        let t = self.trimmed_text(start, q);
        self.advance_to(q);
        Ok(t)
    }

    fn parse_expr_until_arrow(&mut self) -> (r: Result<String, Halt>)
        ensures
            final(self).follows(
                *old(self),
                r,
                crate::grammar::expr_until_arrow(old(self).bytes(), old(self).cursor()),
                |v: String| v@,
            ),
            r is Ok ==> old(self).pos <= final(self).pos <= final(self).bytes().len(),
    {
        proof {
            use_type_invariant(&*self);
        }
        let ghost s = self.bytes();
        let start = self.pos;
        if !self.boundary(start) {
            return Err(Halt::CutsChar);
        }
        let len = self.len();
        let mut q = start;
        let mut parens: i128 = 0;
        {
            let bytes = self.input.as_str().as_bytes();
            while q < len
                invariant
                    bytes@ == s,
                    len == s.len(),
                    start <= q <= len,
                    len < usize::MAX,
                    -(q - start) <= parens <= q - start,
                    crate::grammar::arrow_end(s, q as int, parens as int)
                        == crate::grammar::arrow_end(s, start as int, 0),
                ensures
                    start <= q <= len,
                    crate::grammar::arrow_end(s, start as int, 0) == q,
                    q < len ==> s[q as int] == 61,
                decreases len - q,
            {
                let b = bytes[q];
                if b == 40 {
                    parens = parens + 1;
                } else if b == 41 {
                    parens = parens - 1;
                } else if b == 61 && parens == 0 {
                    if q + 1 < len && bytes[q + 1] == 62 {
                        break ;
                    }
                }
                q = q + 1;
            }
        }
        proof {
            if q < len {
                lemma_ascii_boundary(s, q as int);
            }
        }
        let t = self.trimmed_text(start, q);
        self.advance_to(q);
        Ok(t)
    }

    fn parse_expr_until_brace(&mut self) -> (r: Result<String, Halt>)
        ensures
            final(self).follows(
                *old(self),
                r,
                crate::grammar::expr_until_brace(old(self).bytes(), old(self).cursor()),
                |v: String| v@,
            ),
            r is Ok ==> old(self).pos <= final(self).pos <= final(self).bytes().len(),
    {
        proof {
            use_type_invariant(&*self);
        }
        let ghost s = self.bytes();
        let start = self.pos;
        if !self.boundary(start) {
            return Err(Halt::CutsChar);
        }
        let len = self.len();
        let mut q = start;
        {
            let bytes = self.input.as_str().as_bytes();
            while q < len && bytes[q] != 123
                invariant
                    bytes@ == s,
                    len == s.len(),
                    start <= q <= len,
                    crate::grammar::brace_end(s, q as int) == crate::grammar::brace_end(
                        s,
                        start as int,
                    ),
                decreases len - q,
            {
                q = q + 1;
            }
        }
        proof {
            if q < len {
                lemma_ascii_boundary(s, q as int);
            }
        }
        let t = self.trimmed_text(start, q);
        self.advance_to(q);
        Ok(t)
    }

    fn parse_params(&mut self) -> (r: Result<Vec<HakoParam>, Halt>)
        ensures
            final(self).follows(
                *old(self),
                r,
                crate::rules::params_loop(old(self).bytes(), old(self).cursor(), Seq::empty()),
                |v: Vec<HakoParam>| params_model(v@),
            ),
            r is Ok ==> old(self).pos <= final(self).pos <= final(self).bytes().len(),
    {
        proof {
            use_type_invariant(&*self);
        }
        let ghost s = self.bytes();
        let ghost c0 = self.cursor();
        let mut params: Vec<HakoParam> = Vec::new();
        assert(params_model(params@) =~= Seq::empty());
        loop
            invariant_except_break
                crate::rules::params_loop(s, self.cursor(), params_model(params@))
                    == crate::rules::params_loop(s, c0, Seq::empty()),
            invariant
                s == self.bytes(),
                s == old(self).bytes(),
                old(self).pos <= self.pos,
                old(self).line <= self.line,
                c0 == old(self).cursor(),
                s.len() < usize::MAX,
                c0.pos <= self.pos <= s.len() + 1,
                params.len() > 0 ==> c0.pos < self.pos <= s.len(),
            ensures
                crate::rules::params_loop(s, c0, Seq::empty()) == (
                    Outcome::Parsed(params_model(params@)),
                    self.cursor(),
                ),
                c0.pos <= self.pos <= s.len(),
            decreases s.len() + 1 - self.pos,
        {
            let ghost c_head = self.cursor();
            let ghost acc = params_model(params@);
            proof {
                lemma_skip(s, c_head);
            }
            self.skip_whitespace_and_comments();
            if self.at_char(41) {
                break ;
            }
            if params.len() > 0 {
                match self.expect_char(44) {
                    Ok(_) => {},
                    Err(e) => {
                        return Err(e);
                    },
                }
                proof {
                    lemma_skip(s, self.cursor());
                }
                self.skip_whitespace_and_comments();
            }
            if self.at_char(41) {
                break ;
            }
            let name = match self.expect_ident() {
                Ok(v) => v,
                Err(e) => {
                    return Err(e);
                },
            };
            let ty = match self.parse_param_type() {
                Ok(v) => v,
                Err(e) => {
                    return Err(e);
                },
            };
            let ghost param = HakoParam { name, ty };
            params.push(HakoParam { name, ty });
            proof {
                assert(params_model(params@) =~= acc.push(param@));
            }
        }
        Ok(params)
    }

    /// `: TYPE`, or the empty type when no colon follows.
    fn parse_param_type(&mut self) -> (r: Result<String, Halt>)
        ensures
            final(self).follows(
                *old(self),
                r,
                crate::rules::param_type(old(self).bytes(), old(self).cursor()),
                |v: String| v@,
            ),
            r is Ok ==> old(self).pos <= final(self).pos,
            r is Ok && old(self).pos <= old(self).bytes().len() ==> final(self).pos <= final(self).bytes().len(),
    {
        proof {
            lemma_skip(self.bytes(), self.cursor());
        }
        self.skip_whitespace_and_comments();
        proof {
            use_type_invariant(&*self);
        }
        if self.at_char(58) {
            let p = self.pos + 1;
            self.advance_to(p);
            self.parse_type_name()
        } else {
            Ok(String::new())
        }
    }

    /// An optional `-> TYPE`.
    fn parse_ret_type(&mut self) -> (r: Result<Option<String>, Halt>)
        ensures
            final(self).follows(
                *old(self),
                r,
                crate::rules::ret_type(old(self).bytes(), old(self).cursor()),
                |v: Option<String>| opt_chars(v),
            ),
            r is Ok ==> old(self).pos <= final(self).pos,
            r is Ok && old(self).pos <= old(self).bytes().len() ==> final(self).pos <= final(self).bytes().len(),
    {
        proof {
            lemma_skip(self.bytes(), self.cursor());
        }
        self.skip_whitespace_and_comments();
        match self.peek_word() {
            None => {
                return Err(Halt::CutsChar);
            },
            Some(_) => {},
        }
        proof {
            use_type_invariant(&*self);
        }
        if self.pair_here(45, 62) {
            let p = self.pos + 2;
            self.advance_to(p);
            match self.parse_type_name() {
                Ok(t) => Ok(Some(t)),
                Err(e) => Err(e),
            }
        } else {
            Ok(None)
        }
    }

    fn parse_inst_decl(&mut self) -> (r: Result<HakoInstDecl, Halt>)
        ensures
            final(self).follows(
                *old(self),
                r,
                crate::rules::inst_decl(old(self).bytes(), old(self).cursor()),
                |v: HakoInstDecl| v@,
            ),
            r is Ok ==> old(self).pos < final(self).pos <= final(self).bytes().len(),
    {
        reveal(crate::rules::inst_decl);
        match self.expect_word("inst") {
            Ok(_) => {},
            Err(e) => {
                return Err(e);
            },
        }
        let name = match self.expect_ident() {
            Ok(v) => v,
            Err(e) => {
                return Err(e);
            },
        };
        match self.expect_char(40) {
            Ok(_) => {},
            Err(e) => {
                return Err(e);
            },
        }
        let params = match self.parse_params() {
            Ok(v) => v,
            Err(e) => {
                return Err(e);
            },
        };
        match self.expect_char(41) {
            Ok(_) => {},
            Err(e) => {
                return Err(e);
            },
        }
        let ret_type = match self.parse_ret_type() {
            Ok(v) => v,
            Err(e) => {
                return Err(e);
            },
        };
        Ok(HakoInstDecl { name, params, ret_type })
    }

    fn parse_box(&mut self) -> (r: Result<HakoBox, Halt>)
        ensures
            final(self).follows(
                *old(self),
                r,
                crate::rules::box_decl(old(self).bytes(), old(self).cursor()),
                |v: HakoBox| v@,
            ),
            r is Ok ==> old(self).pos < final(self).pos <= final(self).bytes().len(),
    {
        proof {
            use_type_invariant(&*self);
        }
        let ghost s = self.bytes();
        match self.expect_word("box") {
            Ok(_) => {},
            Err(e) => {
                return Err(e);
            },
        }
        let name = match self.expect_ident() {
            Ok(v) => v,
            Err(e) => {
                return Err(e);
            },
        };
        match self.expect_char(123) {
            Ok(_) => {},
            Err(e) => {
                return Err(e);
            },
        }
        let ghost c3 = self.cursor();
        let mut instructions: Vec<HakoInstDecl> = Vec::new();
        assert(insts_model(instructions@) =~= Seq::empty());
        loop
            invariant_except_break
                crate::rules::box_items(s, self.cursor(), insts_model(instructions@))
                    == crate::rules::box_items(s, c3, Seq::empty()),
            invariant
                s == self.bytes(),
                s == old(self).bytes(),
                old(self).pos <= self.pos,
                old(self).line <= self.line,
                s.len() < usize::MAX,
                c3.pos <= self.pos <= s.len(),
                old(self).pos < c3.pos,
                crate::rules::box_decl(old(self).bytes(), old(self).cursor())
                    == crate::rules::box_with(name@, crate::rules::box_items(s, c3, Seq::empty())),
            ensures
                crate::rules::box_items(s, c3, Seq::empty()) == (
                    Outcome::Parsed(insts_model(instructions@)),
                    self.cursor(),
                ),
                c3.pos < self.pos <= s.len(),
            decreases s.len() - self.pos,
        {
            let ghost c_head = self.cursor();
            let ghost acc = insts_model(instructions@);
            proof {
                lemma_skip(s, c_head);
            }
            self.skip_whitespace_and_comments();
            if self.at_char(125) {
                let p = self.pos + 1;
                self.advance_to(p);
                break ;
            }
            let d = match self.parse_inst_decl() {
                Ok(v) => v,
                Err(e) => {
                    return Err(e);
                },
            };
            let ghost dm = d@;
            instructions.push(d);
            proof {
                assert(insts_model(instructions@) =~= acc.push(dm));
            }
        }
        Ok(HakoBox { name, instructions })
    }

    fn parse_stmt_block(&mut self, end_char: u8) -> (r: Result<Vec<HakoStmt>, Halt>)
        requires
            old(self).pos <= old(self).bytes().len(),
        ensures
            final(self).follows(
                *old(self),
                r,
                crate::rules::block_loop(old(self).bytes(), old(self).cursor(), end_char, Seq::empty()),
                |v: Vec<HakoStmt>| stmts_model(v@),
            ),
            r is Ok ==> old(self).pos <= final(self).pos <= final(self).bytes().len(),
        decreases old(self).bytes().len() - old(self).pos, 4int,
    {
        proof {
            use_type_invariant(&*self);
        }
        let ghost s = self.bytes();
        let ghost c0 = self.cursor();
        let mut stmts: Vec<HakoStmt> = Vec::new();
        assert(stmts_model(stmts@) =~= Seq::empty());
        loop
            invariant_except_break
                crate::rules::block_loop(s, self.cursor(), end_char, stmts_model(stmts@))
                    == crate::rules::block_loop(s, c0, end_char, Seq::empty()),
            invariant
                s == self.bytes(),
                s == old(self).bytes(),
                old(self).pos <= self.pos,
                old(self).line <= self.line,
                c0 == old(self).cursor(),
                s.len() < usize::MAX,
                c0.pos <= self.pos <= s.len(),
            ensures
                crate::rules::block_loop(s, c0, end_char, Seq::empty()) == (
                    Outcome::Parsed(stmts_model(stmts@)),
                    self.cursor(),
                ),
                c0.pos <= self.pos <= s.len(),
            decreases s.len() - self.pos,
        {
            let ghost c_head = self.cursor();
            let ghost acc = stmts_model(stmts@);
            proof {
                lemma_skip(s, c_head);
            }
            self.skip_whitespace_and_comments();
            if self.pos >= self.len() {
                break ;
            }
            let ghost before = stmts@;
            if self.at_char(end_char) {
                let p = self.pos + 1;
                self.advance_to(p);
                stmts.push(HakoStmt::Empty);
                proof {
                    lemma_stmts_push(before, HakoStmt::Empty);
                }
                break ;
            }
            let st = match self.parse_stmt() {
                Ok(v) => v,
                Err(e) => {
                    return Err(e);
                },
            };
            if self.at_char(44) || self.at_char(59) {
                let p = self.pos + 1;
                self.advance_to(p);
            }
            let ghost stv = st;
            stmts.push(st);
            proof {
                lemma_stmts_push(before, stv);
            }
        }
        Ok(stmts)
    }

    fn parse_stmt(&mut self) -> (r: Result<HakoStmt, Halt>)
        requires
            old(self).pos <= old(self).bytes().len(),
        ensures
            final(self).follows(
                *old(self),
                r,
                crate::rules::stmt(old(self).bytes(), old(self).cursor()),
                |v: HakoStmt| v@,
            ),
            r is Ok ==> old(self).pos <= final(self).pos <= final(self).bytes().len(),
            r is Ok ==> old(self).pos < final(self).pos || final(self).pos >= final(self).bytes().len()
                || crate::grammar::at_is(final(self).bytes(), final(self).pos as int, 59)
                || crate::grammar::at_is(final(self).bytes(), final(self).pos as int, 44),
        decreases old(self).bytes().len() - old(self).pos, 3int,
    {
        proof {
            lemma_skip(self.bytes(), self.cursor());
        }
        self.skip_whitespace_and_comments();
        proof {
            use_type_invariant(&*self);
        }
        if self.at_char(123) {
            let p = self.pos + 1;
            self.advance_to(p);
            return match self.parse_stmt_block(125) {
                Ok(body) => Ok(HakoStmt::Block(body)),
                Err(e) => Err(e),
            };
        }
        let n = match self.peek_word() {
            None => {
                return Err(Halt::CutsChar);
            },
            Some(n) => n,
        };
        proof {
            lemma_peek_word_bounds(self.bytes(), self.pos as int);
        }
        if self.word_is(n, "let") {
            self.parse_let()
        } else if self.word_is(n, "caso") {
            self.parse_caso()
        } else if self.word_is(n, "retorna") {
            self.parse_retorna()
        } else if self.word_is(n, "asm") {
            self.parse_asm()
        } else if self.word_is(n, "loop") {
            self.parse_loop()
        } else if self.word_is(n, "for") {
            self.parse_for()
        } else if self.word_is(n, "ref") {
            self.parse_ref_stmt()
        } else {
            match self.parse_expr_until_semicolon() {
                Ok(e) => Ok(HakoStmt::Expr(e)),
                Err(e) => Err(e),
            }
        }
    }

    fn parse_let(&mut self) -> (r: Result<HakoStmt, Halt>)
        ensures
            final(self).follows(
                *old(self),
                r,
                crate::rules::let_stmt(old(self).bytes(), old(self).cursor()),
                |v: HakoStmt| v@,
            ),
            r is Ok ==> old(self).pos < final(self).pos <= final(self).bytes().len(),
    {
        proof {
            reveal_strlit("let");
        }
        match self.expect_word("let") {
            Ok(_) => {},
            Err(e) => {
                return Err(e);
            },
        }
        proof {
            lemma_skip(self.bytes(), self.cursor());
        }
        self.skip_whitespace_and_comments();
        let n = match self.peek_word() {
            None => {
                return Err(Halt::CutsChar);
            },
            Some(n) => n,
        };
        proof {
            use_type_invariant(&*self);
            lemma_peek_word_bounds(self.bytes(), self.pos as int);
        }
        let is_mut = self.word_is(n, "mut");
        if is_mut {
            let p = self.pos + n;
            self.advance_to(p);
        }
        let name = match self.expect_ident() {
            Ok(v) => v,
            Err(e) => {
                return Err(e);
            },
        };
        let ty = if self.at_char(58) {
            let p = self.pos + 1;
            self.advance_to(p);
            match self.parse_type_name() {
                Ok(t) => Some(t),
                Err(e) => {
                    return Err(e);
                },
            }
        } else {
            None
        };
        proof {
            lemma_skip(self.bytes(), self.cursor());
        }
        self.skip_whitespace_and_comments();
        let value = if self.at_char(61) {
            let p = self.pos + 1;
            self.advance_to(p);
            match self.parse_expr_until_semicolon() {
                Ok(e) => Some(e),
                Err(e) => {
                    return Err(e);
                },
            }
        } else {
            None
        };
        Ok(HakoStmt::Let { name, ty, is_mut, value })
    }

    fn parse_caso(&mut self) -> (r: Result<HakoStmt, Halt>)
        requires
            old(self).pos <= old(self).bytes().len(),
        ensures
            final(self).follows(
                *old(self),
                r,
                crate::rules::caso(old(self).bytes(), old(self).cursor()),
                |v: HakoStmt| v@,
            ),
            r is Ok ==> old(self).pos < final(self).pos <= final(self).bytes().len(),
        decreases old(self).bytes().len() - old(self).pos, 2int,
    {
        proof {
            reveal_strlit("caso");
        }
        match self.expect_word("caso") {
            Ok(_) => {},
            Err(e) => {
                return Err(e);
            },
        }
        proof {
            lemma_skip(self.bytes(), self.cursor());
        }
        self.skip_whitespace_and_comments();
        let n = match self.peek_word() {
            None => {
                return Err(Halt::CutsChar);
            },
            Some(n) => n,
        };
        proof {
            use_type_invariant(&*self);
            lemma_peek_word_bounds(self.bytes(), self.pos as int);
        }
        if self.word_is(n, "else") {
            let p = self.pos + n;
            self.advance_to(p);
            match self.expect_word("=>") {
                Ok(_) => {},
                Err(e) => {
                    return Err(e);
                },
            }
            let body = match self.parse_caso_body() {
                Ok(v) => v,
                Err(e) => {
                    return Err(e);
                },
            };
            return Ok(HakoStmt::CasoContrario(body));
        }
        let cond = match self.parse_expr_until_arrow() {
            Ok(v) => v,
            Err(e) => {
                return Err(e);
            },
        };
        match self.expect_word("=>") {
            Ok(_) => {},
            Err(e) => {
                return Err(e);
            },
        }
        let body = match self.parse_caso_body() {
            Ok(v) => v,
            Err(e) => {
                return Err(e);
            },
        };
        Ok(HakoStmt::Caso { cond, body })
    }

    fn parse_caso_body(&mut self) -> (r: Result<Vec<HakoStmt>, Halt>)
        requires
            old(self).pos <= old(self).bytes().len(),
        ensures
            final(self).follows(
                *old(self),
                r,
                crate::rules::caso_body(old(self).bytes(), old(self).cursor()),
                |v: Vec<HakoStmt>| stmts_model(v@),
            ),
            r is Ok ==> old(self).pos <= final(self).pos <= final(self).bytes().len(),
        decreases old(self).bytes().len() - old(self).pos, 4int,
    {
        proof {
            lemma_skip(self.bytes(), self.cursor());
        }
        self.skip_whitespace_and_comments();
        proof {
            use_type_invariant(&*self);
        }
        if self.at_char(123) {
            let p = self.pos + 1;
            self.advance_to(p);
            return self.parse_stmt_block(125);
        }
        let n = match self.peek_word() {
            None => {
                return Err(Halt::CutsChar);
            },
            Some(n) => n,
        };
        proof {
            use_type_invariant(&*self);
            lemma_peek_word_bounds(self.bytes(), self.pos as int);
        }
        if self.word_is(n, "caso") {
            let st = match self.parse_stmt() {
                Ok(v) => v,
                Err(e) => {
                    return Err(e);
                },
            };
            let ghost stv = st;
            let v = vec![st];
            proof {
                lemma_stmts_push(Seq::empty(), stv);
                assert(Seq::<HakoStmt>::empty().push(stv) == v@);
                assert(stmts_model(Seq::empty()) =~= Seq::empty());
            }
            return Ok(v);
        }
        let e = match self.parse_expr_until_semicolon() {
            Ok(v) => v,
            Err(e) => {
                return Err(e);
            },
        };
        let ghost stv = HakoStmt::Expr(e);
        let v = vec![HakoStmt::Expr(e)];
        proof {
            lemma_stmts_push(Seq::empty(), stv);
            assert(Seq::<HakoStmt>::empty().push(stv) == v@);
            assert(stmts_model(Seq::empty()) =~= Seq::empty());
        }
        Ok(v)
    }

    fn parse_retorna(&mut self) -> (r: Result<HakoStmt, Halt>)
        ensures
            final(self).follows(
                *old(self),
                r,
                crate::rules::retorna(old(self).bytes(), old(self).cursor()),
                |v: HakoStmt| v@,
            ),
            r is Ok ==> old(self).pos < final(self).pos <= final(self).bytes().len(),
    {
        proof {
            reveal_strlit("retorna");
        }
        match self.expect_word("retorna") {
            Ok(_) => {},
            Err(e) => {
                return Err(e);
            },
        }
        proof {
            lemma_skip(self.bytes(), self.cursor());
        }
        self.skip_whitespace_and_comments();
        if self.at_char(59) || self.at_char(44) || self.at_char(125) {
            Ok(HakoStmt::Retorna(None))
        } else {
            match self.parse_expr_until_semicolon() {
                Ok(e) => Ok(HakoStmt::Retorna(Some(e))),
                Err(e) => Err(e),
            }
        }
    }

    fn parse_loop(&mut self) -> (r: Result<HakoStmt, Halt>)
        requires
            old(self).pos <= old(self).bytes().len(),
        ensures
            final(self).follows(
                *old(self),
                r,
                crate::rules::loop_stmt(old(self).bytes(), old(self).cursor()),
                |v: HakoStmt| v@,
            ),
            r is Ok ==> old(self).pos < final(self).pos <= final(self).bytes().len(),
        decreases old(self).bytes().len() - old(self).pos, 2int,
    {
        match self.expect_word("loop") {
            Ok(_) => {},
            Err(e) => {
                return Err(e);
            },
        }
        match self.expect_char(123) {
            Ok(_) => {},
            Err(e) => {
                return Err(e);
            },
        }
        match self.parse_stmt_block(125) {
            Ok(body) => Ok(HakoStmt::Loop(body)),
            Err(e) => Err(e),
        }
    }

    fn parse_for(&mut self) -> (r: Result<HakoStmt, Halt>)
        requires
            old(self).pos <= old(self).bytes().len(),
        ensures
            final(self).follows(
                *old(self),
                r,
                crate::rules::for_stmt(old(self).bytes(), old(self).cursor()),
                |v: HakoStmt| v@,
            ),
            r is Ok ==> old(self).pos < final(self).pos <= final(self).bytes().len(),
        decreases old(self).bytes().len() - old(self).pos, 2int,
    {
        match self.expect_word("for") {
            Ok(_) => {},
            Err(e) => {
                return Err(e);
            },
        }
        let var = match self.expect_ident() {
            Ok(v) => v,
            Err(e) => {
                return Err(e);
            },
        };
        match self.expect_word("in") {
            Ok(_) => {},
            Err(e) => {
                return Err(e);
            },
        }
        let iter = match self.parse_expr_until_brace() {
            Ok(v) => v,
            Err(e) => {
                return Err(e);
            },
        };
        match self.expect_char(123) {
            Ok(_) => {},
            Err(e) => {
                return Err(e);
            },
        }
        match self.parse_stmt_block(125) {
            Ok(body) => Ok(HakoStmt::For { var, iter, body }),
            Err(e) => Err(e),
        }
    }

    fn parse_ref_stmt(&mut self) -> (r: Result<HakoStmt, Halt>)
        ensures
            final(self).follows(
                *old(self),
                r,
                crate::rules::ref_stmt(old(self).bytes(), old(self).cursor()),
                |v: HakoStmt| v@,
            ),
            r is Ok ==> old(self).pos < final(self).pos <= final(self).bytes().len(),
    {
        match self.expect_word("ref") {
            Ok(_) => {},
            Err(e) => {
                return Err(e);
            },
        }
        match self.parse_path() {
            Ok(p) => Ok(HakoStmt::Ref(p)),
            Err(e) => Err(e),
        }
    }

    fn parse_asm(&mut self) -> (r: Result<HakoStmt, Halt>)
        ensures
            final(self).follows(
                *old(self),
                r,
                crate::rules::asm_stmt(old(self).bytes(), old(self).cursor()),
                |v: HakoStmt| v@,
            ),
            r is Ok ==> old(self).pos < final(self).pos <= final(self).bytes().len(),
    {
        proof {
            use_type_invariant(&*self);
        }
        let ghost s = self.bytes();
        match self.expect_word("asm") {
            Ok(_) => {},
            Err(e) => {
                return Err(e);
            },
        }
        match self.expect_char(33) {
            Ok(_) => {},
            Err(e) => {
                return Err(e);
            },
        }
        match self.expect_char(40) {
            Ok(_) => {},
            Err(e) => {
                return Err(e);
            },
        }
        let template = match self.parse_string_literal() {
            Ok(v) => v,
            Err(e) => {
                return Err(e);
            },
        };
        let ghost c4 = self.cursor();
        let mut operands: Vec<String> = Vec::new();
        let mut clobbers: Vec<String> = Vec::new();
        assert(strings_chars(operands@) =~= Seq::empty());
        assert(strings_chars(clobbers@) =~= Seq::empty());
        loop
            invariant_except_break
                crate::rules::asm_operands(
                    s,
                    self.cursor(),
                    strings_chars(operands@),
                    strings_chars(clobbers@),
                ) == crate::rules::asm_operands(s, c4, Seq::empty(), Seq::empty()),
            invariant
                s == self.bytes(),
                s == old(self).bytes(),
                old(self).pos <= self.pos,
                old(self).line <= self.line,
                s.len() < usize::MAX,
                old(self).pos < c4.pos <= self.pos <= s.len(),
                crate::rules::asm_stmt(old(self).bytes(), old(self).cursor())
                    == crate::rules::asm_with(
                    template@,
                    s,
                    crate::rules::asm_operands(s, c4, Seq::empty(), Seq::empty()),
                ),
            ensures
                crate::rules::asm_operands(s, c4, Seq::empty(), Seq::empty()) == (
                    Outcome::Parsed((strings_chars(operands@), strings_chars(clobbers@))),
                    self.cursor(),
                ),
                c4.pos <= self.pos <= s.len(),
            decreases s.len() - self.pos,
        {
            let ghost c_head = self.cursor();
            let ghost ops0 = strings_chars(operands@);
            let ghost clobs0 = strings_chars(clobbers@);
            proof {
                lemma_skip(s, c_head);
            }
            self.skip_whitespace_and_comments();
            if self.at_char(41) {
                break ;
            }
            match self.expect_char(44) {
                Ok(_) => {},
                Err(e) => {
                    return Err(e);
                },
            }
            proof {
                lemma_skip(s, self.cursor());
            }
            self.skip_whitespace_and_comments();
            if self.at_char(41) {
                break ;
            }
            let start = self.pos;
            let end = self.operand_end_from(start);
            if !self.boundary(start) {
                return Err(Halt::CutsChar);
            }
            proof {
                if end < s.len() {
                    lemma_ascii_boundary(s, end as int);
                }
            }
            let op = self.trimmed_text(start, end);
            self.advance_to(end);
            let ghost opv = op@;
            if has_prefix(op.as_str(), "options(") || has_prefix(op.as_str(), "clobber_abi") {
                clobbers.push(op);
                proof {
                    assert(strings_chars(clobbers@) =~= clobs0.push(opv));
                }
            } else {
                operands.push(op);
                proof {
                    assert(strings_chars(operands@) =~= ops0.push(opv));
                }
            }
        }
        match self.expect_char(41) {
            Ok(_) => {},
            Err(e) => {
                return Err(e);
            },
        }
        Ok(HakoStmt::Asm { template, operands, clobbers })
    }

    /// Where the `asm!` operand at `start` ends.
    fn operand_end_from(&self, start: usize) -> (end: usize)
        requires
            start <= self.bytes().len(),
        ensures
            end as int == crate::rules::operand_end(self.bytes(), start as int, 0, false),
            start <= end <= self.bytes().len(),
            end < self.bytes().len() ==> (self.bytes()[end as int] == 41 || self.bytes()[end as int]
                == 44),
    {
        proof {
            use_type_invariant(self);
        }
        let ghost s = self.bytes();
        let bytes = self.input.as_str().as_bytes();
        let len = bytes.len();
        let mut q = start;
        let mut depth: usize = 0;
        let mut in_str = false;
        while q < len
            invariant
                bytes@ == s,
                len == s.len(),
                len < usize::MAX,
                start <= q <= len,
                depth <= q - start,
                crate::rules::operand_end(s, q as int, depth as int, in_str)
                    == crate::rules::operand_end(s, start as int, 0, false),
            ensures
                start <= q <= len,
                crate::rules::operand_end(s, start as int, 0, false) == q,
                q < len ==> (s[q as int] == 41 || s[q as int] == 44),
            decreases len - q,
        {
            let b = bytes[q];
            if b == 34 {
                in_str = !in_str;
            } else if b == 40 && !in_str {
                depth = depth + 1;
            } else if b == 41 && !in_str {
                if depth == 0 {
                    break ;
                }
                depth = depth - 1;
            } else if b == 44 && depth == 0 && !in_str {
                break ;
            }
            q = q + 1;
        }
        q
    }

    fn parse_impl(&mut self) -> (r: Result<HakoImpl, Halt>)
        ensures
            final(self).follows(
                *old(self),
                r,
                crate::rules::impl_decl(old(self).bytes(), old(self).cursor()),
                |v: HakoImpl| v@,
            ),
            r is Ok ==> old(self).pos < final(self).pos <= final(self).bytes().len(),
    {
        match self.expect_word("impl") {
            Ok(_) => {},
            Err(e) => {
                return Err(e);
            },
        }
        let box_name = match self.expect_ident() {
            Ok(v) => v,
            Err(e) => {
                return Err(e);
            },
        };
        match self.expect_word("::") {
            Ok(_) => {},
            Err(e) => {
                return Err(e);
            },
        }
        let inst_name = match self.expect_ident() {
            Ok(v) => v,
            Err(e) => {
                return Err(e);
            },
        };
        match self.expect_char(40) {
            Ok(_) => {},
            Err(e) => {
                return Err(e);
            },
        }
        let params = match self.parse_params() {
            Ok(v) => v,
            Err(e) => {
                return Err(e);
            },
        };
        match self.expect_char(41) {
            Ok(_) => {},
            Err(e) => {
                return Err(e);
            },
        }
        let ret_type = match self.parse_ret_type() {
            Ok(v) => v,
            Err(e) => {
                return Err(e);
            },
        };
        match self.expect_char(123) {
            Ok(_) => {},
            Err(e) => {
                return Err(e);
            },
        }
        let body = match self.parse_stmt_block(125) {
            Ok(v) => v,
            Err(e) => {
                return Err(e);
            },
        };
        Ok(HakoImpl { box_name, inst_name, params, ret_type, body })
    }

    fn parse_flow(&mut self) -> (r: Result<Flow, Halt>)
        ensures
            final(self).follows(
                *old(self),
                r,
                crate::rules::flow_decl(old(self).bytes(), old(self).cursor()),
                |v: Flow| v@,
            ),
            r is Ok ==> old(self).pos < final(self).pos <= final(self).bytes().len(),
    {
        proof {
            use_type_invariant(&*self);
        }
        let ghost s = self.bytes();
        match self.expect_word("flow") {
            Ok(_) => {},
            Err(e) => {
                return Err(e);
            },
        }
        let name = match self.expect_ident() {
            Ok(v) => v,
            Err(e) => {
                return Err(e);
            },
        };
        match self.expect_char(123) {
            Ok(_) => {},
            Err(e) => {
                return Err(e);
            },
        }
        let ghost c3 = self.cursor();
        let mut steps: Vec<String> = Vec::new();
        assert(strings_chars(steps@) =~= Seq::empty());
        loop
            invariant_except_break
                crate::rules::flow_steps(s, self.cursor(), strings_chars(steps@))
                    == crate::rules::flow_steps(s, c3, Seq::empty()),
            invariant
                s == self.bytes(),
                s == old(self).bytes(),
                old(self).pos <= self.pos,
                old(self).line <= self.line,
                s.len() < usize::MAX,
                c3.pos <= self.pos <= s.len(),
                old(self).pos < c3.pos,
                crate::rules::flow_decl(old(self).bytes(), old(self).cursor()) == match crate::rules::flow_steps(s, c3, Seq::empty()) {
                    (Outcome::Parsed(st), c4) => (
                        Outcome::Parsed(crate::model::FlowModel { name: name@, steps: st }),
                        c4,
                    ),
                    (o, c4) => (crate::grammar::failure(o), c4),
                },
            ensures
                crate::rules::flow_steps(s, c3, Seq::empty()) == (
                    Outcome::Parsed(strings_chars(steps@)),
                    self.cursor(),
                ),
                c3.pos < self.pos <= s.len(),
            decreases s.len() - self.pos,
        {
            let ghost c_head = self.cursor();
            let ghost acc = strings_chars(steps@);
            proof {
                lemma_skip(s, c_head);
            }
            self.skip_whitespace_and_comments();
            if self.at_char(125) {
                let p = self.pos + 1;
                self.advance_to(p);
                break ;
            }
            let step = match self.expect_ident() {
                Ok(v) => v,
                Err(e) => {
                    return Err(e);
                },
            };
            let ghost sv = step@;
            steps.push(step);
            proof {
                assert(strings_chars(steps@) =~= acc.push(sv));
            }
        }
        Ok(Flow { name, steps })
    }

    /// Every box, implementation and flow from the current position to the
    /// end of the input.
    fn parse_items(&mut self) -> (r: Result<HakoProgram, Halt>)
        ensures
            final(self).follows(
                *old(self),
                r,
                crate::rules::program(old(self).bytes(), old(self).cursor()),
                |v: HakoProgram| v@,
            ),
            r is Ok ==> final(self).pos >= final(self).bytes().len(),
    {
        proof {
            use_type_invariant(&*self);
        }
        let ghost s = self.bytes();
        let ghost c0 = self.cursor();
        let mut boxes: Vec<HakoBox> = Vec::new();
        let mut impls: Vec<HakoImpl> = Vec::new();
        let mut flows: Vec<Flow> = Vec::new();
        assert(boxes_model(boxes@) =~= Seq::empty());
        assert(impls_model(impls@) =~= Seq::empty());
        assert(flows_model(flows@) =~= Seq::empty());
        loop
            invariant_except_break
                crate::rules::program_loop(
                    s,
                    self.cursor(),
                    boxes_model(boxes@),
                    impls_model(impls@),
                    flows_model(flows@),
                ) == crate::rules::program(s, c0),
            invariant
                s == self.bytes(),
                s == old(self).bytes(),
                c0 == old(self).cursor(),
                old(self).pos <= self.pos,
                old(self).line <= self.line,
                s.len() < usize::MAX,
                self.pos <= s.len() + 1,
            ensures
                crate::rules::program(s, c0) == (
                    Outcome::Parsed(
                        crate::model::ProgramModel {
                            boxes: boxes_model(boxes@),
                            impls: impls_model(impls@),
                            flows: flows_model(flows@),
                        },
                    ),
                    self.cursor(),
                ),
                self.pos >= s.len(),
            decreases s.len() + 1 - self.pos,
        {
            let ghost c_head = self.cursor();
            let ghost bs = boxes_model(boxes@);
            let ghost is = impls_model(impls@);
            let ghost fs = flows_model(flows@);
            proof {
                lemma_skip(s, c_head);
            }
            self.skip_whitespace_and_comments();
            if self.pos >= self.len() {
                break ;
            }
            let n = match self.peek_word() {
                None => {
                    return Err(Halt::CutsChar);
                },
                Some(n) => n,
            };
            proof {
                use_type_invariant(&*self);
                lemma_peek_word_bounds(s, self.pos as int);
            }
            if self.word_is(n, "box") {
                let b = match self.parse_box() {
                    Ok(v) => v,
                    Err(e) => {
                        return Err(e);
                    },
                };
                let ghost bv = b@;
                boxes.push(b);
                proof {
                    assert(boxes_model(boxes@) =~= bs.push(bv));
                }
            } else if self.word_is(n, "impl") {
                let i = match self.parse_impl() {
                    Ok(v) => v,
                    Err(e) => {
                        return Err(e);
                    },
                };
                let ghost iv = i@;
                impls.push(i);
                proof {
                    assert(impls_model(impls@) =~= is.push(iv));
                }
            } else if self.word_is(n, "flow") {
                let f = match self.parse_flow() {
                    Ok(v) => v,
                    Err(e) => {
                        return Err(e);
                    },
                };
                let ghost fv = f@;
                flows.push(f);
                proof {
                    assert(flows_model(flows@) =~= fs.push(fv));
                }
            } else {
                let got = self.text(self.pos, self.pos + n);
                let mut m = String::from_str("expected 'box' or 'impl', got '");
                m.append(got.as_str());
                m.append("'");
                return Err(Halt::Error(self.error(m)));
            }
        }
        Ok(HakoProgram { boxes, impls, flows })
    }

    /// Parses the rest of the input into its boxes and implementations.
    ///
    /// Not meant for inputs on which the text of a word, an identifier or
    /// an expression would have to be cut inside a multi-byte character
    /// (see `Parser::parse_checked`); ASCII input never is such an input
    /// (`laws::law_ascii_never_cuts`).
    pub fn parse(&mut self) -> (r: Result<HakoProgram, ParseError>)
        requires
            !cuts_char(old(self).bytes(), old(self).cursor()),
        ensures
            final(self).bytes() == old(self).bytes(),
            parsed_as(r, final(self).cursor(), program(old(self).bytes(), old(self).cursor())),
            r is Ok ==> final(self).cursor().pos >= final(self).bytes().len(),
            r is Ok && old(self).cursor().pos <= old(self).bytes().len() ==> final(self).cursor().pos
                == final(self).bytes().len(),
            r matches Err(e) ==> 1 <= e.line <= 1 + newlines(
                final(self).bytes(),
                final(self).bytes().len() as int,
            ),
            r matches Err(e) ==> e.line == final(self).cursor().line,
            old(self).cursor().pos <= final(self).cursor().pos,
            old(self).cursor().line <= final(self).cursor().line,
    {
        match self.parse_checked() {
            Some(r) => r,
            None => {
                proof {
                    assert(false);
                }
                Err(ParseError { msg: String::new(), line: 1 })
            },
        }
    }

    /// Like `Parser::parse`, on every input: `None` exactly where the text
    /// of a word, an identifier or an expression would have to be cut
    /// inside a multi-byte character.
    pub fn parse_checked(&mut self) -> (r: Option<Result<HakoProgram, ParseError>>)
        ensures
            final(self).bytes() == old(self).bytes(),
            r is None <==> cuts_char(old(self).bytes(), old(self).cursor()),
            r matches Some(res) ==> {
                &&& parsed_as(res, final(self).cursor(), program(old(self).bytes(), old(self).cursor()))
                &&& res is Ok ==> final(self).cursor().pos >= final(self).bytes().len()
                &&& res is Ok && old(self).cursor().pos <= old(self).bytes().len()
                    ==> final(self).cursor().pos == final(self).bytes().len()
                &&& res matches Err(e) ==> 1 <= e.line <= 1 + newlines(
                    final(self).bytes(),
                    final(self).bytes().len() as int,
                )
                &&& res matches Err(e) ==> e.line == final(self).cursor().line
                &&& old(self).cursor().pos <= final(self).cursor().pos
                &&& old(self).cursor().line <= final(self).cursor().line
            },
    {
        let ghost c0 = self.cursor();
        let r = self.parse_items();
        proof {
            use_type_invariant(&*self);
            let s = self.bytes();
            if 0 <= c0.pos <= s.len() {
                crate::laws::law_success_ends_at_input_end(s, c0);
            }
            lemma_newlines_mono(s, min(self.pos as int, s.len() as int), s.len() as int);
        }
        match r {
            Ok(p) => Some(Ok(p)),
            Err(Halt::Error(e)) => Some(Err(e)),
            Err(Halt::CutsChar) => None,
        }
    }
}

} // verus!
