//! Byte classes, character classes and the few standard-library text
//! operations the parser relies on.
use vstd::prelude::*;

verus! {

/// Bytes that are whitespace when read as a Latin-1 character
/// (tab, line feed, vertical tab, form feed, carriage return, space,
/// next line, no-break space).
pub open spec fn space_byte(b: u8) -> bool {
    (9 <= b && b <= 13) || b == 32 || b == 0x85 || b == 0xA0
}

/// Bytes that are alphanumeric when read as a Latin-1 character: ASCII
/// digits and letters, the ordinal indicators, micro sign, superscript
/// digits, vulgar fractions and the Latin-1 letters.
pub open spec fn alnum_byte(b: u8) -> bool {
    (48 <= b && b <= 57) || (65 <= b && b <= 90) || (97 <= b && b <= 122) || b == 0xAA
        || b == 0xB2 || b == 0xB3 || b == 0xB5 || b == 0xB9 || b == 0xBA || (0xBC <= b && b
        <= 0xBE) || (0xC0 <= b && b <= 0xD6) || (0xD8 <= b && b <= 0xF6) || 0xF8 <= b
}

/// Bytes that may appear in an identifier: alphanumeric ones and `_`.
pub open spec fn ident_byte(b: u8) -> bool {
    alnum_byte(b) || b == 95
}

/// Whether `b as char` is whitespace.
pub fn is_space_byte(b: u8) -> (r: bool)
    ensures
        r == space_byte(b),
{
    (9 <= b && b <= 13) || b == 32 || b == 0x85 || b == 0xA0
}

/// Whether `b as char` is alphanumeric.
pub fn is_alnum_byte(b: u8) -> (r: bool)
    ensures
        r == alnum_byte(b),
{
    (48 <= b && b <= 57) || (65 <= b && b <= 90) || (97 <= b && b <= 122) || b == 0xAA || b
        == 0xB2 || b == 0xB3 || b == 0xB5 || b == 0xB9 || b == 0xBA || (0xBC <= b && b <= 0xBE)
        || (0xC0 <= b && b <= 0xD6) || (0xD8 <= b && b <= 0xF6) || 0xF8 <= b
}

/// The Unicode `White_Space` characters.
pub open spec fn white_space(c: char) -> bool {
    let u = c as u32;
    (9 <= u && u <= 13) || u == 32 || u == 0x85 || u == 0xA0 || u == 0x1680 || (0x2000 <= u
        && u <= 0x200A) || u == 0x2028 || u == 0x2029 || u == 0x202F || u == 0x205F || u
        == 0x3000
}

/// `cs` without its leading whitespace.
pub open spec fn trim_start_ws(cs: Seq<char>) -> Seq<char>
    decreases cs.len(),
{
    if cs.len() > 0 && white_space(cs[0]) {
        trim_start_ws(cs.drop_first())
    } else {
        cs
    }
}

/// `cs` without its trailing whitespace.
pub open spec fn trim_end_ws(cs: Seq<char>) -> Seq<char>
    decreases cs.len(),
{
    if cs.len() > 0 && white_space(cs.last()) {
        trim_end_ws(cs.drop_last())
    } else {
        cs
    }
}

/// `cs` without its leading and trailing whitespace.
pub open spec fn trim_ws(cs: Seq<char>) -> Seq<char> {
    trim_end_ws(trim_start_ws(cs))
}

/// Calls `str::trim`, which removes leading and trailing characters with
/// the Unicode `White_Space` property; the contract states exactly that.
#[verifier::external_body]
pub(crate) fn trim_str(s: &str) -> (r: &str)
    ensures
        r@ == trim_ws(s@),
{
    s.trim()
}

/// The `Debug` rendering of an optional character, as `format!("{:?}", c)`
/// writes it: `None`, or `Some(` and the quoted, escaped character and `)`.
pub uninterp spec fn option_char_debug(c: Option<char>) -> Seq<char>;

/// Whether `c` is printable ASCII that `Debug` writes unescaped between
/// single quotes (anything from space to `~` but `'` and `\`).
pub open spec fn plain_debug_char(c: char) -> bool {
    ' ' <= c <= '~' && c != '\'' && c != '\\'
}

/// Calls `format!("{:?}", c)` on an `Option<char>`. The contract names the
/// result and states it for `None` and for printable ASCII characters,
/// which `Debug` writes between single quotes unescaped; the escapes of
/// other characters are left unstated.
#[verifier::external_body]
pub(crate) fn debug_option_char(c: Option<char>) -> (r: String)
    ensures
        r@ == option_char_debug(c),
        c is None ==> r@ == "None"@,
        c is Some && plain_debug_char(c->0) ==> r@ == "Some('"@ + seq![c->0] + "')"@,
{
    format!("{:?}", c)
}

/// The message of a failed single-character expectation.
pub open spec fn char_expectation_message(expected: char, found: Option<char>) -> Seq<char> {
    "expected '"@ + seq![expected] + "', got '"@ + option_char_debug(found) + "'"@
}

/// The text of an ASCII byte read as a character: one character of the
/// table of all ASCII characters in order.
fn expected_byte_text(b: u8) -> (r: &'static str)
    requires
        b < 128,
    ensures
        r@ == seq![b as char],
{
    let table = "\u{0}\u{1}\u{2}\u{3}\u{4}\u{5}\u{6}\u{7}\u{8}\u{9}\u{a}\u{b}\u{c}\u{d}\u{e}\u{f}\u{10}\u{11}\u{12}\u{13}\u{14}\u{15}\u{16}\u{17}\u{18}\u{19}\u{1a}\u{1b}\u{1c}\u{1d}\u{1e}\u{1f}\u{20}\u{21}\u{22}\u{23}\u{24}\u{25}\u{26}\u{27}\u{28}\u{29}\u{2a}\u{2b}\u{2c}\u{2d}\u{2e}\u{2f}\u{30}\u{31}\u{32}\u{33}\u{34}\u{35}\u{36}\u{37}\u{38}\u{39}\u{3a}\u{3b}\u{3c}\u{3d}\u{3e}\u{3f}\u{40}\u{41}\u{42}\u{43}\u{44}\u{45}\u{46}\u{47}\u{48}\u{49}\u{4a}\u{4b}\u{4c}\u{4d}\u{4e}\u{4f}\u{50}\u{51}\u{52}\u{53}\u{54}\u{55}\u{56}\u{57}\u{58}\u{59}\u{5a}\u{5b}\u{5c}\u{5d}\u{5e}\u{5f}\u{60}\u{61}\u{62}\u{63}\u{64}\u{65}\u{66}\u{67}\u{68}\u{69}\u{6a}\u{6b}\u{6c}\u{6d}\u{6e}\u{6f}\u{70}\u{71}\u{72}\u{73}\u{74}\u{75}\u{76}\u{77}\u{78}\u{79}\u{7a}\u{7b}\u{7c}\u{7d}\u{7e}\u{7f}";
    proof {
        reveal_strlit("\u{0}\u{1}\u{2}\u{3}\u{4}\u{5}\u{6}\u{7}\u{8}\u{9}\u{a}\u{b}\u{c}\u{d}\u{e}\u{f}\u{10}\u{11}\u{12}\u{13}\u{14}\u{15}\u{16}\u{17}\u{18}\u{19}\u{1a}\u{1b}\u{1c}\u{1d}\u{1e}\u{1f}\u{20}\u{21}\u{22}\u{23}\u{24}\u{25}\u{26}\u{27}\u{28}\u{29}\u{2a}\u{2b}\u{2c}\u{2d}\u{2e}\u{2f}\u{30}\u{31}\u{32}\u{33}\u{34}\u{35}\u{36}\u{37}\u{38}\u{39}\u{3a}\u{3b}\u{3c}\u{3d}\u{3e}\u{3f}\u{40}\u{41}\u{42}\u{43}\u{44}\u{45}\u{46}\u{47}\u{48}\u{49}\u{4a}\u{4b}\u{4c}\u{4d}\u{4e}\u{4f}\u{50}\u{51}\u{52}\u{53}\u{54}\u{55}\u{56}\u{57}\u{58}\u{59}\u{5a}\u{5b}\u{5c}\u{5d}\u{5e}\u{5f}\u{60}\u{61}\u{62}\u{63}\u{64}\u{65}\u{66}\u{67}\u{68}\u{69}\u{6a}\u{6b}\u{6c}\u{6d}\u{6e}\u{6f}\u{70}\u{71}\u{72}\u{73}\u{74}\u{75}\u{76}\u{77}\u{78}\u{79}\u{7a}\u{7b}\u{7c}\u{7d}\u{7e}\u{7f}");
        assert(table.is_ascii());
        assert(table@[b as int] == b as char);
    }
    let r = table.substring_ascii(b as usize, b as usize + 1);
    proof {
        assert(r@ =~= seq![b as char]);
    }
    r
}

/// `expected 'B', got 'FOUND'`, `FOUND` being the `Debug` rendering of the
/// byte found (if any) read as a character.
pub(crate) fn expected_char_message(b: u8, found: Option<u8>) -> (r: String)
    requires
        b < 128,
    ensures
        r@ == char_expectation_message(
            b as char,
            match found {
                Some(x) => Some(x as char),
                None => None,
            },
        ),
{
    let found_char = match found {
        Some(x) => Some(x as char),
        None => None,
    };
    let mut r = String::from_str("expected '");
    r.append(expected_byte_text(b));
    r.append("', got '");
    let d = debug_option_char(found_char);
    r.append(d.as_str());
    r.append("'");
    r
}

/// The decimal digit `d` as a character.
pub open spec fn digit(d: nat) -> char {
    (48 + d) as char
}

/// The decimal notation of `n`, without leading zeros.
pub open spec fn decimal(n: nat) -> Seq<char>
    decreases n,
{
    if n < 10 {
        seq![digit(n)]
    } else {
        decimal(n / 10).push(digit(n % 10))
    }
}

/// The decimal digit `d` as text.
fn digit_text(d: usize) -> (r: &'static str)
    requires
        d < 10,
    ensures
        r@ == seq![digit(d as nat)],
{
    if d == 0 {
        proof { reveal_strlit("0"); }
        "0"
    } else if d == 1 {
        proof { reveal_strlit("1"); }
        "1"
    } else if d == 2 {
        proof { reveal_strlit("2"); }
        "2"
    } else if d == 3 {
        proof { reveal_strlit("3"); }
        "3"
    } else if d == 4 {
        proof { reveal_strlit("4"); }
        "4"
    } else if d == 5 {
        proof { reveal_strlit("5"); }
        "5"
    } else if d == 6 {
        proof { reveal_strlit("6"); }
        "6"
    } else if d == 7 {
        proof { reveal_strlit("7"); }
        "7"
    } else if d == 8 {
        proof { reveal_strlit("8"); }
        "8"
    } else {
        proof { reveal_strlit("9"); }
        "9"
    }
}

/// Appends the decimal notation of `n`.
pub(crate) fn push_decimal(out: &mut String, n: usize)
    ensures
        final(out)@ == old(out)@ + decimal(n as nat),
    decreases n,
{
    if n >= 10 {
        push_decimal(out, n / 10);
    }
    out.append(digit_text(n % 10));
    proof {
        if n >= 10 {
            assert(decimal(n as nat) == decimal((n / 10) as nat).push(digit((n % 10) as nat)));
        }
    }
}

} // verus!
