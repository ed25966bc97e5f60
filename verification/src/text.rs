//! Byte classification, the error taxonomy shared by both components, and
//! UTF-8 decoding of accumulated string bytes.

use vstd::prelude::*;
use vstd::utf8::{decode_utf8, is_leading_byte_width_1, length_of_first_scalar, pop_first_scalar,
    valid_utf8};

verus! {

/// Line feed, `'\n'`.
pub const LF: u8 = 10;

/// Carriage return, `'\r'`.
pub const CR: u8 = 13;

/// Horizontal tab, `'\t'`.
pub const TAB: u8 = 9;

/// Space, `' '`.
pub const SPACE: u8 = 32;

/// `','`.
pub const COMMA: u8 = 44;

/// `':'`.
pub const COLON: u8 = 58;

/// `'.'`.
pub const DOT: u8 = 46;

/// `'-'`.
pub const MINUS: u8 = 45;

/// `'['`.
pub const ARRAY_OPEN: u8 = 91;

/// `']'`.
pub const ARRAY_CLOSE: u8 = 93;

/// `'{'`.
pub const OBJECT_OPEN: u8 = 123;

/// `'}'`.
pub const OBJECT_CLOSE: u8 = 125;

/// `'\\'`.
pub const ESCAPE_CHAR: u8 = 92;

/// `'n'`.
pub const CHAR_N: u8 = 110;

/// `'t'`.
pub const CHAR_T: u8 = 116;

/// `'r'`.
pub const CHAR_R: u8 = 114;

/// `'f'`.
pub const CHAR_F: u8 = 102;

/// `'"'`.
pub const CHAR_DOUBLE_QUOTE: u8 = 34;

/// `'0'`.
pub const NUMBER0: u8 = 48;

/// `'9'`.
pub const NUMBER9: u8 = 57;

/// Recognized whitespace: line feed, carriage return, tab, space.
pub open spec fn is_ws(b: u8) -> bool {
    b == LF || b == CR || b == TAB || b == SPACE
}

/// ASCII decimal digit.
pub open spec fn is_digit(b: u8) -> bool {
    NUMBER0 <= b <= NUMBER9
}

/// Errors raised while scanning a byte stream.  The taxonomy distinguishes
/// structural violations (grammar), lexical violations (malformed token
/// text), and nesting underflow in the depth tracker.
#[derive(Clone, Copy, Debug, PartialEq, Eq, Structural)]
pub enum LexError {
    /// A value ended and the next significant byte is neither a comma nor a
    /// closing bracket/brace; the payload is the offending byte.
    ExpectedSeparator(u8),
    /// Inside an object a key was required but the byte is neither a double
    /// quote nor a closing brace.
    ExpectedKey(u8),
    /// The byte after a key string is not a colon.
    ExpectedKeySeparator(u8),
    /// The stream ended directly after a key string.
    EofAfterKey,
    /// A `]` arrived while the innermost open container is not an array.
    NotExpectingArrayEnd,
    /// A `}` arrived while the innermost open container is not an object.
    NotExpectingObjectEnd,
    /// The stream ended before the closing quote of a string.
    UnterminatedString,
    /// A backslash escapes a byte outside the supported set; the payload is
    /// the escaped byte.
    InvalidEscape(u8),
    /// The accumulated string bytes are not valid UTF-8.
    InvalidUtf8,
    /// The stream ended in the middle of `null`, `true` or `false`.
    EofInLiteral,
    /// A byte in the middle of `null`, `true` or `false` does not match.
    IncompleteLiteral,
    /// A byte cannot start any token; the payload is that byte.
    UnexpectedChar(u8),
    /// A closing bracket/brace arrived while the tracked depth is zero.
    DepthUnderflow,
    /// The stream ended while containers were still open.
    UnclosedContainers,
}

/// A sequence of bytes below 128 is valid UTF-8 and decodes to the
/// characters with the same code points.
pub proof fn lemma_ascii_utf8(b: Seq<u8>)
    requires
        forall|i: int| 0 <= i < b.len() ==> b[i] < 128,
    ensures
        valid_utf8(b),
        decode_utf8(b) == b.map_values(|x: u8| x as char),
    decreases b.len(),
{
    if b.len() == 0 {
        assert(b.map_values(|x: u8| x as char) =~= Seq::<char>::empty());
        assert(decode_utf8(b) =~= Seq::<char>::empty());
    } else {
        let c0 = b[0];
        assert(is_leading_byte_width_1(c0));
        assert(c0 & 0x7f == c0) by (bit_vector)
            requires
                c0 < 128,
        ;
        assert(length_of_first_scalar(b) == 1);
        let rest = pop_first_scalar(b);
        assert(rest =~= b.drop_first());
        assert(forall|i: int| 0 <= i < rest.len() ==> rest[i] < 128);
        lemma_ascii_utf8(rest);
        assert(valid_utf8(b));
        assert(decode_utf8(b) == seq![c0 as char] + decode_utf8(rest));
        assert(b.map_values(|x: u8| x as char) =~= seq![c0 as char] + rest.map_values(
            |x: u8| x as char,
        ));
    }
}

/// Relies on `String::from_utf8`: it succeeds exactly on valid UTF-8 input
/// and the resulting string holds the characters those bytes encode.
#[verifier::external_body]
pub(crate) fn utf8_to_string(b: Vec<u8>) -> (r: Option<String>)
    ensures
        r is Some <==> valid_utf8(b@),
        r matches Some(s) ==> s@ == decode_utf8(b@),
{
    String::from_utf8(b).ok()
}

} // verus!
