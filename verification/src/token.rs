//! Structural and lexical tokenization of a JSON byte stream.
//!
//! [`ReaderLexer`] produces a lazy sequence of [`JsonToken`]s while
//! enforcing the JSON grammar: containers must match, objects alternate
//! keys and values, and completed values must be followed by a comma or by
//! the closing byte of the enclosing container.

use crate::text::{ARRAY_CLOSE, ARRAY_OPEN, CHAR_DOUBLE_QUOTE, CHAR_F, CHAR_N, CHAR_R, CHAR_T,
    COLON, COMMA, DOT, ESCAPE_CHAR, LexError, MINUS, NUMBER0, NUMBER9, OBJECT_CLOSE, OBJECT_OPEN,
    CR, LF, SPACE, TAB, is_digit, is_ws, lemma_ascii_utf8, utf8_to_string};
use vstd::pervasive::unreached;
use vstd::prelude::*;
use vstd::utf8::{decode_utf8, valid_utf8};

verus! {

/// Tag for one open nesting scope.  The bottom of the container stack is
/// always `Document`, the implicit scope surrounding the whole input.
#[derive(Clone, Copy, Debug, PartialEq, Eq, Structural)]
pub enum Container {
    Document,
    Object,
    Array,
}

/// One atomic lexical unit of a JSON document.  `Key` and `String` carry
/// decoded text (escapes resolved); `Number` carries the raw matched text.
#[derive(Clone, Debug, PartialEq)]
pub enum JsonToken {
    ObjectStart,
    ArrayStart,
    ObjectEnd,
    ArrayEnd,
    Key(String),
    String(String),
    Number(String),
    Null,
    True,
    False,
}

/// Mathematical counterpart of [`JsonToken`], carrying character sequences
/// instead of strings.
pub enum TokenModel {
    ObjectStart,
    ArrayStart,
    ObjectEnd,
    ArrayEnd,
    Key(Seq<char>),
    String(Seq<char>),
    Number(Seq<char>),
    Null,
    True,
    False,
}

/// The abstraction of a [`JsonToken`].
pub open spec fn token_model(t: JsonToken) -> TokenModel {
    match t {
        JsonToken::ObjectStart => TokenModel::ObjectStart,
        JsonToken::ArrayStart => TokenModel::ArrayStart,
        JsonToken::ObjectEnd => TokenModel::ObjectEnd,
        JsonToken::ArrayEnd => TokenModel::ArrayEnd,
        JsonToken::Key(s) => TokenModel::Key(s@),
        JsonToken::String(s) => TokenModel::String(s@),
        JsonToken::Number(s) => TokenModel::Number(s@),
        JsonToken::Null => TokenModel::Null,
        JsonToken::True => TokenModel::True,
        JsonToken::False => TokenModel::False,
    }
}

/// Mathematical state of a [`ReaderLexer`]: the input bytes, the cursor,
/// the container stack, the two grammar flags, and the terminal error, if
/// one was reached.
#[verifier::ext_equal]
pub struct LexModel {
    pub bytes: Seq<u8>,
    pub pos: int,
    pub containers: Seq<Container>,
    pub next_key: bool,
    pub elem_sep: bool,
    pub failed: Option<LexError>,
}

/// Well-formedness of the lexer state: the cursor stays inside the input
/// and the container stack is rooted at `Document`.
pub open spec fn wf_lexer(m: LexModel) -> bool {
    &&& 0 <= m.pos <= m.bytes.len()
    &&& m.containers.len() >= 1
    &&& m.containers[0] == Container::Document
}

/// Result of scanning for the next significant byte.
pub enum NbRes {
    /// The input ended; `pos` and `sep` are the cursor and separator flag
    /// left behind.
    End { pos: int, sep: bool },
    /// A separator was required but the byte is neither a comma nor a
    /// closing bracket/brace.
    Fail { e: LexError, pos: int },
    /// The next significant byte, with the cursor just past it.  The
    /// separator flag is always clear afterwards.
    Byte { b: u8, pos: int },
}

/// Scans past whitespace, and, while `sep` is set, past one comma (followed
/// by more whitespace); a closing bracket/brace satisfies a pending
/// separator without being consumed as one.
pub open spec fn spec_next_byte(bytes: Seq<u8>, pos: int, sep: bool) -> NbRes
    decreases bytes.len() - pos,
{
    if pos < 0 || pos >= bytes.len() {
        NbRes::End { pos, sep }
    } else if is_ws(bytes[pos]) {
        spec_next_byte(bytes, pos + 1, sep)
    } else if sep {
        let b = bytes[pos];
        if b == COMMA {
            spec_next_byte(bytes, pos + 1, false)
        } else if b == ARRAY_CLOSE || b == OBJECT_CLOSE {
            NbRes::Byte { b, pos: pos + 1 }
        } else {
            NbRes::Fail { e: LexError::ExpectedSeparator(b), pos: pos + 1 }
        }
    } else {
        NbRes::Byte { b: bytes[pos], pos: pos + 1 }
    }
}

/// Result of reading the remainder of a quoted string.
pub enum StrRes {
    /// The string is malformed; `pos` is the cursor after the offending
    /// byte (or the input end, for an unterminated string).
    Fail { e: LexError, pos: int },
    /// The accumulated content bytes, escapes resolved, with the cursor
    /// just past the closing quote.
    Raw { raw: Seq<u8>, pos: int },
}

/// Reads string content up to an unescaped closing quote, resolving the
/// escapes `\\`, `\n`, `\r`, `\t` and `\"` to their literal bytes.
pub open spec fn spec_read_string(bytes: Seq<u8>, pos: int, escape: bool, acc: Seq<u8>) -> StrRes
    decreases bytes.len() - pos,
{
    if pos < 0 || pos >= bytes.len() {
        StrRes::Fail { e: LexError::UnterminatedString, pos }
    } else {
        let b = bytes[pos];
        if escape {
            if b == ESCAPE_CHAR {
                spec_read_string(bytes, pos + 1, false, acc.push(ESCAPE_CHAR))
            } else if b == CHAR_N {
                spec_read_string(bytes, pos + 1, false, acc.push(LF))
            } else if b == CHAR_R {
                spec_read_string(bytes, pos + 1, false, acc.push(CR))
            } else if b == CHAR_T {
                spec_read_string(bytes, pos + 1, false, acc.push(TAB))
            } else if b == CHAR_DOUBLE_QUOTE {
                spec_read_string(bytes, pos + 1, false, acc.push(CHAR_DOUBLE_QUOTE))
            } else {
                StrRes::Fail { e: LexError::InvalidEscape(b), pos: pos + 1 }
            }
        } else {
            if b == ESCAPE_CHAR {
                spec_read_string(bytes, pos + 1, true, acc)
            } else if b == CHAR_DOUBLE_QUOTE {
                StrRes::Raw { raw: acc, pos: pos + 1 }
            } else {
                spec_read_string(bytes, pos + 1, false, acc.push(b))
            }
        }
    }
}

/// Reads the longest run of digits, with at most one decimal point, that
/// continues the number starting in `acc`; stops without consuming the
/// first byte that fits neither.
pub open spec fn spec_read_number(bytes: Seq<u8>, pos: int, seen_dot: bool, acc: Seq<u8>) -> (
    Seq<u8>,
    int,
)
    decreases bytes.len() - pos,
{
    if pos < 0 || pos >= bytes.len() {
        (acc, pos)
    } else {
        let b = bytes[pos];
        if !seen_dot && b == DOT {
            spec_read_number(bytes, pos + 1, true, acc.push(b))
        } else if is_digit(b) {
            spec_read_number(bytes, pos + 1, seen_dot, acc.push(b))
        } else {
            (acc, pos)
        }
    }
}

/// Matches the remaining bytes of a literal keyword against the input,
/// byte for byte.
pub open spec fn spec_read_const(bytes: Seq<u8>, pos: int, rest: Seq<u8>) -> (Option<LexError>, int)
    decreases rest.len(),
{
    if rest.len() == 0 {
        (None, pos)
    } else if pos < 0 || pos >= bytes.len() {
        (Some(LexError::EofInLiteral), pos)
    } else if bytes[pos] != rest[0] {
        (Some(LexError::IncompleteLiteral), pos + 1)
    } else {
        spec_read_const(bytes, pos + 1, rest.drop_first())
    }
}

/// The bytes that must follow the first byte of `null`, `true` or `false`.
pub open spec fn literal_rest(first: u8) -> Seq<u8> {
    if first == CHAR_N {
        seq![117u8, 108u8, 108u8]
    } else if first == CHAR_T {
        seq![114u8, 117u8, 101u8]
    } else if first == CHAR_F {
        seq![97u8, 108u8, 115u8, 101u8]
    } else {
        Seq::empty()
    }
}

/// Outcome of one tokenization call on the model.
pub enum LexOut {
    /// No significant byte remains and no container is open.
    End,
    /// The terminal error of this call; it is also recorded in the model,
    /// and every later call returns it again.
    Fail(LexError),
    /// The emitted token.
    Tok(TokenModel),
}

/// The model after a terminal error.
pub open spec fn spec_fail(m: LexModel, e: LexError) -> (LexModel, LexOut) {
    (LexModel { failed: Some(e), ..m }, LexOut::Fail(e))
}

/// After a completed value inside an object, the grammar requires a key
/// (or the closing brace) next.
pub open spec fn spec_adjust(m: LexModel) -> LexModel {
    if m.elem_sep && m.containers.len() >= 1 && m.containers.last() == Container::Object {
        LexModel { next_key: true, ..m }
    } else {
        m
    }
}

/// Classifies the significant byte `b` (already consumed, the cursor just
/// past it, the separator flag clear) and produces the token, the error,
/// and the successor state.
pub open spec fn spec_dispatch(m: LexModel, b: u8) -> (LexModel, LexOut) {
    if m.next_key && b != CHAR_DOUBLE_QUOTE && b != OBJECT_CLOSE {
        spec_fail(m, LexError::ExpectedKey(b))
    } else if m.next_key && b == CHAR_DOUBLE_QUOTE {
        let m1 = LexModel { next_key: false, ..m };
        let sres = spec_read_string(m1.bytes, m1.pos, false, Seq::empty());
        let pos1 = match sres {
            StrRes::Fail { pos, .. } => pos,
            StrRes::Raw { pos, .. } => pos,
        };
        let m2 = LexModel { pos: pos1, ..m1 };
        match spec_next_byte(m2.bytes, m2.pos, false) {
            NbRes::End { pos, sep } => (
                LexModel { pos, elem_sep: sep, failed: Some(LexError::EofAfterKey), ..m2 },
                LexOut::Fail(LexError::EofAfterKey),
            ),
            NbRes::Fail { e, pos } => (
                LexModel { pos, failed: Some(e), ..m2 },
                LexOut::Fail(e),
            ),
            NbRes::Byte { b: b2, pos: pos2 } => {
                let m3 = LexModel { pos: pos2, elem_sep: false, ..m2 };
                if b2 != COLON {
                    spec_fail(m3, LexError::ExpectedKeySeparator(b2))
                } else {
                    match sres {
                        StrRes::Fail { e, .. } => spec_fail(m3, e),
                        StrRes::Raw { raw, .. } => if valid_utf8(raw) {
                            (spec_adjust(m3), LexOut::Tok(TokenModel::Key(decode_utf8(raw))))
                        } else {
                            spec_fail(m3, LexError::InvalidUtf8)
                        },
                    }
                }
            },
        }
    } else if b == ARRAY_OPEN {
        let m1 = LexModel { containers: m.containers.push(Container::Array), ..m };
        (spec_adjust(m1), LexOut::Tok(TokenModel::ArrayStart))
    } else if b == ARRAY_CLOSE {
        if m.containers.last() != Container::Array {
            spec_fail(m, LexError::NotExpectingArrayEnd)
        } else {
            let m1 = LexModel { containers: m.containers.drop_last(), elem_sep: true, ..m };
            (spec_adjust(m1), LexOut::Tok(TokenModel::ArrayEnd))
        }
    } else if b == CHAR_DOUBLE_QUOTE {
        let m1 = LexModel { elem_sep: true, ..m };
        match spec_read_string(m.bytes, m.pos, false, Seq::empty()) {
            StrRes::Fail { e, pos } => spec_fail(LexModel { pos, ..m1 }, e),
            StrRes::Raw { raw, pos } => {
                let m2 = LexModel { pos, ..m1 };
                if valid_utf8(raw) {
                    (spec_adjust(m2), LexOut::Tok(TokenModel::String(decode_utf8(raw))))
                } else {
                    spec_fail(m2, LexError::InvalidUtf8)
                }
            },
        }
    } else if b == OBJECT_OPEN {
        let m1 = LexModel { containers: m.containers.push(Container::Object), next_key: true, ..m };
        (spec_adjust(m1), LexOut::Tok(TokenModel::ObjectStart))
    } else if b == OBJECT_CLOSE {
        if m.containers.last() != Container::Object {
            spec_fail(m, LexError::NotExpectingObjectEnd)
        } else {
            let m1 = LexModel {
                containers: m.containers.drop_last(),
                elem_sep: true,
                next_key: false,
                ..m
            };
            (spec_adjust(m1), LexOut::Tok(TokenModel::ObjectEnd))
        }
    } else if b == CHAR_N || b == CHAR_T || b == CHAR_F {
        let (e, pos) = spec_read_const(m.bytes, m.pos, literal_rest(b));
        let m1 = LexModel { pos, ..m };
        match e {
            Some(err) => spec_fail(m1, err),
            None => {
                let m2 = LexModel { elem_sep: true, ..m1 };
                let t = if b == CHAR_N {
                    TokenModel::Null
                } else if b == CHAR_T {
                    TokenModel::True
                } else {
                    TokenModel::False
                };
                (spec_adjust(m2), LexOut::Tok(t))
            },
        }
    } else if is_digit(b) || b == MINUS {
        let (raw, pos) = spec_read_number(m.bytes, m.pos, false, seq![b]);
        let m1 = LexModel { pos, elem_sep: true, ..m };
        (spec_adjust(m1), LexOut::Tok(TokenModel::Number(raw.map_values(|x: u8| x as char))))
    } else {
        spec_fail(m, LexError::UnexpectedChar(b))
    }
}

/// Reference semantics of one tokenization call: the terminal error, if
/// one was already reached, is repeated; otherwise the next significant
/// byte (after separator handling) is classified, or the end of the input
/// is reported, as an `UnclosedContainers` error if containers besides
/// `Document` are still open.
pub open spec fn spec_lex_next(m: LexModel) -> (LexModel, LexOut) {
    match m.failed {
        Some(e) => (m, LexOut::Fail(e)),
        None => match spec_next_byte(m.bytes, m.pos, m.elem_sep) {
            NbRes::End { pos, sep } => {
                let m1 = LexModel { pos, elem_sep: sep, ..m };
                if m.containers.len() > 1 {
                    spec_fail(m1, LexError::UnclosedContainers)
                } else {
                    (m1, LexOut::End)
                }
            },
            NbRes::Fail { e, pos } => (
                LexModel { pos, failed: Some(e), ..m },
                LexOut::Fail(e),
            ),
            NbRes::Byte { b, pos } => spec_dispatch(LexModel { pos, elem_sep: false, ..m }, b),
        },
    }
}

/// Law: emitted start and end tokens nest correctly.  A start token pushes
/// its container; an end token is emitted only when the innermost open
/// container is of the matching kind, and pops exactly that container; any
/// other token leaves the stack alone.  The sequence ends (rather than
/// erroring) only with the stack back at just `Document`, so a run that
/// tokenizes to completion had balanced containers.  Errors never pop.
pub proof fn lemma_token_nesting(m: LexModel)
    requires
        wf_lexer(m),
        m.failed is None,
    ensures
        ({
            let (m2, out) = spec_lex_next(m);
            &&& (out matches LexOut::Tok(t) ==> match t {
                TokenModel::ArrayStart => m2.containers == m.containers.push(Container::Array),
                TokenModel::ObjectStart => m2.containers == m.containers.push(Container::Object),
                TokenModel::ArrayEnd => m.containers.len() >= 2 && m.containers.last()
                    == Container::Array && m2.containers == m.containers.drop_last(),
                TokenModel::ObjectEnd => m.containers.len() >= 2 && m.containers.last()
                    == Container::Object && m2.containers == m.containers.drop_last(),
                _ => m2.containers == m.containers,
            })
            &&& (out is End ==> m.containers == seq![Container::Document] && m2.containers
                == m.containers)
            &&& (out is Fail ==> m2.containers == m.containers)
        }),
{
    let (m2, out) = spec_lex_next(m);
    if out is End {
        assert(m.containers.len() == 1);
        assert(m.containers =~= seq![Container::Document]);
    }
    match out {
        LexOut::Tok(t) => match t {
            TokenModel::ArrayEnd => {
                assert(m.containers.last() == Container::Array);
                assert(m.containers.len() >= 2) by {
                    if m.containers.len() == 1 {
                        assert(m.containers.last() == m.containers[0]);
                    }
                }
            },
            TokenModel::ObjectEnd => {
                assert(m.containers.last() == Container::Object);
                assert(m.containers.len() >= 2) by {
                    if m.containers.len() == 1 {
                        assert(m.containers.last() == m.containers[0]);
                    }
                }
            },
            _ => {},
        },
        _ => {},
    }
}

/// The container stack that a sequence of emitted tokens determines:
/// start tokens push, end tokens pop their matching kind, and any
/// ill-nested end token makes the fold fail.
pub open spec fn stack_after(tokens: Seq<TokenModel>) -> Option<Seq<Container>>
    decreases tokens.len(),
{
    if tokens.len() == 0 {
        Some(seq![Container::Document])
    } else {
        match stack_after(tokens.drop_last()) {
            None => None,
            Some(s) => match tokens.last() {
                TokenModel::ArrayStart => Some(s.push(Container::Array)),
                TokenModel::ObjectStart => Some(s.push(Container::Object)),
                TokenModel::ArrayEnd => if s.len() >= 2 && s.last() == Container::Array {
                    Some(s.drop_last())
                } else {
                    None
                },
                TokenModel::ObjectEnd => if s.len() >= 2 && s.last() == Container::Object {
                    Some(s.drop_last())
                } else {
                    None
                },
                _ => Some(s),
            },
        }
    }
}

/// Law: over a whole run, emitted tokens nest correctly and a run that
/// reaches end-of-sequence has unwound the stack to just `Document`.
///
/// If the tokens emitted so far fold (via [`stack_after`]) to the current
/// container stack — as they trivially do for a fresh lexer and an empty
/// token sequence — then the next emitted token keeps the fold successful
/// and in step with the stack, and end-of-sequence is only reported with
/// the fold at exactly `Document`.  Chaining this step for each call shows
/// that a completed run's token sequence is well nested and balanced.
pub proof fn lemma_run_nesting(m: LexModel, ts: Seq<TokenModel>)
    requires
        wf_lexer(m),
        m.failed is None,
        stack_after(ts) == Some(m.containers),
    ensures
        ({
            let (m2, out) = spec_lex_next(m);
            &&& (out matches LexOut::Tok(t) ==> stack_after(ts.push(t)) == Some(m2.containers)
                && m2.failed is None)
            &&& (out is End ==> stack_after(ts) == Some(seq![Container::Document]))
        }),
{
    lemma_token_nesting(m);
    let (m2, out) = spec_lex_next(m);
    match out {
        LexOut::Tok(t) => {
            assert(ts.push(t).drop_last() =~= ts);
            assert(ts.push(t).last() == t);
        },
        _ => {},
    }
}

/// Law: a closing byte for the wrong container kind is always an error and
/// never a silent pop.  If the next significant byte closes an array while
/// the innermost open container is not an array (or closes an object while
/// it is not an object), the call fails and the stack is unchanged.
pub proof fn lemma_mismatched_close(m: LexModel)
    requires
        wf_lexer(m),
        m.failed is None,
    ensures
        ({
            let nb = spec_next_byte(m.bytes, m.pos, m.elem_sep);
            let (m2, out) = spec_lex_next(m);
            &&& (nb matches NbRes::Byte { b, .. } && b == ARRAY_CLOSE && m.containers.last()
                != Container::Array ==> out is Fail && m2.containers == m.containers)
            &&& (nb matches NbRes::Byte { b, .. } && b == OBJECT_CLOSE && m.containers.last()
                != Container::Object ==> out is Fail && m2.containers == m.containers)
        }),
{
}

/// Law: escape decoding.  Inside a string, a backslash followed by one of
/// `\`, `n`, `r`, `t` or `"` contributes exactly the corresponding literal
/// byte (backslash, line feed, carriage return, tab, double quote) to the
/// decoded content; a backslash followed by any other byte is an
/// invalid-escape error.
pub proof fn lemma_escape_decoding(bytes: Seq<u8>, pos: int, acc: Seq<u8>)
    requires
        0 <= pos,
        pos + 1 < bytes.len(),
        bytes[pos] == ESCAPE_CHAR,
    ensures
        bytes[pos + 1] == ESCAPE_CHAR ==> spec_read_string(bytes, pos, false, acc)
            == spec_read_string(bytes, pos + 2, false, acc.push(ESCAPE_CHAR)),
        bytes[pos + 1] == CHAR_N ==> spec_read_string(bytes, pos, false, acc) == spec_read_string(
            bytes,
            pos + 2,
            false,
            acc.push(LF),
        ),
        bytes[pos + 1] == CHAR_R ==> spec_read_string(bytes, pos, false, acc) == spec_read_string(
            bytes,
            pos + 2,
            false,
            acc.push(CR),
        ),
        bytes[pos + 1] == CHAR_T ==> spec_read_string(bytes, pos, false, acc) == spec_read_string(
            bytes,
            pos + 2,
            false,
            acc.push(TAB),
        ),
        bytes[pos + 1] == CHAR_DOUBLE_QUOTE ==> spec_read_string(bytes, pos, false, acc)
            == spec_read_string(bytes, pos + 2, false, acc.push(CHAR_DOUBLE_QUOTE)),
        !(bytes[pos + 1] == ESCAPE_CHAR || bytes[pos + 1] == CHAR_N || bytes[pos + 1] == CHAR_R
            || bytes[pos + 1] == CHAR_T || bytes[pos + 1] == CHAR_DOUBLE_QUOTE)
            ==> spec_read_string(bytes, pos, false, acc) == (StrRes::Fail {
            e: LexError::InvalidEscape(bytes[pos + 1]),
            pos: pos + 2,
        }),
{
    assert(spec_read_string(bytes, pos, false, acc) == spec_read_string(bytes, pos + 1, true, acc));
}

fn rest_of_literal(first: u8) -> (v: Vec<u8>)
    ensures
        v@ == literal_rest(first),
{
    let mut v: Vec<u8> = Vec::new();
    if first == CHAR_N {
        v.push(117);
        v.push(108);
        v.push(108);
    } else if first == CHAR_T {
        v.push(114);
        v.push(117);
        v.push(101);
    } else if first == CHAR_F {
        v.push(97);
        v.push(108);
        v.push(115);
        v.push(101);
    }
    proof {
        assert(v@ =~= literal_rest(first));
    }
    v
}

/// A streaming JSON tokenizer over an in-memory byte sequence.
pub struct ReaderLexer {
    bytes: Vec<u8>,
    pos: usize,
    container: Vec<Container>,
    next_key: bool,
    elem_sep: bool,
    failed: Option<LexError>,
}

impl View for ReaderLexer {
    type V = LexModel;

    closed spec fn view(&self) -> LexModel {
        LexModel {
            bytes: self.bytes@,
            pos: self.pos as int,
            containers: self.container@,
            next_key: self.next_key,
            elem_sep: self.elem_sep,
            failed: self.failed,
        }
    }
}

impl ReaderLexer {
    /// Creates a tokenizer over `bytes`, with only the `Document` scope
    /// open and neither grammar flag set.
    pub fn new(bytes: Vec<u8>) -> (r: ReaderLexer)
        ensures
            r@ == (LexModel {
                bytes: bytes@,
                pos: 0,
                containers: seq![Container::Document],
                next_key: false,
                elem_sep: false,
                failed: None,
            }),
    {
        let mut c: Vec<Container> = Vec::new();
        c.push(Container::Document);
        let r = ReaderLexer {
            bytes,
            pos: 0,
            container: c,
            next_key: false,
            elem_sep: false,
            failed: None,
        };
        proof {
            assert(r@ =~= (LexModel {
                bytes: r@.bytes,
                pos: 0,
                containers: seq![Container::Document],
                next_key: false,
                elem_sep: false,
                failed: None,
            }));
        }
        r
    }

    /// Advances to the next significant byte, consuming whitespace and, if
    /// a separator is pending, the separating comma.
    #[verifier::loop_isolation(false)]
    fn next_byte(&mut self) -> (r: Option<Result<u8, LexError>>)
        requires
            wf_lexer(old(self)@),
        ensures
            wf_lexer(final(self)@),
            final(self)@.bytes == old(self)@.bytes,
            final(self)@.containers == old(self)@.containers,
            final(self)@.next_key == old(self)@.next_key,
            final(self)@.failed == old(self)@.failed,
            ({
                let nb = spec_next_byte(old(self)@.bytes, old(self)@.pos, old(self)@.elem_sep);
                match nb {
                    NbRes::End { pos, sep } => r is None && final(self)@.pos == pos
                        && final(self)@.elem_sep == sep,
                    NbRes::Fail { e, pos } => r == Some(Err::<u8, LexError>(e)) && final(self)@.pos
                        == pos && final(self)@.elem_sep == old(self)@.elem_sep,
                    NbRes::Byte { b, pos } => r == Some(Ok::<u8, LexError>(b)) && final(self)@.pos
                        == pos && final(self)@.elem_sep == false,
                }
            }),
    {
        loop
            invariant
                self@.bytes == old(self)@.bytes,
                self@.containers == old(self)@.containers,
                self@.next_key == old(self)@.next_key,
                self@.failed == old(self)@.failed,
                self.pos <= self.bytes@.len(),
                self@.elem_sep ==> old(self)@.elem_sep,
                spec_next_byte(old(self)@.bytes, old(self)@.pos, old(self)@.elem_sep)
                    == spec_next_byte(self@.bytes, self@.pos, self@.elem_sep),
            decreases self.bytes@.len() - self.pos,
        {
            if self.pos >= self.bytes.len() {
                return None;
            }
            let b = self.bytes[self.pos];
            self.pos = self.pos + 1;
            if b == LF || b == CR || b == TAB || b == SPACE {
                continue;
            }
            if self.elem_sep {
                if b == COMMA {
                    self.elem_sep = false;
                    continue;
                }
                if b == ARRAY_CLOSE || b == OBJECT_CLOSE {
                    self.elem_sep = false;
                    return Some(Ok(b));
                }
                return Some(Err(LexError::ExpectedSeparator(b)));
            }
            return Some(Ok(b));
        }
    }

    /// Reads the remainder of a quoted string (the opening quote is already
    /// consumed) and decodes the accumulated bytes as UTF-8.
    #[verifier::loop_isolation(false)]
    fn read_string(&mut self) -> (r: Result<String, LexError>)
        requires
            wf_lexer(old(self)@),
        ensures
            wf_lexer(final(self)@),
            final(self)@.bytes == old(self)@.bytes,
            final(self)@.containers == old(self)@.containers,
            final(self)@.next_key == old(self)@.next_key,
            final(self)@.elem_sep == old(self)@.elem_sep,
            final(self)@.failed == old(self)@.failed,
            ({
                let sr = spec_read_string(old(self)@.bytes, old(self)@.pos, false, Seq::empty());
                match sr {
                    StrRes::Fail { e, pos } => r == Err::<String, LexError>(e) && final(self)@.pos
                        == pos,
                    StrRes::Raw { raw, pos } => final(self)@.pos == pos && (if valid_utf8(raw) {
                        r matches Ok(s) && s@ == decode_utf8(raw)
                    } else {
                        r == Err::<String, LexError>(LexError::InvalidUtf8)
                    }),
                }
            }),
    {
        let mut escape = false;
        let mut done = false;
        let mut acc: Vec<u8> = Vec::new();
        while !done
            invariant
                self@.bytes == old(self)@.bytes,
                self@.containers == old(self)@.containers,
                self@.next_key == old(self)@.next_key,
                self@.elem_sep == old(self)@.elem_sep,
                self@.failed == old(self)@.failed,
                self.pos <= self.bytes@.len(),
                !done ==> spec_read_string(old(self)@.bytes, old(self)@.pos, false, Seq::empty())
                    == spec_read_string(self@.bytes, self@.pos, escape, acc@),
                done ==> spec_read_string(old(self)@.bytes, old(self)@.pos, false, Seq::empty())
                    == (StrRes::Raw { raw: acc@, pos: self@.pos }),
            decreases self.bytes@.len() - self.pos + (if done {
                0int
            } else {
                1int
            }),
        {
            if self.pos >= self.bytes.len() {
                return Err(LexError::UnterminatedString);
            }
            let b = self.bytes[self.pos];
            self.pos = self.pos + 1;
            if escape {
                if b == ESCAPE_CHAR {
                    acc.push(ESCAPE_CHAR);
                } else if b == CHAR_N {
                    acc.push(LF);
                } else if b == CHAR_R {
                    acc.push(CR);
                } else if b == CHAR_T {
                    acc.push(TAB);
                } else if b == CHAR_DOUBLE_QUOTE {
                    acc.push(CHAR_DOUBLE_QUOTE);
                } else {
                    return Err(LexError::InvalidEscape(b));
                }
                escape = false;
            } else {
                if b == ESCAPE_CHAR {
                    escape = true;
                } else if b == CHAR_DOUBLE_QUOTE {
                    done = true;
                } else {
                    acc.push(b);
                }
            }
        }
        match utf8_to_string(acc) {
            Some(s) => Ok(s),
            None => Err(LexError::InvalidUtf8),
        }
    }

    /// Reads the remainder of a number token whose first byte (a digit or a
    /// minus sign) is already consumed.  The raw text is all ASCII, so the
    /// UTF-8 decoding step cannot fail.
    #[verifier::loop_isolation(false)]
    fn read_number(&mut self, first: u8) -> (s: String)
        requires
            wf_lexer(old(self)@),
            is_digit(first) || first == MINUS,
        ensures
            wf_lexer(final(self)@),
            final(self)@.bytes == old(self)@.bytes,
            final(self)@.containers == old(self)@.containers,
            final(self)@.next_key == old(self)@.next_key,
            final(self)@.elem_sep == old(self)@.elem_sep,
            final(self)@.failed == old(self)@.failed,
            ({
                let (raw, pos) = spec_read_number(
                    old(self)@.bytes,
                    old(self)@.pos,
                    false,
                    seq![first],
                );
                final(self)@.pos == pos && s@ == raw.map_values(|x: u8| x as char)
            }),
    {
        let mut acc: Vec<u8> = Vec::new();
        acc.push(first);
        let mut seen_dot = false;
        proof {
            assert(acc@ =~= seq![first]);
        }
        let mut done = false;
        while !done
            invariant
                self@.bytes == old(self)@.bytes,
                self@.containers == old(self)@.containers,
                self@.next_key == old(self)@.next_key,
                self@.elem_sep == old(self)@.elem_sep,
                self@.failed == old(self)@.failed,
                self.pos <= self.bytes@.len(),
                forall|i: int| 0 <= i < acc@.len() ==> acc@[i] < 128,
                !done ==> spec_read_number(old(self)@.bytes, old(self)@.pos, false, seq![first])
                    == spec_read_number(self@.bytes, self@.pos, seen_dot, acc@),
                done ==> spec_read_number(old(self)@.bytes, old(self)@.pos, false, seq![first]) == (
                    acc@,
                    self@.pos,
                ),
            decreases self.bytes@.len() - self.pos + (if done {
                0int
            } else {
                1int
            }),
        {
            if self.pos >= self.bytes.len() {
                done = true;
            } else {
                let b = self.bytes[self.pos];
                if !seen_dot && b == DOT {
                    seen_dot = true;
                    self.pos = self.pos + 1;
                    acc.push(b);
                } else if b >= NUMBER0 && b <= NUMBER9 {
                    self.pos = self.pos + 1;
                    acc.push(b);
                } else {
                    done = true;
                }
            }
        }
        proof {
            lemma_ascii_utf8(acc@);
        }
        match utf8_to_string(acc) {
            Some(s) => s,
            None => unreached(),
        }
    }

    /// Consumes and compares the input against the remaining bytes of a
    /// literal keyword.
    #[verifier::loop_isolation(false)]
    fn read_const(&mut self, rest: &Vec<u8>) -> (r: Result<(), LexError>)
        requires
            wf_lexer(old(self)@),
        ensures
            wf_lexer(final(self)@),
            final(self)@.bytes == old(self)@.bytes,
            final(self)@.containers == old(self)@.containers,
            final(self)@.next_key == old(self)@.next_key,
            final(self)@.elem_sep == old(self)@.elem_sep,
            final(self)@.failed == old(self)@.failed,
            ({
                let (e, pos) = spec_read_const(old(self)@.bytes, old(self)@.pos, rest@);
                final(self)@.pos == pos && match e {
                    Some(err) => r == Err::<(), LexError>(err),
                    None => r is Ok,
                }
            }),
    {
        let mut i: usize = 0;
        proof {
            assert(rest@.skip(0) =~= rest@);
        }
        while i < rest.len()
            invariant
                self@.bytes == old(self)@.bytes,
                self@.containers == old(self)@.containers,
                self@.next_key == old(self)@.next_key,
                self@.elem_sep == old(self)@.elem_sep,
                self@.failed == old(self)@.failed,
                self.pos <= self.bytes@.len(),
                i <= rest@.len(),
                spec_read_const(old(self)@.bytes, old(self)@.pos, rest@) == spec_read_const(
                    self@.bytes,
                    self@.pos,
                    rest@.skip(i as int),
                ),
            decreases rest@.len() - i,
        {
            if self.pos >= self.bytes.len() {
                return Err(LexError::EofInLiteral);
            }
            let b = self.bytes[self.pos];
            self.pos = self.pos + 1;
            if b != rest[i] {
                return Err(LexError::IncompleteLiteral);
            }
            i = i + 1;
            proof {
                assert(rest@.skip(i - 1).drop_first() =~= rest@.skip(i as int));
            }
        }
        Ok(())
    }

    /// Advances through whitespace and any required separator, then
    /// classifies and emits exactly one token, or reports an error, or
    /// reports the end of the sequence.
    ///
    /// The result is pinned, byte for byte, by [`spec_lex_next`].  After an
    /// error every further call returns the same error without reading; at
    /// the end of the input, if containers besides `Document` are still
    /// open, the call reports `UnclosedContainers`.
    #[verifier::rlimit(50)]
    pub fn next(&mut self) -> (r: Option<Result<JsonToken, LexError>>)
        requires
            wf_lexer(old(self)@),
        ensures
            wf_lexer(final(self)@),
            ({
                let (m2, out) = spec_lex_next(old(self)@);
                &&& final(self)@ == m2
                &&& match out {
                    LexOut::End => r is None,
                    LexOut::Fail(e) => r == Some(Err::<JsonToken, LexError>(e)),
                    LexOut::Tok(t) => r matches Some(x) && x matches Ok(tok) && token_model(tok)
                        == t,
                }
            }),
    {
        let ghost m0 = self@;
        if let Some(e) = self.failed {
            return Some(Err(e));
        }
        let nb = self.next_byte();
        let byte: u8 = match nb {
            None => {
                if self.container.len() > 1 {
                    self.failed = Some(LexError::UnclosedContainers);
                    proof {
                        assert(final(self)@ =~= spec_lex_next(m0).0);
                    }
                    return Some(Err(LexError::UnclosedContainers));
                }
                proof {
                    assert(final(self)@ =~= spec_lex_next(m0).0);
                }
                return None;
            },
            Some(Err(e)) => {
                self.failed = Some(e);
                proof {
                    assert(final(self)@ =~= spec_lex_next(m0).0);
                }
                return Some(Err(e));
            },
            Some(Ok(b)) => b,
        };
        let ghost md = self@;
        proof {
            assert(spec_lex_next(m0) == spec_dispatch(md, byte));
        }
        let result: JsonToken = if self.next_key && byte != CHAR_DOUBLE_QUOTE && byte
            != OBJECT_CLOSE {
            self.failed = Some(LexError::ExpectedKey(byte));
            proof {
                assert(final(self)@ =~= spec_dispatch(md, byte).0);
            }
            return Some(Err(LexError::ExpectedKey(byte)));
        } else if self.next_key && byte == CHAR_DOUBLE_QUOTE {
            self.next_key = false;
            let key = self.read_string();
            let nc = self.next_byte();
            match nc {
                None => {
                    self.failed = Some(LexError::EofAfterKey);
                    proof {
                        assert(final(self)@ =~= spec_dispatch(md, byte).0);
                    }
                    return Some(Err(LexError::EofAfterKey));
                },
                Some(Err(e)) => {
                    self.failed = Some(e);
                    proof {
                        assert(final(self)@ =~= spec_dispatch(md, byte).0);
                    }
                    return Some(Err(e));
                },
                Some(Ok(b2)) => {
                    if b2 != COLON {
                        self.failed = Some(LexError::ExpectedKeySeparator(b2));
                        proof {
                            assert(final(self)@ =~= spec_dispatch(md, byte).0);
                        }
                        return Some(Err(LexError::ExpectedKeySeparator(b2)));
                    }
                },
            }
            match key {
                Err(e) => {
                    self.failed = Some(e);
                    proof {
                        assert(final(self)@ =~= spec_dispatch(md, byte).0);
                    }
                    return Some(Err(e));
                },
                Ok(s) => JsonToken::Key(s),
            }
        } else if byte == ARRAY_OPEN {
            self.container.push(Container::Array);
            JsonToken::ArrayStart
        } else if byte == ARRAY_CLOSE {
            let top = self.container[self.container.len() - 1];
            if top != Container::Array {
                self.failed = Some(LexError::NotExpectingArrayEnd);
                proof {
                    assert(final(self)@ =~= spec_dispatch(md, byte).0);
                }
                return Some(Err(LexError::NotExpectingArrayEnd));
            }
            proof {
                assert(self.container@.len() >= 2);
            }
            let _ = self.container.pop();
            self.elem_sep = true;
            proof {
                assert(self@.containers =~= md.containers.drop_last());
            }
            JsonToken::ArrayEnd
        } else if byte == CHAR_DOUBLE_QUOTE {
            self.elem_sep = true;
            match self.read_string() {
                Err(e) => {
                    self.failed = Some(e);
                    proof {
                        assert(final(self)@ =~= spec_dispatch(md, byte).0);
                    }
                    return Some(Err(e));
                },
                Ok(s) => JsonToken::String(s),
            }
        } else if byte == OBJECT_OPEN {
            self.container.push(Container::Object);
            self.next_key = true;
            JsonToken::ObjectStart
        } else if byte == OBJECT_CLOSE {
            let top = self.container[self.container.len() - 1];
            if top != Container::Object {
                self.failed = Some(LexError::NotExpectingObjectEnd);
                proof {
                    assert(final(self)@ =~= spec_dispatch(md, byte).0);
                }
                return Some(Err(LexError::NotExpectingObjectEnd));
            }
            proof {
                assert(self.container@.len() >= 2);
            }
            let _ = self.container.pop();
            self.elem_sep = true;
            self.next_key = false;
            proof {
                assert(self@.containers =~= md.containers.drop_last());
            }
            JsonToken::ObjectEnd
        } else if byte == CHAR_N || byte == CHAR_T || byte == CHAR_F {
            let rest = rest_of_literal(byte);
            match self.read_const(&rest) {
                Err(e) => {
                    self.failed = Some(e);
                    proof {
                        assert(final(self)@ =~= spec_dispatch(md, byte).0);
                    }
                    return Some(Err(e));
                },
                Ok(_) => {},
            }
            self.elem_sep = true;
            if byte == CHAR_N {
                JsonToken::Null
            } else if byte == CHAR_T {
                JsonToken::True
            } else {
                JsonToken::False
            }
        } else if (byte >= NUMBER0 && byte <= NUMBER9) || byte == MINUS {
            self.elem_sep = true;
            let s = self.read_number(byte);
            JsonToken::Number(s)
        } else {
            self.failed = Some(LexError::UnexpectedChar(byte));
            proof {
                assert(final(self)@ =~= spec_dispatch(md, byte).0);
            }
            return Some(Err(LexError::UnexpectedChar(byte)));
        };
        let ghost mt = self@;
        if self.elem_sep {
            let top = self.container[self.container.len() - 1];
            if top == Container::Object {
                self.next_key = true;
            }
        }
        proof {
            assert(self@ =~= spec_adjust(mt));
            assert(final(self)@ =~= spec_dispatch(md, byte).0);
            assert(token_model(result) == spec_dispatch(md, byte).1->Tok_0);
        }
        Some(Ok(result))
    }
}

} // verus!
