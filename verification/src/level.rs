//! Depth-based sub-document extraction.
//!
//! [`LevelReader`] walks the raw bytes of a JSON document while tracking the
//! container nesting depth and string context.  Each call to `next` skips
//! ahead to the point where an opening bracket or brace raises the depth
//! strictly above the caller-chosen target depth, then returns every byte
//! (delimiters included) up to and including the closing byte that brings
//! the depth back down to the target.

use crate::text::{ARRAY_CLOSE, ARRAY_OPEN, CHAR_DOUBLE_QUOTE, ESCAPE_CHAR, LexError, OBJECT_CLOSE,
    OBJECT_OPEN};
use vstd::prelude::*;

verus! {

/// Mathematical state of a [`LevelReader`]: the input bytes, the cursor, the
/// tracked nesting depth, and the string/escape context.
#[verifier::ext_equal]
pub struct LevelModel {
    pub bytes: Seq<u8>,
    pub pos: int,
    pub level: int,
    pub target_level: int,
    pub in_string: bool,
    pub escape: bool,
    pub failed: bool,
}

/// Outcome of one extraction call on the model.
pub enum LevelOut {
    /// No bytes were accumulated before the input ended.
    End,
    /// The raw bytes of the next region lying strictly deeper than the
    /// target depth.
    Chunk(Seq<u8>),
    /// A closing bracket or brace arrived while the tracked depth was zero.
    Fail(LexError),
}

/// Reference semantics of one extraction call, one byte per step.
///
/// While `pre` holds, bytes are discarded; `pre` is cleared by the opening
/// byte that raises the depth strictly above the target, and from that byte
/// on every byte is appended to `acc`.  The call stops once `pre` is clear
/// and the depth is back down at or below the target, or when the input
/// ends.
pub open spec fn spec_level_next(m: LevelModel, pre: bool, acc: Seq<u8>) -> (LevelModel, LevelOut)
    decreases m.bytes.len() - m.pos,
{
    if m.pos < 0 || m.pos >= m.bytes.len() || !(pre || m.level > m.target_level) {
        (m, if acc.len() == 0 {
            LevelOut::End
        } else {
            LevelOut::Chunk(acc)
        })
    } else {
        let b = m.bytes[m.pos];
        let pushed = if pre {
            acc
        } else {
            acc.push(b)
        };
        if m.escape {
            spec_level_next(LevelModel { pos: m.pos + 1, escape: false, ..m }, pre, pushed)
        } else if m.in_string && b == ESCAPE_CHAR {
            spec_level_next(LevelModel { pos: m.pos + 1, escape: true, ..m }, pre, pushed)
        } else if m.in_string && b == CHAR_DOUBLE_QUOTE {
            spec_level_next(LevelModel { pos: m.pos + 1, in_string: false, ..m }, pre, pushed)
        } else if !m.in_string && b == CHAR_DOUBLE_QUOTE {
            spec_level_next(LevelModel { pos: m.pos + 1, in_string: true, ..m }, pre, pushed)
        } else if !m.in_string && (b == ARRAY_OPEN || b == OBJECT_OPEN) {
            let pre2 = pre && m.level + 1 <= m.target_level;
            spec_level_next(
                LevelModel { pos: m.pos + 1, level: m.level + 1, ..m },
                pre2,
                if pre2 {
                    acc
                } else {
                    acc.push(b)
                },
            )
        } else if !m.in_string && (b == ARRAY_CLOSE || b == OBJECT_CLOSE) {
            if m.level == 0 {
                (
                    LevelModel { pos: m.pos + 1, failed: true, ..m },
                    LevelOut::Fail(LexError::DepthUnderflow),
                )
            } else {
                spec_level_next(LevelModel { pos: m.pos + 1, level: m.level - 1, ..m }, pre, pushed)
            }
        } else {
            spec_level_next(LevelModel { pos: m.pos + 1, ..m }, pre, pushed)
        }
    }
}

/// Extracts, per call, the raw bytes of the next region of the input whose
/// nesting depth exceeds `target_level`.
pub struct LevelReader {
    bytes: Vec<u8>,
    pos: usize,
    level: usize,
    target_level: usize,
    in_string: bool,
    escape: bool,
    failed: bool,
}

impl View for LevelReader {
    type V = LevelModel;

    closed spec fn view(&self) -> LevelModel {
        LevelModel {
            bytes: self.bytes@,
            pos: self.pos as int,
            level: self.level as int,
            target_level: self.target_level as int,
            in_string: self.in_string,
            escape: self.escape,
            failed: self.failed,
        }
    }
}

impl LevelReader {
    #[verifier::type_invariant]
    spec fn type_inv(self) -> bool {
        self.pos <= self.bytes@.len() && self.level <= self.pos
    }

    /// Creates an extractor over `bytes` with the given fixed target depth.
    pub fn new(bytes: Vec<u8>, target_level: usize) -> (r: LevelReader)
        ensures
            r@ == (LevelModel {
                bytes: bytes@,
                pos: 0,
                level: 0,
                target_level: target_level as int,
                in_string: false,
                escape: false,
                failed: false,
            }),
    {
        let r = LevelReader {
            bytes,
            pos: 0,
            level: 0,
            target_level,
            in_string: false,
            escape: false,
            failed: false,
        };
        proof {
            assert(r@ =~= (LevelModel {
                bytes: r@.bytes,
                pos: 0,
                level: 0,
                target_level: target_level as int,
                in_string: false,
                escape: false,
                failed: false,
            }));
        }
        r
    }

    /// Returns the next deeper-than-target region as raw bytes, `None` when
    /// the input is exhausted before any byte is accumulated, or an error if
    /// a closing byte arrives at depth zero.  After an error every further
    /// call returns the same error without reading.
    #[verifier::loop_isolation(false)]
    pub fn next(&mut self) -> (r: Option<Result<Vec<u8>, LexError>>)
        ensures
            old(self)@.failed ==> final(self)@ == old(self)@ && r == Some(
                Err::<Vec<u8>, LexError>(LexError::DepthUnderflow),
            ),
            !old(self)@.failed ==> ({
                let (m2, out) = spec_level_next(old(self)@, true, Seq::empty());
                &&& final(self)@ == m2
                &&& match out {
                    LevelOut::End => r is None,
                    LevelOut::Chunk(s) => r matches Some(x) && x matches Ok(v) && v@ == s,
                    LevelOut::Fail(e) => r == Some(Err::<Vec<u8>, LexError>(e)),
                }
            }),
    {
        proof {
            use_type_invariant(&*self);
        }
        if self.failed {
            return Some(Err(LexError::DepthUnderflow));
        }
        let ghost m0 = self@;
        let mut pre = true;
        let mut result: Vec<u8> = Vec::new();

        while self.pos < self.bytes.len() && (pre || self.level > self.target_level)
            invariant
                self@.bytes == m0.bytes,
                self@.target_level == m0.target_level,
                !self@.failed,
                self.pos <= self.bytes@.len(),
                self.level <= self.pos,
                spec_level_next(m0, true, Seq::empty()) == spec_level_next(self@, pre, result@),
            decreases self.bytes@.len() - self.pos,
        {
            let ghost m_top = self@;
            let ghost pre_top = pre;
            let ghost acc_top = result@;
            let b = self.bytes[self.pos];
            self.pos = self.pos + 1;

            if self.escape {
                self.escape = false;
            } else if self.in_string && b == ESCAPE_CHAR {
                self.escape = true;
            } else if self.in_string && b == CHAR_DOUBLE_QUOTE {
                self.in_string = false;
            } else if !self.in_string && b == CHAR_DOUBLE_QUOTE {
                self.in_string = true;
            } else if !self.in_string && (b == ARRAY_OPEN || b == OBJECT_OPEN) {
                self.level = self.level + 1;
                if pre && self.level > self.target_level {
                    pre = false;
                }
            } else if !self.in_string && (b == ARRAY_CLOSE || b == OBJECT_CLOSE) {
                if self.level == 0 {
                    self.failed = true;
                    proof {
                        assert(self@ =~= (LevelModel { pos: m_top.pos + 1, failed: true, ..m_top }));
                        assert(spec_level_next(m_top, pre_top, acc_top) == (
                            self@,
                            LevelOut::Fail(LexError::DepthUnderflow),
                        ));
                    }
                    return Some(Err(LexError::DepthUnderflow));
                }
                self.level = self.level - 1;
            }

            if !pre {
                result.push(b);
            }
            proof {
                assert(spec_level_next(m_top, pre_top, acc_top) == spec_level_next(
                    self@,
                    pre,
                    result@,
                ));
            }
        }

        if result.len() == 0 {
            None
        } else {
            Some(Ok(result))
        }
    }
}

} // verus!
