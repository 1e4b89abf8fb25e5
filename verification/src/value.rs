//! Encoded values: a single machine word that is either an immediate scalar
//! (low bit set) or a reference to a block in an arena (low bit clear, the
//! word holding the byte offset of the block's first payload word).

use vstd::prelude::*;

verus! {

/// Tag byte reserved for string blocks.
pub const STRING_TAG: u8 = 252;

/// Tag byte reserved for boxed-float blocks.
pub const FLOAT_TAG: u8 = 253;

/// Structured blocks (tuples, records, data-carrying constructors, list
/// cells, option cells) must keep their tag below every reserved tag.
pub const MAX_STRUCT_TAG: u8 = 245;

/// Hard cap on the number of words an arena may hold; keeps every word
/// count, byte offset and header computation comfortably inside `usize`
/// and `u64` arithmetic on any supported machine.
pub const ARENA_MAX: usize = 0x0800_0000;

/// An immediate word: the low tag bit is set.
pub open spec fn is_immediate_word(w: u64) -> bool {
    w % 2 == 1
}

/// A reference word: the low tag bit is clear.
pub open spec fn is_reference_word(w: u64) -> bool {
    w % 2 == 0
}

/// The immediate encoding of the integer `n`: the two's-complement machine
/// word holding `n * 2 + 1`, which reserves the low bit as the immediate
/// tag and halves the usable integer range by one bit.
pub open spec fn imm_word(n: int) -> u64 {
    if n >= 0 {
        (2 * n + 1) as u64
    } else {
        (2 * n + 1 + 0x1_0000_0000_0000_0000) as u64
    }
}

/// The integer an immediate word decodes to: inverse of `imm_word` on the
/// representable range.
pub open spec fn imm_int(w: u64) -> int {
    if w / 2 < 0x4000_0000_0000_0000 {
        (w / 2) as int
    } else {
        w / 2 - 0x8000_0000_0000_0000
    }
}

/// The reference word for a block whose first payload word sits at word
/// index `first_field` in the arena: the byte offset of that word.
pub open spec fn ref_word(first_field: int) -> u64 {
    (8 * first_field) as u64
}

/// The block header word: payload size in words in the high bits, the tag
/// byte in the low bits.
pub open spec fn header_word(size: int, tag: u8) -> u64 {
    (1024 * size + tag) as u64
}

/// An encoded value: one machine word, either an immediate or a reference
/// into the arena that produced it. It never owns arena storage.
#[derive(Clone, Copy, PartialEq, Eq, Structural, Debug)]
pub struct Value {
    pub word: u64,
}

impl Value {
    /// The immediate encoding of an integer; the range requirement is the
    /// one bit lost to the immediate tag.
    pub fn of_int(n: i64) -> (r: Value)
        requires
            -0x4000_0000_0000_0000 <= n < 0x4000_0000_0000_0000,
        ensures
            r.word == imm_word(n as int),
    {
        if n >= 0 {
            Value { word: 2 * (n as u64) + 1 }
        } else {
            let m: i128 = 2 * (n as i128) + 1 + 0x1_0000_0000_0000_0000;
            Value { word: m as u64 }
        }
    }

    /// Booleans use the integer rule on 0 and 1.
    pub fn of_bool(b: bool) -> (r: Value)
        ensures
            r.word == imm_word(if b { 1int } else { 0int }),
    {
        if b {
            Value { word: 3 }
        } else {
            Value { word: 1 }
        }
    }

    /// Characters use the integer rule on the code point.
    pub fn of_char(c: char) -> (r: Value)
        ensures
            r.word == imm_word(c as int),
    {
        Value { word: 2 * (c as u64) + 1 }
    }

    /// The unit value, `None`, and the empty list all share the immediate
    /// encoding of 0.
    pub fn unit() -> (r: Value)
        ensures
            r.word == imm_word(0),
    {
        Value { word: 1 }
    }

    /// The immediate encoding of a data-free constructor's index within its
    /// own 0-based numbering group.
    pub fn of_const_ctor(index: u32) -> (r: Value)
        ensures
            r.word == imm_word(index as int),
    {
        Value { word: 2 * (index as u64) + 1 }
    }

    /// The reference to a block whose first payload word sits at word index
    /// `first_field`.
    pub fn of_block(first_field: usize) -> (r: Value)
        requires
            first_field <= ARENA_MAX,
        ensures
            r.word == ref_word(first_field as int),
    {
        Value { word: 8 * (first_field as u64) }
    }

    /// Whether the low tag bit marks this word as an immediate.
    pub fn is_immediate(&self) -> (r: bool)
        ensures
            r == is_immediate_word(self.word),
    {
        self.word % 2 == 1
    }

    /// Whether the low tag bit marks this word as a block reference.
    pub fn is_reference(&self) -> (r: bool)
        ensures
            r == is_reference_word(self.word),
    {
        self.word % 2 == 0
    }
}

} // verus!
