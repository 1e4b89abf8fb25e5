//! The arena: a growable buffer of 64-bit words filled by linear bump
//! allocation of tagged blocks. Offsets only ever increase, nothing is
//! freed or compacted, and block positions are word offsets from the base,
//! so buffer growth never invalidates a handle. At the end of a session
//! ownership of the whole buffer is handed outward.

use vstd::prelude::*;

use crate::value::ARENA_MAX;
use crate::value::Value;
use crate::value::header_word;
use crate::value::ref_word;

verus! {

/// A handle to one allocated block: the word index of its first payload
/// word (the header sits one word below) and its payload size in words.
#[derive(Clone, Copy, PartialEq, Eq, Structural, Debug)]
pub struct BlockHandle {
    pub first_field: usize,
    pub size: usize,
}

/// A linear, bump-allocated region of tagged words; one encoding session
/// writes all of its blocks into one arena.
pub struct Arena {
    words: Vec<u64>,
}

impl View for Arena {
    type V = Seq<u64>;

    closed spec fn view(&self) -> Seq<u64> {
        self.words@
    }
}

impl Arena {
    /// A fresh, empty arena. The hint only pre-sizes the backing buffer;
    /// growth past it is automatic and invisible.
    pub fn new_with_size(size_hint: usize) -> (a: Arena)
        ensures
            a@.len() == 0,
    {
        Arena { words: Vec::with_capacity(size_hint) }
    }

    /// The current allocation offset, in words.
    pub fn len(&self) -> (n: usize)
        ensures
            n == self@.len(),
    {
        self.words.len()
    }

    /// Reads one word of the arena.
    pub fn word(&self, i: usize) -> (w: u64)
        requires
            i < self@.len(),
        ensures
            w == self@[i as int],
    {
        self.words[i]
    }

    /// Reserves a block of `size` payload words: writes the header word
    /// carrying the size and tag, advances the offset past a zeroed
    /// payload, and returns the handle used to fill the fields.
    pub fn allocate(&mut self, size: usize, tag: u8) -> (h: BlockHandle)
        requires
            1 <= size,
            old(self)@.len() + size + 1 <= ARENA_MAX,
        ensures
            final(self)@ == old(self)@ + seq![header_word(size as int, tag)] + Seq::new(
                size as nat,
                |j: int| 0u64,
            ),
            h.first_field == old(self)@.len() + 1,
            h.size == size,
    {
        self.words.push(1024 * (size as u64) + (tag as u64));
        let first_field = self.words.len();
        let mut j: usize = 0;
        while j < size
            invariant
                j <= size,
                self@ == old(self)@ + seq![header_word(size as int, tag)] + Seq::new(
                    j as nat,
                    |k: int| 0u64,
                ),
            decreases size - j,
        {
            self.words.push(0);
            j = j + 1;
            proof {
                assert(self@ =~= old(self)@ + seq![header_word(size as int, tag)] + Seq::new(
                    j as nat,
                    |k: int| 0u64,
                ));
            }
        }
        BlockHandle { first_field, size }
    }

    /// Writes one payload word of a block. The caller keeps the pointer
    /// direction invariant: a field may only hold a value already fully
    /// encoded at a lower offset.
    pub fn set_field(&mut self, h: BlockHandle, index: usize, v: Value)
        requires
            index < h.size,
            h.first_field + h.size <= old(self)@.len(),
        ensures
            final(self)@ == old(self)@.update(h.first_field + index, v.word),
    {
        let n = self.words.len();
        proof {
            assert(h.first_field + index < n);
        }
        self.words.set(h.first_field + index, v.word);
    }

    /// Allocates and fully fills one structured block in a single step:
    /// header first, then every field value in order. All fields must
    /// already be encoded, so the new block only points backward.
    pub fn push_block(&mut self, tag: u8, fields: &Vec<Value>) -> (r: Value)
        requires
            1 <= fields@.len(),
            old(self)@.len() + fields@.len() + 1 <= ARENA_MAX,
        ensures
            final(self)@ == old(self)@ + seq![header_word(fields@.len() as int, tag)] + Seq::new(
                fields@.len() as nat,
                |j: int| fields@[j].word,
            ),
            r.word == ref_word(old(self)@.len() + 1int),
    {
        let size = fields.len();
        self.words.push(1024 * (size as u64) + (tag as u64));
        let first_field = self.words.len();
        let mut j: usize = 0;
        while j < size
            invariant
                j <= size,
                size == fields@.len(),
                first_field == old(self)@.len() + 1,
                self@ == old(self)@ + seq![header_word(size as int, tag)] + Seq::new(
                    j as nat,
                    |k: int| fields@[k].word,
                ),
            decreases size - j,
        {
            self.words.push(fields[j].word);
            j = j + 1;
            proof {
                assert(self@ =~= old(self)@ + seq![header_word(size as int, tag)] + Seq::new(
                    j as nat,
                    |k: int| fields@[k].word,
                ));
            }
        }
        Value::of_block(first_field)
    }

    /// Appends one raw word: a header, a packed run of string bytes, or a
    /// float's bit pattern.
    pub(crate) fn push_word(&mut self, w: u64)
        requires
            old(self)@.len() + 1 <= ARENA_MAX,
        ensures
            final(self)@ == old(self)@.push(w),
    {
        self.words.push(w);
    }

    /// Ends a session: hands the backing storage outward. The caller's
    /// caller owns the words from here on; the arena itself is consumed
    /// and never frees them.
    pub fn into_words(self) -> (w: Vec<u64>)
        ensures
            w@ == self@,
    {
        self.words
    }
}

} // verus!
