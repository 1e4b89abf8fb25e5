//! The mathematical model of the encoding protocol: a deep ghost view of
//! native values and spec functions that give, for every value and arena
//! offset, exactly which words one encoding appends and which result word
//! it returns. Children always come first in the appended region, so every
//! reference a block holds points to a lower offset.

use vstd::prelude::*;

use crate::value::FLOAT_TAG;
use crate::value::MAX_STRUCT_TAG;
use crate::value::STRING_TAG;
use crate::value::header_word;
use crate::value::imm_word;
use crate::value::ref_word;

verus! {

/// A native value to encode: one variant per shape of the protocol.
/// Records carry their fields in declaration order; sum types are split
/// into the data-free group (a constructor is its 0-based index within
/// that group) and the data-carrying group (a constructor is its 0-based
/// tag within that group plus its fields). Floats arrive as their raw
/// IEEE-754 bit pattern, which is boxed without any numeric conversion.
pub enum NativeValue {
    Int(i64),
    Bool(bool),
    Char(char),
    Unit,
    Opt(Option<Box<NativeValue>>),
    List(Vec<NativeValue>),
    Str(Vec<u8>),
    FloatBits(u64),
    Record(Vec<NativeValue>),
    ConstCtor(u32),
    DataCtor(u8, Vec<NativeValue>),
}

/// The ghost mirror of `NativeValue`: integers widen to `int`, characters
/// to their code point, vectors to sequences.
pub enum Mv {
    Int(int),
    Bool(bool),
    Char(int),
    Unit,
    Opt(Option<Box<Mv>>),
    List(Seq<Mv>),
    Str(Seq<u8>),
    FloatBits(u64),
    Record(Seq<Mv>),
    ConstCtor(int),
    DataCtor(u8, Seq<Mv>),
}

/// The deep view of a native value.
pub open spec fn model(v: NativeValue) -> Mv
    decreases v,
{
    match v {
        NativeValue::Int(n) => Mv::Int(n as int),
        NativeValue::Bool(b) => Mv::Bool(b),
        NativeValue::Char(c) => Mv::Char(c as int),
        NativeValue::Unit => Mv::Unit,
        NativeValue::Opt(o) => match o {
            Option::None => Mv::Opt(Option::None),
            Option::Some(x) => Mv::Opt(Option::Some(Box::new(model(*x)))),
        },
        NativeValue::List(xs) => Mv::List(model_seq(xs@, 0)),
        NativeValue::Str(b) => Mv::Str(b@),
        NativeValue::FloatBits(bits) => Mv::FloatBits(bits),
        NativeValue::Record(fs) => Mv::Record(model_seq(fs@, 0)),
        NativeValue::ConstCtor(i) => Mv::ConstCtor(i as int),
        NativeValue::DataCtor(t, fs) => Mv::DataCtor(t, model_seq(fs@, 0)),
    }
}

/// The deep view of the tail `s[i..]` of a sequence of native values.
pub open spec fn model_seq(s: Seq<NativeValue>, i: int) -> Seq<Mv>
    decreases s, s.len() - i,
{
    if 0 <= i < s.len() {
        seq![model(s[i])] + model_seq(s, i + 1)
    } else {
        Seq::empty()
    }
}

/// Well-formed model values: integers, code points and constructor
/// indices fit the immediate encoding (one bit is lost to the tag),
/// structured blocks are non-empty and use only non-reserved tags.
pub open spec fn wf(m: Mv) -> bool
    decreases m,
{
    match m {
        Mv::Int(n) => -0x4000_0000_0000_0000 <= n < 0x4000_0000_0000_0000,
        Mv::Bool(_) => true,
        Mv::Char(c) => 0 <= c <= 0x10FFFF,
        Mv::Unit => true,
        Mv::Opt(o) => match o {
            Option::None => true,
            Option::Some(x) => wf(*x),
        },
        Mv::List(s) => wf_seq(s, 0),
        Mv::Str(_) => true,
        Mv::FloatBits(_) => true,
        Mv::Record(fs) => fs.len() >= 1 && wf_seq(fs, 0),
        Mv::ConstCtor(i) => 0 <= i < 0x4000_0000_0000_0000,
        Mv::DataCtor(t, fs) => t <= MAX_STRUCT_TAG && fs.len() >= 1 && wf_seq(fs, 0),
    }
}

/// Every element of the tail `s[i..]` is well formed.
pub open spec fn wf_seq(s: Seq<Mv>, i: int) -> bool
    decreases s, s.len() - i,
{
    if 0 <= i < s.len() {
        wf(s[i]) && wf_seq(s, i + 1)
    } else {
        true
    }
}

/// Payload size of a string block, in words: the bytes plus at least the
/// final padding byte, rounded up to whole words.
pub open spec fn str_size_words(b: Seq<u8>) -> nat {
    b.len() / 8 + 1
}

/// Byte `i` of a string block's payload: the content verbatim, then zero
/// padding, and in the last byte the padding count that lets a reader
/// recover the exact length.
pub open spec fn sbyte(b: Seq<u8>, i: int) -> u8 {
    if i < b.len() {
        b[i]
    } else if i + 1 == 8 * str_size_words(b) {
        (7 - b.len() % 8) as u8
    } else {
        0u8
    }
}

/// Payload word `j` of a string block: eight payload bytes packed
/// little-endian.
pub open spec fn str_word(b: Seq<u8>, j: int) -> u64 {
    (sbyte(b, 8 * j) + sbyte(b, 8 * j + 1) * 0x100 + sbyte(b, 8 * j + 2) * 0x1_0000 + sbyte(
        b,
        8 * j + 3,
    ) * 0x100_0000 + sbyte(b, 8 * j + 4) * 0x1_0000_0000 + sbyte(b, 8 * j + 5) * 0x100_0000_0000
        + sbyte(b, 8 * j + 6) * 0x1_0000_0000_0000 + sbyte(b, 8 * j + 7)
        * 0x100_0000_0000_0000) as u64
}

/// The whole payload of a string block.
pub open spec fn str_words(b: Seq<u8>) -> Seq<u64> {
    Seq::new(str_size_words(b), |j: int| str_word(b, j))
}

/// 256 to the power `k`, for the eight byte positions of a word.
pub open spec fn pow256(k: int) -> int {
    if k <= 0 {
        1
    } else if k == 1 {
        0x100
    } else if k == 2 {
        0x1_0000
    } else if k == 3 {
        0x100_0000
    } else if k == 4 {
        0x1_0000_0000
    } else if k == 5 {
        0x100_0000_0000
    } else if k == 6 {
        0x1_0000_0000_0000
    } else {
        0x100_0000_0000_0000
    }
}

/// Byte `k` of a word, little-endian.
pub open spec fn word_byte(w: u64, k: int) -> u8 {
    (((w as int) / pow256(k)) % 0x100) as u8
}

/// Unpacking undoes packing: byte `k` of payload word `j` of a string
/// block is exactly payload byte `8 j + k`.
pub proof fn lemma_str_word_byte(b: Seq<u8>, j: int, k: int)
    requires
        0 <= k < 8,
    ensures
        word_byte(str_word(b, j), k) == sbyte(b, 8 * j + k),
{
    let b0 = sbyte(b, 8 * j) as int;
    let b1 = sbyte(b, 8 * j + 1) as int;
    let b2 = sbyte(b, 8 * j + 2) as int;
    let b3 = sbyte(b, 8 * j + 3) as int;
    let b4 = sbyte(b, 8 * j + 4) as int;
    let b5 = sbyte(b, 8 * j + 5) as int;
    let b6 = sbyte(b, 8 * j + 6) as int;
    let b7 = sbyte(b, 8 * j + 7) as int;
    let w = b0 + b1 * 0x100 + b2 * 0x1_0000 + b3 * 0x100_0000 + b4 * 0x1_0000_0000 + b5
        * 0x100_0000_0000 + b6 * 0x1_0000_0000_0000 + b7 * 0x100_0000_0000_0000;
    assert(str_word(b, j) == w);
    let r1 = b1 + b2 * 0x100 + b3 * 0x1_0000 + b4 * 0x100_0000 + b5 * 0x1_0000_0000 + b6
        * 0x100_0000_0000 + b7 * 0x1_0000_0000_0000;
    let r2 = b2 + b3 * 0x100 + b4 * 0x1_0000 + b5 * 0x100_0000 + b6 * 0x1_0000_0000 + b7
        * 0x100_0000_0000;
    let r3 = b3 + b4 * 0x100 + b5 * 0x1_0000 + b6 * 0x100_0000 + b7 * 0x1_0000_0000;
    let r4 = b4 + b5 * 0x100 + b6 * 0x1_0000 + b7 * 0x100_0000;
    let r5 = b5 + b6 * 0x100 + b7 * 0x1_0000;
    let r6 = b6 + b7 * 0x100;
    let r7 = b7;
    assert(w / 0x100 == r1 && w % 0x100 == b0) by (nonlinear_arith)
        requires
            0 <= b0 < 0x100,
            0 <= r1,
            w == b0 + 0x100 * r1,
    ;
    assert(r1 / 0x100 == r2 && r1 % 0x100 == b1) by (nonlinear_arith)
        requires
            0 <= b1 < 0x100,
            0 <= r2,
            r1 == b1 + 0x100 * r2,
    ;
    assert(r2 / 0x100 == r3 && r2 % 0x100 == b2) by (nonlinear_arith)
        requires
            0 <= b2 < 0x100,
            0 <= r3,
            r2 == b2 + 0x100 * r3,
    ;
    assert(r3 / 0x100 == r4 && r3 % 0x100 == b3) by (nonlinear_arith)
        requires
            0 <= b3 < 0x100,
            0 <= r4,
            r3 == b3 + 0x100 * r4,
    ;
    assert(r4 / 0x100 == r5 && r4 % 0x100 == b4) by (nonlinear_arith)
        requires
            0 <= b4 < 0x100,
            0 <= r5,
            r4 == b4 + 0x100 * r5,
    ;
    assert(r5 / 0x100 == r6 && r5 % 0x100 == b5) by (nonlinear_arith)
        requires
            0 <= b5 < 0x100,
            0 <= r6,
            r5 == b5 + 0x100 * r6,
    ;
    assert(r6 / 0x100 == r7 && r6 % 0x100 == b6) by (nonlinear_arith)
        requires
            0 <= b6 < 0x100,
            0 <= r7,
            r6 == b6 + 0x100 * r7,
    ;
    assert(w / 0x100_0000_0000_0000 == r7) by {
        assert(w / 0x100 / 0x100 / 0x100 / 0x100 / 0x100 / 0x100 / 0x100 == r7);
        assert(w / 0x100 / 0x100 / 0x100 / 0x100 / 0x100 / 0x100 / 0x100 == w
            / 0x100_0000_0000_0000) by (nonlinear_arith)
            requires
                0 <= w,
        ;
    };
    assert(w / 0x1_0000 == r2 && w / 0x100_0000 == r3 && w / 0x1_0000_0000 == r4 && w
        / 0x100_0000_0000 == r5 && w / 0x1_0000_0000_0000 == r6) by (nonlinear_arith)
        requires
            0 <= w,
            w / 0x100 == r1,
            r1 / 0x100 == r2,
            r2 / 0x100 == r3,
            r3 / 0x100 == r4,
            r4 / 0x100 == r5,
            r5 / 0x100 == r6,
    ;
    assert(r7 < 0x100 && r7 % 0x100 == b7);
}

/// How many words encoding `m` appends to an arena.
pub open spec fn enc_len(m: Mv) -> nat
    decreases m,
{
    match m {
        Mv::Int(_) => 0,
        Mv::Bool(_) => 0,
        Mv::Char(_) => 0,
        Mv::Unit => 0,
        Mv::ConstCtor(_) => 0,
        Mv::Opt(o) => match o {
            Option::None => 0,
            Option::Some(x) => enc_len(*x) + 2,
        },
        Mv::List(s) => enc_len_list(s, 0),
        Mv::Str(b) => str_size_words(b) + 1,
        Mv::FloatBits(_) => 2,
        Mv::Record(fs) => enc_len_upto(fs, fs.len() as int) + fs.len() + 1,
        Mv::DataCtor(_, fs) => enc_len_upto(fs, fs.len() as int) + fs.len() + 1,
    }
}

/// Words appended when the list tail `s[i..]` is encoded: lists are built
/// tail first, one 2-word cell per element plus the element itself.
pub open spec fn enc_len_list(s: Seq<Mv>, i: int) -> nat
    decreases s, s.len() - i,
{
    if 0 <= i < s.len() {
        enc_len_list(s, i + 1) + enc_len(s[i]) + 3
    } else {
        0
    }
}

/// Words appended by the first `i` fields of a block, encoded left to
/// right before their parent block.
pub open spec fn enc_len_upto(s: Seq<Mv>, i: int) -> nat
    decreases s, i,
{
    if 0 < i <= s.len() {
        enc_len_upto(s, i - 1) + enc_len(s[i - 1])
    } else {
        0
    }
}

/// The result word of encoding `m` into an arena of length `base`: an
/// immediate for scalar shapes, otherwise a reference to the block that
/// the encoding writes last.
pub open spec fn enc_val(m: Mv, base: int) -> u64
    decreases m,
{
    match m {
        Mv::Int(n) => imm_word(n),
        Mv::Bool(b) => imm_word(if b { 1int } else { 0int }),
        Mv::Char(c) => imm_word(c),
        Mv::Unit => imm_word(0),
        Mv::ConstCtor(i) => imm_word(i),
        Mv::Opt(o) => match o {
            Option::None => imm_word(0),
            Option::Some(x) => ref_word(base + enc_len(*x) + 1),
        },
        Mv::List(s) => enc_val_list(s, 0, base),
        Mv::Str(_) => ref_word(base + 1),
        Mv::FloatBits(_) => ref_word(base + 1),
        Mv::Record(fs) => ref_word(base + enc_len_upto(fs, fs.len() as int) + 1),
        Mv::DataCtor(_, fs) => ref_word(base + enc_len_upto(fs, fs.len() as int) + 1),
    }
}

/// The result word for the list tail `s[i..]` encoded starting at arena
/// length `base`: the empty tail is the immediate 0, any other tail is a
/// reference to its topmost cons cell.
pub open spec fn enc_val_list(s: Seq<Mv>, i: int, base: int) -> u64 {
    if 0 <= i < s.len() {
        ref_word(base + enc_len_list(s, i + 1) + enc_len(s[i]) + 1)
    } else {
        imm_word(0)
    }
}

/// The value word of field `j` of a block whose fields are encoded left
/// to right starting at arena length `base`.
pub open spec fn enc_val_field(s: Seq<Mv>, j: int, base: int) -> u64 {
    enc_val(s[j], base + enc_len_upto(s, j))
}

/// The words appended when `m` is encoded into an arena of length `base`:
/// every child's words first, then the value's own block, so each block
/// only points backward into the same region.
pub open spec fn enc_words(m: Mv, base: int) -> Seq<u64>
    decreases m,
{
    match m {
        Mv::Int(_) => Seq::empty(),
        Mv::Bool(_) => Seq::empty(),
        Mv::Char(_) => Seq::empty(),
        Mv::Unit => Seq::empty(),
        Mv::ConstCtor(_) => Seq::empty(),
        Mv::Opt(o) => match o {
            Option::None => Seq::empty(),
            Option::Some(x) => enc_words(*x, base) + seq![
                header_word(1, 0u8),
                enc_val(*x, base),
            ],
        },
        Mv::List(s) => enc_words_list(s, 0, base),
        Mv::Str(b) => seq![header_word(str_size_words(b) as int, STRING_TAG)] + str_words(b),
        Mv::FloatBits(bits) => seq![header_word(1, FLOAT_TAG), bits],
        Mv::Record(fs) => enc_words_fields(fs, fs.len() as int, base) + seq![
            header_word(fs.len() as int, 0u8),
        ] + enc_vals_fields(fs, fs.len() as int, base),
        Mv::DataCtor(t, fs) => enc_words_fields(fs, fs.len() as int, base) + seq![
            header_word(fs.len() as int, t),
        ] + enc_vals_fields(fs, fs.len() as int, base),
    }
}

/// The words appended for the list tail `s[i..]`: deeper tails first,
/// then each element, then its cons cell, whose tail field references the
/// cell built just before it.
pub open spec fn enc_words_list(s: Seq<Mv>, i: int, base: int) -> Seq<u64>
    decreases s, s.len() - i,
{
    if 0 <= i < s.len() {
        enc_words_list(s, i + 1, base) + enc_words(s[i], base + enc_len_list(s, i + 1)) + seq![
            header_word(2, 0u8),
            enc_val(s[i], base + enc_len_list(s, i + 1)),
            enc_val_list(s, i + 1, base),
        ]
    } else {
        Seq::empty()
    }
}

/// The words appended by the first `i` fields of a block, each fully
/// encoded before the next.
pub open spec fn enc_words_fields(s: Seq<Mv>, i: int, base: int) -> Seq<u64>
    decreases s, i,
{
    if 0 < i <= s.len() {
        enc_words_fields(s, i - 1, base) + enc_words(s[i - 1], base + enc_len_upto(s, i - 1))
    } else {
        Seq::empty()
    }
}

/// The payload of a block: the value words of its first `i` fields in
/// declaration order.
pub open spec fn enc_vals_fields(s: Seq<Mv>, i: int, base: int) -> Seq<u64>
    decreases s, i,
{
    if 0 < i <= s.len() {
        enc_vals_fields(s, i - 1, base).push(enc_val_field(s, i - 1, base))
    } else {
        Seq::empty()
    }
}

/// The deep view keeps length and elements: entry `j` of the view of a
/// tail is the view of element `i + j`.
pub proof fn lemma_model_seq(s: Seq<NativeValue>, i: int)
    requires
        0 <= i <= s.len(),
    ensures
        model_seq(s, i).len() == s.len() - i,
        forall|j: int| 0 <= j < s.len() - i ==> model_seq(s, i)[j] == model(s[i + j]),
    decreases s.len() - i,
{
    if i < s.len() {
        lemma_model_seq(s, i + 1);
    }
}

/// A well-formed tail has well-formed elements.
pub proof fn lemma_wf_seq_index(s: Seq<Mv>, i: int, j: int)
    requires
        0 <= i <= j < s.len(),
        wf_seq(s, i),
    ensures
        wf(s[j]),
    decreases j - i,
{
    if i < j {
        lemma_wf_seq_index(s, i + 1, j);
    }
}

/// The appended region is exactly as long as `enc_len` says.
pub proof fn lemma_enc_words_len(m: Mv, base: int)
    ensures
        enc_words(m, base).len() == enc_len(m),
    decreases m,
{
    match m {
        Mv::Opt(o) => match o {
            Option::Some(x) => lemma_enc_words_len(*x, base),
            Option::None => {},
        },
        Mv::List(s) => lemma_enc_words_list_len(s, 0, base),
        Mv::Record(fs) => {
            lemma_enc_words_fields_len(fs, fs.len() as int, base);
            lemma_enc_vals_fields_index(fs, fs.len() as int, base);
        },
        Mv::DataCtor(_, fs) => {
            lemma_enc_words_fields_len(fs, fs.len() as int, base);
            lemma_enc_vals_fields_index(fs, fs.len() as int, base);
        },
        _ => {},
    }
}

/// Region length for a list tail.
pub proof fn lemma_enc_words_list_len(s: Seq<Mv>, i: int, base: int)
    ensures
        enc_words_list(s, i, base).len() == enc_len_list(s, i),
    decreases s, s.len() - i,
{
    if 0 <= i < s.len() {
        lemma_enc_words_list_len(s, i + 1, base);
        lemma_enc_words_len(s[i], base + enc_len_list(s, i + 1));
    }
}

/// Region length for the first `i` fields of a block.
pub proof fn lemma_enc_words_fields_len(s: Seq<Mv>, i: int, base: int)
    ensures
        enc_words_fields(s, i, base).len() == enc_len_upto(s, i),
    decreases s, i,
{
    if 0 < i <= s.len() {
        lemma_enc_words_fields_len(s, i - 1, base);
        lemma_enc_words_len(s[i - 1], base + enc_len_upto(s, i - 1));
    }
}

/// A block payload holds one word per field, and entry `j` is the value
/// of field `j` encoded at its own offset.
pub proof fn lemma_enc_vals_fields_index(s: Seq<Mv>, i: int, base: int)
    requires
        0 <= i <= s.len(),
    ensures
        enc_vals_fields(s, i, base).len() == i,
        forall|j: int| 0 <= j < i ==> enc_vals_fields(s, i, base)[j] == enc_val_field(s, j, base),
    decreases i,
{
    if 0 < i {
        lemma_enc_vals_fields_index(s, i - 1, base);
    }
}

/// Inside the joint region of a block's fields, field `j`'s own words
/// sit at offset `enc_len_upto(s, j)`.
pub proof fn lemma_enc_words_fields_at(s: Seq<Mv>, n: int, base: int, j: int, k: int)
    requires
        0 <= j < n <= s.len(),
        0 <= k < enc_len(s[j]),
    ensures
        enc_len_upto(s, j) + k < enc_len_upto(s, n),
        enc_words_fields(s, n, base)[enc_len_upto(s, j) + k] == enc_words(
            s[j],
            base + enc_len_upto(s, j),
        )[k],
    decreases n,
{
    lemma_enc_words_fields_len(s, n - 1, base);
    lemma_enc_words_len(s[n - 1], base + enc_len_upto(s, n - 1));
    if j == n - 1 {
    } else {
        lemma_enc_words_fields_at(s, n - 1, base, j, k);
    }
}

/// Encoding a longer list tail never takes fewer words.
pub proof fn lemma_enc_len_list_mono(s: Seq<Mv>, i: int, j: int)
    requires
        0 <= i <= j,
    ensures
        enc_len_list(s, j) <= enc_len_list(s, i),
    decreases j - i,
{
    if i < j {
        lemma_enc_len_list_mono(s, i + 1, j);
    }
}

/// Encoding more leading fields never takes fewer words.
pub proof fn lemma_enc_len_upto_mono(s: Seq<Mv>, i: int, j: int)
    requires
        0 <= i <= j <= s.len(),
    ensures
        enc_len_upto(s, i) <= enc_len_upto(s, j),
    decreases j - i,
{
    if i < j {
        lemma_enc_len_upto_mono(s, i, j - 1);
    }
}

} // verus!
