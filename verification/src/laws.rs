//! The encoding's guarantees, stated once over the model and proved for
//! every well-formed value: tag exclusivity, option nesting, the
//! backward-pointing list layout, string padding, independent constructor
//! numbering, field order, and float boxing.

use vstd::prelude::*;

use crate::model::Mv;
use crate::model::enc_len;
use crate::model::enc_len_list;
use crate::model::enc_len_upto;
use crate::model::enc_val;
use crate::model::enc_val_field;
use crate::model::enc_val_list;
use crate::model::enc_words;
use crate::model::lemma_enc_vals_fields_index;
use crate::model::lemma_enc_words_fields_len;
use crate::model::lemma_str_word_byte;
use crate::model::sbyte;
use crate::model::str_size_words;
use crate::model::str_word;
use crate::model::wf;
use crate::model::word_byte;
use crate::value::ARENA_MAX;
use crate::value::FLOAT_TAG;
use crate::value::STRING_TAG;
use crate::value::header_word;
use crate::value::imm_word;
use crate::value::is_immediate_word;
use crate::value::is_reference_word;
use crate::value::ref_word;

verus! {

/// Whether a value encodes to a block reference rather than an immediate:
/// exactly the present options, non-empty lists, strings, floats, records
/// and data-carrying constructors.
pub open spec fn is_block_value(m: Mv) -> bool {
    match m {
        Mv::Opt(o) => o is Some,
        Mv::List(s) => s.len() > 0,
        Mv::Str(_) => true,
        Mv::FloatBits(_) => true,
        Mv::Record(_) => true,
        Mv::DataCtor(_, _) => true,
        _ => false,
    }
}

/// Exactly one of immediate and reference holds of any word, decided by
/// the low tag bit alone.
pub proof fn lemma_tag_exclusive(w: u64)
    ensures
        is_immediate_word(w) <==> !is_reference_word(w),
{
}

/// The word a well-formed value encodes to is an immediate exactly when
/// the value is scalar-shaped and a reference exactly when it is
/// block-shaped; never both, never neither.
pub proof fn lemma_value_tag(m: Mv, base: int)
    requires
        wf(m),
        0 <= base,
        base + enc_len(m) <= ARENA_MAX,
    ensures
        is_immediate_word(enc_val(m, base)) <==> !is_block_value(m),
        is_reference_word(enc_val(m, base)) <==> is_block_value(m),
{
    let w = enc_val(m, base);
    match m {
        Mv::Opt(o) => match o {
            Option::None => {},
            Option::Some(x) => {
                assert(w == ref_word(base + enc_len(*x) + 1));
                assert(is_reference_word(w));
            },
        },
        Mv::List(s) => {
            if s.len() > 0 {
                assert(enc_len(m) == enc_len_list(s, 0));
                assert(enc_len_list(s, 0) == enc_len_list(s, 1) + enc_len(s[0]) + 3);
                assert(w == ref_word(base + enc_len_list(s, 1) + enc_len(s[0]) + 1));
                assert(is_reference_word(w));
            } else {
                assert(w == imm_word(0));
            }
        },
        Mv::Str(b) => {
            assert(enc_len(m) == str_size_words(b) + 1);
            assert(w == ref_word(base + 1));
            assert(is_reference_word(w));
        },
        Mv::FloatBits(_) => {
            assert(w == ref_word(base + 1));
            assert(is_reference_word(w));
        },
        Mv::Record(fs) => {
            assert(enc_len(m) == enc_len_upto(fs, fs.len() as int) + fs.len() + 1);
            assert(w == ref_word(base + enc_len_upto(fs, fs.len() as int) + 1));
            assert(is_reference_word(w));
        },
        Mv::DataCtor(_, fs) => {
            assert(enc_len(m) == enc_len_upto(fs, fs.len() as int) + fs.len() + 1);
            assert(w == ref_word(base + enc_len_upto(fs, fs.len() as int) + 1));
            assert(is_reference_word(w));
        },
        _ => {},
    }
}

/// A block value's word is an aligned reference into the value's own
/// region: at or past the first appended word and strictly before the
/// region's end, so a parent block built later always sees it at a lower
/// offset than itself.
pub proof fn lemma_enc_val_in_region(m: Mv, base: int)
    requires
        wf(m),
        0 <= base,
        base + enc_len(m) <= ARENA_MAX,
        is_block_value(m),
    ensures
        enc_val(m, base) as int % 8 == 0,
        8 * (base + 1) <= enc_val(m, base) as int,
        enc_val(m, base) as int <= 8 * (base + enc_len(m) - 1),
{
    let w = enc_val(m, base);
    match m {
        Mv::Opt(o) => match o {
            Option::None => {},
            Option::Some(x) => {
                assert(w == ref_word(base + enc_len(*x) + 1));
            },
        },
        Mv::List(s) => {
            assert(enc_len_list(s, 0) == enc_len_list(s, 1) + enc_len(s[0]) + 3);
            assert(w == ref_word(base + enc_len_list(s, 1) + enc_len(s[0]) + 1));
        },
        Mv::Str(b) => {
            assert(enc_len(m) == str_size_words(b) + 1);
            assert(w == ref_word(base + 1));
        },
        Mv::FloatBits(_) => {
            assert(w == ref_word(base + 1));
        },
        Mv::Record(fs) => {
            assert(enc_len(m) == enc_len_upto(fs, fs.len() as int) + fs.len() + 1);
            assert(w == ref_word(base + enc_len_upto(fs, fs.len() as int) + 1));
        },
        Mv::DataCtor(_, fs) => {
            assert(enc_len(m) == enc_len_upto(fs, fs.len() as int) + fs.len() + 1);
            assert(w == ref_word(base + enc_len_upto(fs, fs.len() as int) + 1));
        },
        _ => {},
    }
}

/// Option nesting: `None` is the immediate 0; `Some(x)` is a one-field
/// block, tag 0, whose single field holds exactly the word `x` encodes
/// to, so a present inner `None` is the immediate 0 inside a block and a
/// present inner `Some` is a block reference inside a block.
pub proof fn lemma_option_nesting(x: Mv, base: int)
    requires
        0 <= base,
        base + enc_len(x) + 2 <= ARENA_MAX,
    ensures
        enc_val(Mv::Opt(Option::None), base) == imm_word(0),
        enc_words(Mv::Opt(Option::Some(Box::new(x))), base) == enc_words(x, base) + seq![
            header_word(1, 0),
            enc_val(x, base),
        ],
        enc_val(Mv::Opt(Option::Some(Box::new(x))), base) == ref_word(base + enc_len(x) + 1),
        is_reference_word(enc_val(Mv::Opt(Option::Some(Box::new(x))), base)),
{
}

/// The empty list is the immediate 0; a non-empty list tail encodes to a
/// reference to its topmost cons cell, and that cell's own tail field
/// (the encoding of the next shorter tail) is either the immediate 0 or
/// a reference to a cell that was completed earlier, at a lower offset —
/// the pointer-direction invariant for lists.
pub proof fn lemma_list_tail_points_back(s: Seq<Mv>, i: int, base: int)
    requires
        0 <= base,
        0 <= i < s.len(),
        base + enc_len_list(s, i) <= ARENA_MAX,
    ensures
        enc_val_list(s, s.len() as int, base) == imm_word(0),
        enc_val_list(s, i, base) == ref_word(
            base + enc_len_list(s, i + 1) + enc_len(s[i]) + 1,
        ),
        i + 1 < s.len() ==> enc_val_list(s, i + 1, base) == ref_word(
            base + enc_len_list(s, i + 2) + enc_len(s[i + 1]) + 1,
        ) && base + enc_len_list(s, i + 2) + enc_len(s[i + 1]) + 1 + 2 <= base + enc_len_list(
            s,
            i + 1,
        ) + enc_len(s[i]),
{
}

/// String layout: the payload of `len` content bytes spans exactly
/// `len / 8 + 1` words, the leading `len` payload bytes are the content
/// verbatim, every byte after them is zero padding except the last, and
/// the last payload byte is the padding count `8 - 1 - (len % 8)`.
pub proof fn lemma_string_padding(b: Seq<u8>, base: int)
    ensures
        enc_len(Mv::Str(b)) == b.len() / 8 + 2,
        enc_words(Mv::Str(b), base).len() == b.len() / 8 + 2,
        enc_words(Mv::Str(b), base)[0] == header_word(b.len() as int / 8 + 1, STRING_TAG),
        forall|i: int|
            0 <= i < b.len() ==> word_byte(
                #[trigger] enc_words(Mv::Str(b), base)[1 + i / 8],
                i % 8,
            ) == b[i],
        word_byte(enc_words(Mv::Str(b), base)[b.len() as int / 8 + 1], 7) == (7 - b.len() % 8) as u8,
        forall|i: int|
            b.len() <= i && i + 1 < 8 * str_size_words(b) ==> word_byte(
                #[trigger] enc_words(Mv::Str(b), base)[1 + i / 8],
                i % 8,
            ) == 0,
{
    let ws = enc_words(Mv::Str(b), base);
    assert forall|i: int| 0 <= i && i + 1 <= 8 * str_size_words(b) implies word_byte(
        #[trigger] ws[1 + i / 8],
        i % 8,
    ) == sbyte(b, i) by {
        assert(0 <= i / 8 < str_size_words(b));
        assert(ws[1 + i / 8] == str_word(b, i / 8));
        lemma_str_word_byte(b, i / 8, i % 8);
        assert(8 * (i / 8) + i % 8 == i);
    }
    assert(8 * (b.len() / 8) + b.len() % 8 == b.len());
    assert(word_byte(ws[b.len() as int / 8 + 1], 7) == sbyte(b, 8 * str_size_words(b) - 1)) by {
        let i = 8 * str_size_words(b) - 1;
        assert(i / 8 == b.len() / 8 && i % 8 == 7);
        assert(word_byte(ws[1 + i / 8], i % 8) == sbyte(b, i));
    };
    assert(forall|i: int| 0 <= i < b.len() ==> sbyte(b, i) == b[i]);
}

/// Constructor groups are numbered independently: a data-free
/// constructor encodes to the immediate of its index within the
/// data-free group, while a data-carrying constructor encodes to a block
/// whose header tag is its index within the data-carrying group; the two
/// numbering spaces never interact.
pub proof fn lemma_enum_tag_groups(i: int, t: u8, fs: Seq<Mv>, base: int)
    requires
        0 <= i,
        1 <= fs.len(),
    ensures
        enc_val(Mv::ConstCtor(i), base) == imm_word(i),
        enc_words(Mv::DataCtor(t, fs), base)[enc_len_upto(fs, fs.len() as int) as int]
            == header_word(fs.len() as int, t),
        enc_val(Mv::DataCtor(t, fs), base) == ref_word(
            base + enc_len_upto(fs, fs.len() as int) + 1,
        ),
{
    lemma_enc_words_fields_len(fs, fs.len() as int, base);
}

/// Record fields keep declaration order: payload word `j` of the block a
/// record encodes to is exactly the word its `j`-th field encodes to,
/// whatever the fields' shapes; the same holds for the payload of a
/// data-carrying constructor.
pub proof fn lemma_record_field_order(fs: Seq<Mv>, t: u8, j: int, base: int)
    requires
        1 <= fs.len(),
        0 <= j < fs.len(),
    ensures
        enc_words(Mv::Record(fs), base)[enc_len_upto(fs, fs.len() as int) + 1 + j]
            == enc_val_field(fs, j, base),
        enc_words(Mv::DataCtor(t, fs), base)[enc_len_upto(fs, fs.len() as int) + 1 + j]
            == enc_val_field(fs, j, base),
{
    lemma_enc_words_fields_len(fs, fs.len() as int, base);
    lemma_enc_vals_fields_index(fs, fs.len() as int, base);
}

/// Floats are boxed bit patterns: one block with the reserved float tag
/// and a single payload word holding the input's raw 64 bits unchanged.
pub proof fn lemma_float_boxing(bits: u64, base: int)
    ensures
        enc_words(Mv::FloatBits(bits), base) == seq![header_word(1, FLOAT_TAG), bits],
        enc_val(Mv::FloatBits(bits), base) == ref_word(base + 1),
{
}

} // verus!
