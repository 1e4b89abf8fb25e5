//! A reference decoder, in specification only: given the shape of the
//! value expected, it reads an encoded word against an arena image and
//! reconstructs the model value. Decoding foreign data back into native
//! form is no feature of this library (it only writes); the decoder
//! exists so the round-trip law below can be stated and proved: whatever
//! the encoder produces, an independent reader of the same binary format
//! recovers the original value.

use vstd::prelude::*;

use crate::model::Mv;
use crate::model::enc_len;
use crate::model::enc_len_list;
use crate::model::enc_len_upto;
use crate::model::enc_val;
use crate::model::enc_val_field;
use crate::model::enc_val_list;
use crate::model::enc_vals_fields;
use crate::model::enc_words;
use crate::model::enc_words_fields;
use crate::model::enc_words_list;
use crate::model::lemma_enc_len_upto_mono;
use crate::model::lemma_enc_vals_fields_index;
use crate::model::lemma_enc_words_fields_len;
use crate::model::lemma_enc_words_len;
use crate::model::lemma_enc_words_list_len;
use crate::model::lemma_str_word_byte;
use crate::model::sbyte;
use crate::model::str_size_words;
use crate::model::str_word;
use crate::model::str_words;
use crate::model::wf;
use crate::model::wf_seq;
use crate::model::word_byte;
use crate::value::ARENA_MAX;
use crate::value::FLOAT_TAG;
use crate::value::MAX_STRUCT_TAG;
use crate::value::STRING_TAG;
use crate::value::header_word;
use crate::value::imm_int;
use crate::value::imm_word;

verus! {

/// The shape of a native value: what a reader must know to interpret an
/// encoded word, mirroring the type information the encoding rules
/// consume. A sum shape carries the size of its data-free group and the
/// field shapes of each data-carrying constructor.
pub enum Shape {
    Int,
    Bool,
    Char,
    Unit,
    Opt(Box<Shape>),
    List(Box<Shape>),
    Str,
    Float,
    Record(Seq<Shape>),
    Sum(int, Seq<Seq<Shape>>),
}

/// Whether a model value fits a shape.
pub open spec fn has_shape(m: Mv, s: Shape) -> bool
    decreases m,
{
    match m {
        Mv::Int(_) => s is Int,
        Mv::Bool(_) => s is Bool,
        Mv::Char(_) => s is Char,
        Mv::Unit => s is Unit,
        Mv::Opt(o) => match s {
            Shape::Opt(e) => match o {
                Option::None => true,
                Option::Some(x) => has_shape(*x, *e),
            },
            _ => false,
        },
        Mv::List(xs) => match s {
            Shape::List(e) => has_shape_list(xs, 0, *e),
            _ => false,
        },
        Mv::Str(_) => s is Str,
        Mv::FloatBits(_) => s is Float,
        Mv::Record(fs) => match s {
            Shape::Record(ss) => fs.len() == ss.len() && has_shape_fields(fs, ss, 0),
            _ => false,
        },
        Mv::ConstCtor(i) => match s {
            Shape::Sum(n, _) => 0 <= i < n,
            _ => false,
        },
        Mv::DataCtor(t, fs) => match s {
            Shape::Sum(_, ds) => t < ds.len() && fs.len() == ds[t as int].len()
                && has_shape_fields(fs, ds[t as int], 0),
            _ => false,
        },
    }
}

/// Every element of the tail `xs[i..]` has the element shape.
pub open spec fn has_shape_list(xs: Seq<Mv>, i: int, e: Shape) -> bool
    decreases xs, xs.len() - i,
{
    if 0 <= i < xs.len() {
        has_shape(xs[i], e) && has_shape_list(xs, i + 1, e)
    } else {
        true
    }
}

/// Field `j` has shape `ss[j]`, for every `j` from `i` on.
pub open spec fn has_shape_fields(fs: Seq<Mv>, ss: Seq<Shape>, i: int) -> bool
    decreases fs, fs.len() - i,
{
    if 0 <= i < fs.len() {
        has_shape(fs[i], ss[i]) && has_shape_fields(fs, ss, i + 1)
    } else {
        true
    }
}

/// Termination measure for the decoder: references shrink strictly as it
/// follows the backward-pointing block graph; immediates end it.
pub open spec fn dec_measure(w: u64) -> int {
    if w % 2 == 0 {
        w as int
    } else {
        0
    }
}

/// Decodes an immediate word against a shape.
pub open spec fn decode_immediate(s: Shape, w: u64) -> Option<Mv> {
    match s {
        Shape::Int => Option::Some(Mv::Int(imm_int(w))),
        Shape::Bool => if w == 1 {
            Option::Some(Mv::Bool(false))
        } else if w == 3 {
            Option::Some(Mv::Bool(true))
        } else {
            Option::None
        },
        Shape::Char => if w as int / 2 <= 0x10FFFF {
            Option::Some(Mv::Char(w as int / 2))
        } else {
            Option::None
        },
        Shape::Unit => if w == 1 {
            Option::Some(Mv::Unit)
        } else {
            Option::None
        },
        Shape::Opt(_) => if w == 1 {
            Option::Some(Mv::Opt(Option::None))
        } else {
            Option::None
        },
        Shape::List(_) => if w == 1 {
            Option::Some(Mv::List(Seq::empty()))
        } else {
            Option::None
        },
        Shape::Sum(n, _) => if w as int / 2 < n {
            Option::Some(Mv::ConstCtor(w as int / 2))
        } else {
            Option::None
        },
        _ => Option::None,
    }
}

/// Decodes one word against a shape and an arena image. A reference is
/// followed only into a block that lies whole inside the image; child
/// words are followed only backward, which is what the pointer-direction
/// invariant guarantees of everything the encoder writes.
pub open spec fn decode(s: Shape, mem: Seq<u64>, w: u64) -> Option<Mv>
    decreases dec_measure(w), 1int, 0int,
{
    if w % 2 == 1 {
        decode_immediate(s, w)
    } else if w % 8 == 0 && w >= 8 && w as int / 8 - 1 < mem.len() && w as int / 8 + (mem[w as int
        / 8 - 1] as int / 1024) <= mem.len() {
        let fi = w as int / 8;
        let size = mem[fi - 1] as int / 1024;
        let tag = mem[fi - 1] as int % 1024;
        match s {
            Shape::Opt(e) => if size == 1 && tag == 0 {
                match decode_child(*e, mem, mem[fi], w) {
                    Option::Some(x) => Option::Some(Mv::Opt(Option::Some(Box::new(x)))),
                    Option::None => Option::None,
                }
            } else {
                Option::None
            },
            Shape::List(e) => if size == 2 && tag == 0 {
                match decode_child(*e, mem, mem[fi], w) {
                    Option::Some(h) => match decode_child(Shape::List(e), mem, mem[fi + 1], w) {
                        Option::Some(Mv::List(ts)) => Option::Some(Mv::List(seq![h] + ts)),
                        _ => Option::None,
                    },
                    Option::None => Option::None,
                }
            } else {
                Option::None
            },
            Shape::Str => if tag == STRING_TAG as int && size >= 1 {
                let pad = word_byte(mem[fi + size - 1], 7) as int;
                if pad <= 7 {
                    Option::Some(
                        Mv::Str(
                            Seq::new((8 * size - 1 - pad) as nat, |i: int| word_byte(mem[fi + i / 8], i % 8)),
                        ),
                    )
                } else {
                    Option::None
                }
            } else {
                Option::None
            },
            Shape::Float => if tag == FLOAT_TAG as int && size == 1 {
                Option::Some(Mv::FloatBits(mem[fi]))
            } else {
                Option::None
            },
            Shape::Record(ss) => if tag == 0 && size == ss.len() && size >= 1 {
                match decode_fields(ss, mem, fi, 0, w) {
                    Option::Some(fs) => Option::Some(Mv::Record(fs)),
                    Option::None => Option::None,
                }
            } else {
                Option::None
            },
            Shape::Sum(_, ds) => if 0 <= tag <= MAX_STRUCT_TAG as int && tag < ds.len() && size
                == ds[tag].len() && size >= 1 {
                match decode_fields(ds[tag], mem, fi, 0, w) {
                    Option::Some(fs) => Option::Some(Mv::DataCtor(tag as u8, fs)),
                    Option::None => Option::None,
                }
            } else {
                Option::None
            },
            _ => Option::None,
        }
    } else {
        Option::None
    }
}

/// Follows one child word: an immediate is decoded directly, a reference
/// only when it points strictly backward; anything else is rejected.
pub open spec fn decode_child(s: Shape, mem: Seq<u64>, c: u64, parent: u64) -> Option<Mv>
    decreases dec_measure(parent), 0int, 0int,
{
    if parent % 8 == 0 && parent >= 8 && (c % 2 == 1 || c < parent) {
        decode(s, mem, c)
    } else {
        Option::None
    }
}

/// Decodes the fields `i ..` of a block whose first payload word sits at
/// `fi`, each against its own shape.
pub open spec fn decode_fields(
    ss: Seq<Shape>,
    mem: Seq<u64>,
    fi: int,
    i: int,
    parent: u64,
) -> Option<Seq<Mv>>
    decreases dec_measure(parent), 0int, ss.len() - i,
{
    if i < 0 || i > ss.len() {
        Option::None
    } else if i == ss.len() {
        Option::Some(Seq::empty())
    } else {
        match decode_child(ss[i], mem, mem[fi + i], parent) {
            Option::Some(m) => match decode_fields(ss, mem, fi, i + 1, parent) {
                Option::Some(rest) => Option::Some(seq![m] + rest),
                Option::None => Option::None,
            },
            Option::None => Option::None,
        }
    }
}

/// The round-trip law: whatever well-formed value the encoder lowers,
/// the reference decoder recovers from the written words — for every
/// supported shape, decoding the encoding gives back the value. `mem` is
/// any arena image that carries the encoding's region unchanged, which
/// is exactly what the encoder guarantees, since later encodings only
/// append.
#[verifier::rlimit(80)]
pub proof fn lemma_round_trip(m: Mv, s: Shape, mem: Seq<u64>, base: int)
    requires
        wf(m),
        has_shape(m, s),
        0 <= base,
        base + enc_len(m) <= mem.len(),
        mem.len() <= ARENA_MAX,
        forall|k: int| base <= k < base + enc_len(m) ==> mem[k] == enc_words(m, base)[k - base],
    ensures
        decode(s, mem, enc_val(m, base)) == Option::Some(m),
    decreases m,
{
    let w = enc_val(m, base);
    match m {
        Mv::Int(n) => {
            if n >= 0 {
                assert(w as int == 2 * n + 1);
                assert(imm_int(w) == n);
            } else {
                assert(w as int == 2 * n + 1 + 0x1_0000_0000_0000_0000);
                assert(w as int / 2 == n + 0x8000_0000_0000_0000);
                assert(imm_int(w) == n);
            }
        },
        Mv::Bool(_) => {},
        Mv::Char(c) => {
            assert(w as int == 2 * c + 1);
        },
        Mv::Unit => {},
        Mv::ConstCtor(i) => {
            assert(w as int == 2 * i + 1);
        },
        Mv::Opt(o) => match o {
            Option::None => {
                assert(w == 1);
            },
            Option::Some(x) => match s {
                Shape::Opt(e) => {
                    let xm = *x;
                    let fi = base + enc_len(xm) + 1;
                    lemma_enc_words_len(xm, base);
                    assert(enc_words(m, base) == enc_words(xm, base) + seq![
                        header_word(1, 0),
                        enc_val(xm, base),
                    ]);
                    assert(w as int == 8 * fi);
                    assert(mem[fi - 1] == header_word(1, 0));
                    assert(mem[fi - 1] as int == 1024);
                    assert(mem[fi] == enc_val(xm, base));
                    assert forall|k: int| base <= k < base + enc_len(xm) implies mem[k]
                        == enc_words(xm, base)[k - base] by {
                        assert(mem[k] == enc_words(m, base)[k - base]);
                    }
                    lemma_round_trip(xm, *e, mem, base);
                    let c = mem[fi];
                    if crate::laws::is_block_value(xm) {
                        crate::laws::lemma_enc_val_in_region(xm, base);
                        assert(c < w);
                    } else {
                        crate::laws::lemma_value_tag(xm, base);
                        assert(c % 2 == 1);
                    }
                    assert(decode_child(*e, mem, c, w) == Option::Some(xm));
                    assert(decode(s, mem, w) == Option::Some(Mv::Opt(Option::Some(Box::new(xm)))));
                },
                _ => {
                    assert(false);
                },
            },
        },
        Mv::List(xs) => match s {
            Shape::List(e) => {
                if xs.len() == 0 {
                    assert(w == imm_word(0));
                    assert(xs =~= Seq::<Mv>::empty());
                } else {
                    lemma_round_trip_list(xs, *e, mem, base, 0);
                    assert(xs.skip(0) =~= xs);
                    assert(Shape::List(Box::new(*e)) == s);
                }
            },
            _ => {
                assert(false);
            },
        },
        Mv::Str(b) => {
            let size = str_size_words(b) as int;
            let fi = base + 1;
            assert(enc_words(m, base) == seq![header_word(size, STRING_TAG)] + str_words(b));
            assert(w as int == 8 * fi);
            assert(mem[base] == header_word(size, STRING_TAG));
            assert(mem[base] as int == 1024 * size + 252);
            assert(mem[base] as int / 1024 == size && mem[base] as int % 1024 == 252);
            assert forall|j: int| 0 <= j < size implies mem[fi + j] == str_word(b, j) by {
                assert(mem[fi + j] == enc_words(m, base)[1 + j]);
            }
            lemma_str_word_byte(b, size - 1, 7);
            assert(8 * (size - 1) + 7 == 8 * size - 1);
            assert(8 * (b.len() / 8) + b.len() % 8 == b.len());
            assert(sbyte(b, 8 * size - 1) == (7 - b.len() % 8) as u8);
            assert(word_byte(mem[fi + size - 1], 7) as int == 7 - b.len() % 8);
            let pad = word_byte(mem[fi + size - 1], 7) as int;
            assert(8 * size - 1 - pad == b.len());
            assert forall|ii: int| 0 <= ii < b.len() implies word_byte(mem[fi + ii / 8], ii % 8)
                == b[ii] by {
                assert(0 <= ii / 8 < size);
                assert(mem[fi + ii / 8] == str_word(b, ii / 8));
                lemma_str_word_byte(b, ii / 8, ii % 8);
                assert(8 * (ii / 8) + ii % 8 == ii);
                assert(sbyte(b, ii) == b[ii]);
            }
            assert(Seq::new((8 * size - 1 - pad) as nat, |ii: int| word_byte(mem[fi + ii / 8], ii % 8))
                =~= b);
        },
        Mv::FloatBits(bits) => {
            let fi = base + 1;
            assert(enc_words(m, base) == seq![header_word(1, FLOAT_TAG), bits]);
            assert(w as int == 8 * fi);
            assert(mem[base] == header_word(1, FLOAT_TAG));
            assert(mem[base] as int == 1024 + 253);
            assert(mem[fi] == bits);
        },
        Mv::Record(fs) => match s {
            Shape::Record(ss) => {
                let n = fs.len() as int;
                let upto = enc_len_upto(fs, n) as int;
                let fi = base + upto + 1;
                lemma_enc_words_fields_len(fs, n, base);
                lemma_enc_vals_fields_index(fs, n, base);
                assert(enc_words(m, base) == enc_words_fields(fs, n, base) + seq![
                    header_word(n, 0),
                ] + enc_vals_fields(fs, n, base));
                assert(w as int == 8 * fi);
                assert(mem[fi - 1] == header_word(n, 0));
                assert(mem[fi - 1] as int == 1024 * n);
                assert(mem[fi - 1] as int / 1024 == n && mem[fi - 1] as int % 1024 == 0);
                assert forall|j: int| 0 <= j < n implies mem[fi + j] == enc_val_field(
                    fs,
                    j,
                    base,
                ) by {
                    assert(mem[fi + j] == enc_words(m, base)[upto + 1 + j]);
                }
                assert forall|k: int| base <= k < base + upto implies mem[k] == enc_words_fields(
                    fs,
                    n,
                    base,
                )[k - base] by {
                    assert(mem[k] == enc_words(m, base)[k - base]);
                }
                lemma_round_trip_fields(fs, ss, mem, base, fi, 0, w);
                assert(fs.skip(0) =~= fs);
                assert(decode(s, mem, w) == Option::Some(Mv::Record(fs)));
            },
            _ => {
                assert(false);
            },
        },
        Mv::DataCtor(t, fs) => match s {
            Shape::Sum(_, ds) => {
                let n = fs.len() as int;
                let upto = enc_len_upto(fs, n) as int;
                let fi = base + upto + 1;
                lemma_enc_words_fields_len(fs, n, base);
                lemma_enc_vals_fields_index(fs, n, base);
                assert(enc_words(m, base) == enc_words_fields(fs, n, base) + seq![
                    header_word(n, t),
                ] + enc_vals_fields(fs, n, base));
                assert(w as int == 8 * fi);
                assert(mem[fi - 1] == header_word(n, t));
                assert(mem[fi - 1] as int == 1024 * n + t);
                assert(mem[fi - 1] as int / 1024 == n && mem[fi - 1] as int % 1024 == t);
                assert forall|j: int| 0 <= j < n implies mem[fi + j] == enc_val_field(
                    fs,
                    j,
                    base,
                ) by {
                    assert(mem[fi + j] == enc_words(m, base)[upto + 1 + j]);
                }
                assert forall|k: int| base <= k < base + upto implies mem[k] == enc_words_fields(
                    fs,
                    n,
                    base,
                )[k - base] by {
                    assert(mem[k] == enc_words(m, base)[k - base]);
                }
                lemma_round_trip_fields(fs, ds[t as int], mem, base, fi, 0, w);
                assert(fs.skip(0) =~= fs);
                assert(decode(s, mem, w) == Option::Some(Mv::DataCtor(t, fs)));
            },
            _ => {
                assert(false);
            },
        },
    }
}

/// The round-trip law at a whole session's boundary: decoding the root
/// word a session hands outward, against the words it hands outward,
/// recovers the encoded value.
pub proof fn lemma_round_trip_session(m: Mv, s: Shape)
    requires
        wf(m),
        has_shape(m, s),
        enc_len(m) <= ARENA_MAX,
    ensures
        decode(s, enc_words(m, 0), enc_val(m, 0)) == Option::Some(m),
{
    lemma_enc_words_len(m, 0);
    lemma_round_trip(m, s, enc_words(m, 0), 0);
}

/// Round trip for the tail `xs[i..]` of a list: decoding the tail's
/// encoded word against the same arena image yields exactly that tail.
#[verifier::rlimit(80)]
pub proof fn lemma_round_trip_list(xs: Seq<Mv>, e: Shape, mem: Seq<u64>, base: int, i: int)
    requires
        0 <= i <= xs.len(),
        wf_seq(xs, i),
        has_shape_list(xs, i, e),
        0 <= base,
        base + enc_len_list(xs, i) <= mem.len(),
        mem.len() <= ARENA_MAX,
        forall|k: int|
            base <= k < base + enc_len_list(xs, i) ==> mem[k] == enc_words_list(xs, i, base)[k
                - base],
    ensures
        decode(Shape::List(Box::new(e)), mem, enc_val_list(xs, i, base)) == Option::Some(
            Mv::List(xs.skip(i)),
        ),
    decreases xs, xs.len() - i,
{
    if i == xs.len() {
        assert(enc_val_list(xs, i, base) == imm_word(0));
        assert(xs.skip(i) =~= Seq::<Mv>::empty());
    } else {
        let hb = base + enc_len_list(xs, i + 1) as int;
        let fi = hb + enc_len(xs[i]) + 1;
        let w = enc_val_list(xs, i, base);
        lemma_enc_words_list_len(xs, i + 1, base);
        lemma_enc_words_len(xs[i], hb);
        assert(enc_words_list(xs, i, base) == enc_words_list(xs, i + 1, base) + enc_words(
            xs[i],
            hb,
        ) + seq![header_word(2, 0), enc_val(xs[i], hb), enc_val_list(xs, i + 1, base)]);
        assert(enc_len_list(xs, i) == enc_len_list(xs, i + 1) + enc_len(xs[i]) + 3);
        assert(w as int == 8 * fi);
        assert(mem[fi - 1] == header_word(2, 0));
        assert(mem[fi - 1] as int == 2048);
        assert(mem[fi] == enc_val(xs[i], hb));
        assert(mem[fi + 1] == enc_val_list(xs, i + 1, base));
        assert forall|k: int| hb <= k < hb + enc_len(xs[i]) implies mem[k] == enc_words(
            xs[i],
            hb,
        )[k - hb] by {
            assert(mem[k] == enc_words_list(xs, i, base)[k - base]);
        }
        lemma_round_trip(xs[i], e, mem, hb);
        let c0 = mem[fi];
        if crate::laws::is_block_value(xs[i]) {
            crate::laws::lemma_enc_val_in_region(xs[i], hb);
            assert(c0 < w);
        } else {
            crate::laws::lemma_value_tag(xs[i], hb);
            assert(c0 % 2 == 1);
        }
        assert(decode_child(e, mem, c0, w) == Option::Some(xs[i]));
        assert forall|k: int| base <= k < base + enc_len_list(xs, i + 1) implies mem[k]
            == enc_words_list(xs, i + 1, base)[k - base] by {
            assert(mem[k] == enc_words_list(xs, i, base)[k - base]);
        }
        lemma_round_trip_list(xs, e, mem, base, i + 1);
        let c1 = mem[fi + 1];
        if i + 1 < xs.len() {
            assert(c1 as int == 8 * (base + enc_len_list(xs, i + 2) + enc_len(xs[i + 1]) + 1));
            assert(enc_len_list(xs, i + 1) == enc_len_list(xs, i + 2) + enc_len(xs[i + 1]) + 3);
            assert(c1 < w);
        } else {
            assert(c1 == 1);
        }
        assert(decode_child(Shape::List(Box::new(e)), mem, c1, w) == Option::Some(
            Mv::List(xs.skip(i + 1)),
        ));
        assert(seq![xs[i]] + xs.skip(i + 1) =~= xs.skip(i));
        assert(decode(Shape::List(Box::new(e)), mem, w) == Option::Some(Mv::List(xs.skip(i))));
    }
}

/// Round trip for the fields `i ..` of one block: each field word in the
/// payload decodes, against its own shape, to the original field.
#[verifier::rlimit(80)]
pub proof fn lemma_round_trip_fields(
    fs: Seq<Mv>,
    ss: Seq<Shape>,
    mem: Seq<u64>,
    base: int,
    fi: int,
    i: int,
    w: u64,
)
    requires
        fs.len() == ss.len(),
        0 <= i <= fs.len(),
        wf_seq(fs, i),
        has_shape_fields(fs, ss, i),
        0 <= base,
        base + enc_len_upto(fs, fs.len() as int) <= mem.len(),
        mem.len() <= ARENA_MAX,
        w % 8 == 0,
        w as int >= 8 * (base + enc_len_upto(fs, fs.len() as int) + 1),
        forall|j: int| i <= j < fs.len() ==> mem[fi + j] == enc_val_field(fs, j, base),
        forall|k: int|
            base <= k < base + enc_len_upto(fs, fs.len() as int) ==> mem[k] == enc_words_fields(
                fs,
                fs.len() as int,
                base,
            )[k - base],
    ensures
        decode_fields(ss, mem, fi, i, w) == Option::Some(fs.skip(i)),
    decreases fs, fs.len() - i,
{
    if i == fs.len() {
        assert(fs.skip(i) =~= Seq::<Mv>::empty());
    } else {
        let n = fs.len() as int;
        let bj = base + enc_len_upto(fs, i) as int;
        lemma_enc_len_upto_mono(fs, i + 1, n);
        assert(enc_len_upto(fs, i + 1) == enc_len_upto(fs, i) + enc_len(fs[i]));
        assert forall|k: int| bj <= k < bj + enc_len(fs[i]) implies mem[k] == enc_words(
            fs[i],
            bj,
        )[k - bj] by {
            crate::model::lemma_enc_words_fields_at(fs, n, base, i, k - bj);
            assert(mem[k] == enc_words_fields(fs, n, base)[k - base]);
        }
        lemma_round_trip(fs[i], ss[i], mem, bj);
        let c = mem[fi + i];
        assert(c == enc_val_field(fs, i, base));
        assert(enc_val_field(fs, i, base) == enc_val(fs[i], bj));
        if crate::laws::is_block_value(fs[i]) {
            crate::laws::lemma_enc_val_in_region(fs[i], bj);
            assert(c as int <= 8 * (bj + enc_len(fs[i]) - 1));
            assert(c < w);
        } else {
            crate::laws::lemma_value_tag(fs[i], bj);
            assert(c % 2 == 1);
        }
        assert(decode_child(ss[i], mem, c, w) == Option::Some(fs[i]));
        lemma_round_trip_fields(fs, ss, mem, base, fi, i + 1, w);
        assert(seq![fs[i]] + fs.skip(i + 1) =~= fs.skip(i));
    }
}

} // verus!
