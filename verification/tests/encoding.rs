//! End-to-end checks of the encoded heap layout: each test builds a
//! native value, encodes a full session, and compares the arena words
//! and the root value against the layout the foreign runtime expects.

use camlrep::arena::Arena;
use camlrep::encode::encode_root;
use camlrep::encode::encoded_len;
use camlrep::encode::try_encode_root;
use camlrep::model::NativeValue;
use camlrep::value::Value;

fn imm(n: i64) -> u64 {
    (n as u64).wrapping_mul(2).wrapping_add(1)
}

fn reference(first_field: u64) -> u64 {
    8 * first_field
}

fn header(size: u64, tag: u64) -> u64 {
    1024 * size + tag
}

#[test]
fn encodes_char_a() {
    let (words, root) = encode_root(&NativeValue::Char('a'), 8);
    assert_eq!(words.len(), 0);
    assert_eq!(root.word, imm(97));
}

#[test]
fn encodes_five() {
    let (words, root) = encode_root(&NativeValue::Int(5), 8);
    assert_eq!(words.len(), 0);
    assert_eq!(root.word, 11);
}

#[test]
fn encodes_negative_int() {
    let (_, root) = encode_root(&NativeValue::Int(-1), 8);
    assert_eq!(root.word, u64::MAX); // two's complement of -1
}

#[test]
fn encodes_true_and_false() {
    let (_, t) = encode_root(&NativeValue::Bool(true), 8);
    let (_, f) = encode_root(&NativeValue::Bool(false), 8);
    assert_eq!(t.word, 3);
    assert_eq!(f.word, 1);
}

#[test]
fn encodes_unit() {
    let (words, root) = encode_root(&NativeValue::Unit, 8);
    assert_eq!(words.len(), 0);
    assert_eq!(root.word, 1);
}

#[test]
fn encodes_none() {
    let (words, root) = encode_root(&NativeValue::Opt(None), 8);
    assert_eq!(words.len(), 0);
    assert_eq!(root.word, imm(0));
    assert!(root.is_immediate());
}

#[test]
fn encodes_some_five() {
    let v = NativeValue::Opt(Some(Box::new(NativeValue::Int(5))));
    let (words, root) = encode_root(&v, 8);
    assert_eq!(words, vec![header(1, 0), 11]);
    assert_eq!(root.word, reference(1));
    assert!(root.is_reference());
}

#[test]
fn encodes_some_none() {
    let v = NativeValue::Opt(Some(Box::new(NativeValue::Opt(None))));
    let (words, root) = encode_root(&v, 8);
    // the single field equals the encoding of None itself
    assert_eq!(words, vec![header(1, 0), imm(0)]);
    assert_eq!(root.word, reference(1));
}

#[test]
fn encodes_some_some_five() {
    let v = NativeValue::Opt(Some(Box::new(NativeValue::Opt(Some(Box::new(
        NativeValue::Int(5),
    ))))));
    let (words, root) = encode_root(&v, 8);
    assert_eq!(words, vec![header(1, 0), 11, header(1, 0), reference(1)]);
    assert_eq!(root.word, reference(3));
    // the outer block's field is itself a block reference, never an immediate
    assert_eq!(words[3] % 2, 0);
}

#[test]
fn encodes_empty_list() {
    let (words, root) = encode_root(&NativeValue::List(vec![]), 8);
    assert_eq!(words.len(), 0);
    assert_eq!(root.word, imm(0));
}

#[test]
fn encodes_five_list() {
    let v = NativeValue::List(vec![NativeValue::Int(5)]);
    let (words, root) = encode_root(&v, 8);
    assert_eq!(words, vec![header(2, 0), 11, imm(0)]);
    assert_eq!(root.word, reference(1));
}

#[test]
fn encodes_one_two_three_list() {
    let v = NativeValue::List(vec![
        NativeValue::Int(1),
        NativeValue::Int(2),
        NativeValue::Int(3),
    ]);
    let (words, root) = encode_root(&v, 8);
    // built tail first: [3], then 2 consed on, then 1; every tail field
    // points at the cell completed just before it
    assert_eq!(
        words,
        vec![
            header(2, 0),
            7,
            imm(0),
            header(2, 0),
            5,
            reference(1),
            header(2, 0),
            3,
            reference(4),
        ]
    );
    assert_eq!(root.word, reference(7));
}

#[test]
fn encodes_float_list() {
    let v = NativeValue::List(vec![
        NativeValue::FloatBits(1.0f64.to_bits()),
        NativeValue::FloatBits(2.0f64.to_bits()),
        NativeValue::FloatBits(3.0f64.to_bits()),
    ]);
    let (words, root) = encode_root(&v, 8);
    assert_eq!(
        words,
        vec![
            header(1, 253),
            3.0f64.to_bits(),
            header(2, 0),
            reference(1),
            imm(0),
            header(1, 253),
            2.0f64.to_bits(),
            header(2, 0),
            reference(6),
            reference(3),
            header(1, 253),
            1.0f64.to_bits(),
            header(2, 0),
            reference(11),
            reference(8),
        ]
    );
    assert_eq!(root.word, reference(13));
}

#[test]
fn encodes_foo_struct() {
    // struct Foo { a: 25, b: true }
    let v = NativeValue::Record(vec![NativeValue::Int(25), NativeValue::Bool(true)]);
    let (words, root) = encode_root(&v, 8);
    assert_eq!(words, vec![header(2, 0), imm(25), 3]);
    assert_eq!(root.word, reference(1));
}

#[test]
fn encodes_bar_struct() {
    // struct Bar { c: Foo { a: 42, b: false }, d: Some([Some(88), None, Some(66)]) }
    let foo = NativeValue::Record(vec![NativeValue::Int(42), NativeValue::Bool(false)]);
    let d = NativeValue::Opt(Some(Box::new(NativeValue::List(vec![
        NativeValue::Opt(Some(Box::new(NativeValue::Int(88)))),
        NativeValue::Opt(None),
        NativeValue::Opt(Some(Box::new(NativeValue::Int(66)))),
    ]))));
    let v = NativeValue::Record(vec![foo, d]);
    let (words, root) = encode_root(&v, 8);
    assert_eq!(
        words,
        vec![
            header(2, 0),
            imm(42),
            1, // Foo block
            header(1, 0),
            imm(66), // Some(66)
            header(2, 0),
            reference(4),
            imm(0), // cell [Some(66)]
            header(2, 0),
            imm(0),
            reference(6), // cell [None, ...]
            header(1, 0),
            imm(88), // Some(88)
            header(2, 0),
            reference(12),
            reference(9), // cell [Some(88), ...]
            header(1, 0),
            reference(14), // d = Some(list)
            header(2, 0),
            reference(1),
            reference(17), // Bar block
        ]
    );
    assert_eq!(root.word, reference(19));
}

#[test]
fn encodes_apple_and_kiwi() {
    // enum Fruit { Apple, Orange(i64), Pear { num: i64 }, Kiwi }
    // data-free constructors are numbered 0, 1 within their own group
    let (_, apple) = encode_root(&NativeValue::ConstCtor(0), 8);
    let (_, kiwi) = encode_root(&NativeValue::ConstCtor(1), 8);
    assert_eq!(apple.word, imm(0));
    assert_eq!(kiwi.word, imm(1));
}

#[test]
fn encodes_orange_and_pear() {
    // data-carrying constructors are numbered 0, 1 within their own group,
    // independently of the data-free ones
    let orange = NativeValue::DataCtor(0, vec![NativeValue::Int(39)]);
    let pear = NativeValue::DataCtor(1, vec![NativeValue::Int(76)]);
    let (ow, ov) = encode_root(&orange, 8);
    let (pw, pv) = encode_root(&pear, 8);
    assert_eq!(ow, vec![header(1, 0), imm(39)]);
    assert_eq!(ov.word, reference(1));
    assert_eq!(pw, vec![header(1, 1), imm(76)]);
    assert_eq!(pv.word, reference(1));
}

#[test]
fn encodes_zero_float() {
    let (words, root) = encode_root(&NativeValue::FloatBits(0.0f64.to_bits()), 8);
    assert_eq!(words, vec![header(1, 253), 0]);
    assert_eq!(root.word, reference(1));
}

#[test]
fn encodes_one_two_float() {
    let (words, root) = encode_root(&NativeValue::FloatBits(1.2f64.to_bits()), 8);
    // the raw IEEE-754 pattern, not a rounded or truncated value
    assert_eq!(words, vec![header(1, 253), 0x3FF3_3333_3333_3333]);
    assert_ne!(words[1], 1); // not the integer 1
    assert_eq!(root.word, reference(1));
}

#[test]
fn manual_blocks_match_encoder() {
    // building Some(5) by hand through allocate and set_field gives the
    // same words as the encoder
    let mut arena = Arena::new_with_size(8);
    let five = Value::of_int(5);
    let h = arena.allocate(1, 0);
    arena.set_field(h, 0, five);
    assert_eq!(arena.len(), 2);
    assert_eq!(arena.word(0), header(1, 0));
    assert_eq!(arena.word(1), 11);
    let words = arena.into_words();
    let v = NativeValue::Opt(Some(Box::new(NativeValue::Int(5))));
    let (expect, _) = encode_root(&v, 8);
    assert_eq!(words, expect);
}

#[test]
fn rejects_out_of_range_int() {
    // the immediate tag costs one bit: only 63-bit integers encode
    assert!(try_encode_root(&NativeValue::Int(i64::MAX), 8).is_none());
    assert!(try_encode_root(&NativeValue::Int(i64::MIN), 8).is_none());
    let max_ok = (1i64 << 62) - 1;
    let min_ok = -(1i64 << 62);
    assert!(try_encode_root(&NativeValue::Int(max_ok), 8).is_some());
    assert!(try_encode_root(&NativeValue::Int(min_ok), 8).is_some());
    assert!(try_encode_root(&NativeValue::Int(max_ok + 1), 8).is_none());
    assert!(try_encode_root(&NativeValue::Int(min_ok - 1), 8).is_none());
}

#[test]
fn rejects_malformed_blocks() {
    // a structured block needs at least one field and a non-reserved tag
    assert!(try_encode_root(&NativeValue::Record(vec![]), 8).is_none());
    assert!(try_encode_root(&NativeValue::DataCtor(0, vec![]), 8).is_none());
    assert!(try_encode_root(&NativeValue::DataCtor(246, vec![NativeValue::Int(1)]), 8).is_none());
    assert!(try_encode_root(&NativeValue::DataCtor(245, vec![NativeValue::Int(1)]), 8).is_some());
}

#[test]
fn measures_exactly() {
    let v = NativeValue::List(vec![
        NativeValue::Int(1),
        NativeValue::Int(2),
        NativeValue::Int(3),
    ]);
    assert_eq!(encoded_len(&v), Some(9));
    let (words, root) = try_encode_root(&v, 8).unwrap();
    assert_eq!(words.len(), 9);
    let (expect_words, expect_root) = encode_root(&v, 8);
    assert_eq!(words, expect_words);
    assert_eq!(root, expect_root);
    assert_eq!(encoded_len(&NativeValue::Str(b"abcdefgh".to_vec())), Some(3));
    assert_eq!(encoded_len(&NativeValue::Unit), Some(0));
}

#[test]
fn immediate_and_reference_are_exclusive() {
    let (_, five) = encode_root(&NativeValue::Int(5), 8);
    assert!(five.is_immediate() && !five.is_reference());
    let v = NativeValue::Opt(Some(Box::new(NativeValue::Int(5))));
    let (_, boxed) = encode_root(&v, 8);
    assert!(boxed.is_reference() && !boxed.is_immediate());
}
