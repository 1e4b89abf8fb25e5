//! String blocks across word-boundary lengths: the payload must span
//! exactly floor(len/8)+1 words, carry the bytes verbatim, pad with
//! zeros, and store the padding count in the final byte.

use camlrep::encode::encode_root;
use camlrep::model::NativeValue;

fn encode_str(s: &str) -> (Vec<u64>, u64) {
    let v = NativeValue::Str(s.as_bytes().to_vec());
    let (words, root) = encode_root(&v, 8);
    (words, root.word)
}

fn payload_byte(words: &[u64], i: usize) -> u8 {
    (words[1 + i / 8] >> (8 * (i % 8))) as u8
}

fn check_layout(s: &str) {
    let (words, root) = encode_str(s);
    let len = s.len();
    let size = len / 8 + 1;
    assert_eq!(words.len(), size + 1);
    assert_eq!(words[0], 1024 * size as u64 + 252);
    assert_eq!(root, 8);
    for (i, b) in s.bytes().enumerate() {
        assert_eq!(payload_byte(&words, i), b);
    }
    for i in len..size * 8 - 1 {
        assert_eq!(payload_byte(&words, i), 0);
    }
    assert_eq!(payload_byte(&words, size * 8 - 1), (8 - 1 - len % 8) as u8);
}

#[test]
fn encodes_empty_string() {
    let (words, root) = encode_str("");
    assert_eq!(words, vec![1024 + 252, 0x0700_0000_0000_0000]);
    assert_eq!(root, 8);
    check_layout("");
}

#[test]
fn encodes_a_string() {
    let (words, _) = encode_str("a");
    assert_eq!(words, vec![1024 + 252, 0x0600_0000_0000_0061]);
    check_layout("a");
}

#[test]
fn encodes_ab_string() {
    let (words, _) = encode_str("ab");
    assert_eq!(words, vec![1024 + 252, 0x0500_0000_0000_6261]);
    check_layout("ab");
}

#[test]
fn encodes_abcde_string() {
    let (words, _) = encode_str("abcde");
    assert_eq!(words, vec![1024 + 252, 0x0200_0065_6463_6261]);
    check_layout("abcde");
}

#[test]
fn encodes_abcdefg_string() {
    let (words, _) = encode_str("abcdefg");
    assert_eq!(words, vec![1024 + 252, 0x0067_6665_6463_6261]);
    check_layout("abcdefg");
}

#[test]
fn encodes_abcdefgh_string() {
    // exactly one full word of content still gets a fresh padding word
    let (words, _) = encode_str("abcdefgh");
    assert_eq!(
        words,
        vec![2048 + 252, 0x6867_6665_6463_6261, 0x0700_0000_0000_0000]
    );
    check_layout("abcdefgh");
}
