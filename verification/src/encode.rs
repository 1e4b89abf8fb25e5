//! The executable encoding protocol: one recursive routine that lowers a
//! native value into an arena, proved to append exactly the words the
//! model in `model` describes and to return exactly the predicted word.

use vstd::prelude::*;

use crate::arena::Arena;
use crate::model::NativeValue;
use crate::model::enc_len;
use crate::model::enc_len_list;
use crate::model::enc_len_upto;
use crate::model::enc_val;
use crate::model::enc_val_field;
use crate::model::enc_val_list;
use crate::model::enc_vals_fields;
use crate::model::enc_words;
use crate::model::enc_words_fields;
use crate::model::enc_words_list;
use crate::model::lemma_enc_len_list_mono;
use crate::model::lemma_enc_len_upto_mono;
use crate::model::lemma_enc_vals_fields_index;
use crate::model::lemma_enc_words_fields_len;
use crate::model::lemma_enc_words_len;
use crate::model::lemma_enc_words_list_len;
use crate::model::lemma_model_seq;
use crate::model::lemma_wf_seq_index;
use crate::model::model;
use crate::model::model_seq;
use crate::model::sbyte;
use crate::model::str_size_words;
use crate::model::str_word;
use crate::model::str_words;
use crate::model::wf;
use crate::model::wf_seq;
use crate::value::ARENA_MAX;
use crate::value::FLOAT_TAG;
use crate::value::MAX_STRUCT_TAG;
use crate::value::STRING_TAG;
use crate::value::Value;
use crate::value::header_word;

verus! {

broadcast use vstd::std_specs::vec::group_vec_axioms;

/// One payload byte of a string block, read from the content, the zero
/// padding, or the final padding-count byte.
fn string_byte(b: &Vec<u8>, i: usize) -> (r: u8)
    requires
        b@.len() < 0x4000_0000,
        i < 0x4000_0000,
    ensures
        r == sbyte(b@, i as int),
{
    if i < b.len() {
        b[i]
    } else if i + 1 == 8 * (b.len() / 8 + 1) {
        (7 - b.len() % 8) as u8
    } else {
        0
    }
}

impl Arena {
    /// Encodes one native value into this arena, recursively encoding
    /// children first so that every block only references lower offsets,
    /// and returns the value word for the foreign runtime. The arena is
    /// extended by exactly the words of the model region; nothing already
    /// written changes.
    #[verifier::loop_isolation(false)]
    #[verifier::rlimit(60)]
    pub fn encode(&mut self, v: &NativeValue) -> (r: Value)
        requires
            wf(model(*v)),
            old(self)@.len() + enc_len(model(*v)) <= ARENA_MAX,
        ensures
            final(self)@ == old(self)@ + enc_words(model(*v), old(self)@.len() as int),
            r.word == enc_val(model(*v), old(self)@.len() as int),
        decreases *v,
    {
        let ghost base = old(self)@.len() as int;
        match v {
            NativeValue::Int(n) => {
                proof {
                    assert(old(self)@ + enc_words(model(*v), base) =~= old(self)@);
                }
                Value::of_int(*n)
            },
            NativeValue::Bool(b) => {
                proof {
                    assert(old(self)@ + enc_words(model(*v), base) =~= old(self)@);
                }
                Value::of_bool(*b)
            },
            NativeValue::Char(c) => {
                proof {
                    assert(old(self)@ + enc_words(model(*v), base) =~= old(self)@);
                }
                Value::of_char(*c)
            },
            NativeValue::Unit => {
                proof {
                    assert(old(self)@ + enc_words(model(*v), base) =~= old(self)@);
                }
                Value::unit()
            },
            NativeValue::ConstCtor(i) => {
                proof {
                    assert(old(self)@ + enc_words(model(*v), base) =~= old(self)@);
                }
                Value::of_const_ctor(*i)
            },
            NativeValue::Opt(o) => match o {
                Option::None => {
                    proof {
                        assert(old(self)@ + enc_words(model(*v), base) =~= old(self)@);
                    }
                    Value::unit()
                },
                Option::Some(x) => {
                    let ghost xm = model(**x);
                    proof {
                        assert(enc_len(model(*v)) == enc_len(xm) + 2);
                    }
                    let xv = self.encode(&**x);
                    proof {
                        lemma_enc_words_len(xm, base);
                    }
                    let fields = vec![xv];
                    let r = self.push_block(0, &fields);
                    proof {
                        assert(self@ =~= old(self)@ + enc_words(model(*v), base));
                    }
                    r
                },
            },
            NativeValue::List(xs) => {
                let ghost s = model_seq(xs@, 0);
                proof {
                    lemma_model_seq(xs@, 0);
                }
                let mut tail = Value::unit();
                let mut i: usize = xs.len();
                proof {
                    assert(self@ =~= old(self)@ + enc_words_list(s, i as int, base));
                }
                while i > 0
                    invariant
                        i <= xs@.len(),
                        self@ == old(self)@ + enc_words_list(s, i as int, base),
                        tail.word == enc_val_list(s, i as int, base),
                    decreases i,
                {
                    i = i - 1;
                    proof {
                        lemma_wf_seq_index(s, 0, i as int);
                        lemma_enc_words_list_len(s, i as int + 1, base);
                        lemma_enc_len_list_mono(s, 0, i as int);
                        assert(decreases_to!(*v => *xs));
                        assert(decreases_to!(*xs => xs@[i as int]));
                    }
                    let ev = self.encode(&xs[i]);
                    let cell = vec![ev, tail];
                    proof {
                        lemma_enc_words_len(s[i as int], base + enc_len_list(s, i as int + 1));
                    }
                    tail = self.push_block(0, &cell);
                    proof {
                        assert(self@ =~= old(self)@ + enc_words_list(s, i as int, base));
                    }
                }
                tail
            },
            NativeValue::Str(b) => {
                proof {
                    assert(enc_len(model(*v)) == str_size_words(b@) + 1);
                    assert(b@.len() < 0x4000_0000) by {
                        assert(str_size_words(b@) == b@.len() / 8 + 1);
                        assert(b@.len() / 8 + 1 <= ARENA_MAX);
                    };
                }
                let size = b.len() / 8 + 1;
                let first_field = self.len() + 1;
                self.push_word(1024 * (size as u64) + (STRING_TAG as u64));
                proof {
                    assert(self@ =~= old(self)@ + seq![
                        header_word(str_size_words(b@) as int, STRING_TAG),
                    ] + str_words(b@).take(0));
                }
                let mut j: usize = 0;
                while j < size
                    invariant
                        j <= size,
                        self@ == old(self)@ + seq![
                            header_word(str_size_words(b@) as int, STRING_TAG),
                        ] + str_words(b@).take(j as int),
                    decreases size - j,
                {
                    let b0 = string_byte(b, 8 * j);
                    let b1 = string_byte(b, 8 * j + 1);
                    let b2 = string_byte(b, 8 * j + 2);
                    let b3 = string_byte(b, 8 * j + 3);
                    let b4 = string_byte(b, 8 * j + 4);
                    let b5 = string_byte(b, 8 * j + 5);
                    let b6 = string_byte(b, 8 * j + 6);
                    let b7 = string_byte(b, 8 * j + 7);
                    let w = (b0 as u64) + (b1 as u64) * 0x100 + (b2 as u64) * 0x1_0000 + (
                    b3 as u64) * 0x100_0000 + (b4 as u64) * 0x1_0000_0000 + (b5 as u64)
                        * 0x100_0000_0000 + (b6 as u64) * 0x1_0000_0000_0000 + (b7 as u64)
                        * 0x100_0000_0000_0000;
                    proof {
                        assert(w == str_word(b@, j as int));
                    }
                    self.push_word(w);
                    j = j + 1;
                    proof {
                        assert(self@ =~= old(self)@ + seq![
                            header_word(str_size_words(b@) as int, STRING_TAG),
                        ] + str_words(b@).take(j as int));
                    }
                }
                proof {
                    assert(str_words(b@).take(size as int) =~= str_words(b@));
                    assert(self@ =~= old(self)@ + enc_words(model(*v), base));
                }
                Value::of_block(first_field)
            },
            NativeValue::FloatBits(bits) => {
                let first_field = self.len() + 1;
                self.push_word(1024 + (FLOAT_TAG as u64));
                self.push_word(*bits);
                proof {
                    assert(self@ =~= old(self)@ + enc_words(model(*v), base));
                }
                Value::of_block(first_field)
            },
            NativeValue::Record(fs) => {
                proof {
                    lemma_model_seq(fs@, 0);
                    assert(decreases_to!(*v => *fs));
                }
                let r = self.encode_fields_block(0, fs);
                proof {
                    assert(self@ =~= old(self)@ + enc_words(model(*v), base));
                }
                r
            },
            NativeValue::DataCtor(t, fs) => {
                proof {
                    lemma_model_seq(fs@, 0);
                    assert(decreases_to!(*v => *fs));
                }
                let r = self.encode_fields_block(*t, fs);
                proof {
                    assert(self@ =~= old(self)@ + enc_words(model(*v), base));
                }
                r
            },
        }
    }

    /// Encodes every field left to right, then allocates the parent block
    /// with the given tag and the collected field values as its payload:
    /// the shared rule for records and data-carrying constructors.
    #[verifier::loop_isolation(false)]
    fn encode_fields_block(&mut self, tag: u8, fs: &Vec<NativeValue>) -> (r: Value)
        requires
            wf_seq(model_seq(fs@, 0), 0),
            fs@.len() >= 1,
            model_seq(fs@, 0).len() == fs@.len(),
            old(self)@.len() + enc_len_upto(model_seq(fs@, 0), fs@.len() as int) + fs@.len() + 1
                <= ARENA_MAX,
        ensures
            final(self)@ == old(self)@ + enc_words_fields(model_seq(fs@, 0), fs@.len() as int, old(
                self,
            )@.len() as int) + seq![header_word(fs@.len() as int, tag)] + enc_vals_fields(
                model_seq(fs@, 0),
                fs@.len() as int,
                old(self)@.len() as int,
            ),
            r.word == crate::value::ref_word(
                old(self)@.len() + enc_len_upto(model_seq(fs@, 0), fs@.len() as int) + 1int,
            ),
        decreases *fs,
    {
        let ghost base = old(self)@.len() as int;
        let ghost s = model_seq(fs@, 0);
        proof {
            lemma_model_seq(fs@, 0);
        }
        let mut vals: Vec<Value> = Vec::new();
        let mut i: usize = 0;
        proof {
            assert(self@ =~= old(self)@ + enc_words_fields(s, 0, base));
        }
        while i < fs.len()
            invariant
                i <= fs@.len(),
                vals@.len() == i,
                self@ == old(self)@ + enc_words_fields(s, i as int, base),
                forall|j: int| 0 <= j < i ==> vals@[j].word == enc_val_field(s, j, base),
            decreases fs@.len() - i,
        {
            proof {
                lemma_wf_seq_index(s, 0, i as int);
                lemma_enc_words_fields_len(s, i as int, base);
                lemma_enc_len_upto_mono(s, i as int + 1, fs@.len() as int);
                assert(decreases_to!(*fs => fs@[i as int]));
            }
            let ev = self.encode(&fs[i]);
            proof {
                lemma_enc_words_len(s[i as int], base + enc_len_upto(s, i as int));
            }
            vals.push(ev);
            i = i + 1;
            proof {
                assert(self@ =~= old(self)@ + enc_words_fields(s, i as int, base));
            }
        }
        proof {
            lemma_enc_words_fields_len(s, fs@.len() as int, base);
            lemma_enc_vals_fields_index(s, fs@.len() as int, base);
        }
        let r = self.push_block(tag, &vals);
        proof {
            assert forall|j: int| 0 <= j < vals@.len() implies Seq::new(
                vals@.len() as nat,
                |k: int| vals@[k].word,
            )[j] == enc_vals_fields(s, fs@.len() as int, base)[j] by {
                assert(vals@[j].word == enc_val_field(s, j, base));
            }
            assert(Seq::new(vals@.len() as nat, |j: int| vals@[j].word) =~= enc_vals_fields(
                s,
                fs@.len() as int,
                base,
            ));
            assert(self@ =~= old(self)@ + enc_words_fields(s, fs@.len() as int, base) + seq![
                header_word(fs@.len() as int, tag),
            ] + enc_vals_fields(s, fs@.len() as int, base));
        }
        r
    }
}

/// Measures a value before a session: the exact number of words its
/// encoding will append, or `None` when the value is not well formed or
/// its encoding would overflow the arena's size cap — the one failure
/// mode an encoding session has.
#[verifier::loop_isolation(false)]
#[verifier::rlimit(60)]
pub fn encoded_len(v: &NativeValue) -> (r: Option<usize>)
    ensures
        (match r {
            Option::Some(n) => wf(model(*v)) && n == enc_len(model(*v)) && n <= ARENA_MAX,
            Option::None => !(wf(model(*v)) && enc_len(model(*v)) <= ARENA_MAX),
        }),
    decreases *v,
{
    match v {
        NativeValue::Int(n) => {
            if -0x4000_0000_0000_0000 <= *n && *n < 0x4000_0000_0000_0000 {
                Option::Some(0)
            } else {
                Option::None
            }
        },
        NativeValue::Bool(_) => Option::Some(0),
        NativeValue::Char(_) => Option::Some(0),
        NativeValue::Unit => Option::Some(0),
        NativeValue::ConstCtor(_) => Option::Some(0),
        NativeValue::Opt(o) => match o {
            Option::None => Option::Some(0),
            Option::Some(x) => match encoded_len(&**x) {
                Option::Some(n) => {
                    if n + 2 <= ARENA_MAX {
                        Option::Some(n + 2)
                    } else {
                        Option::None
                    }
                },
                Option::None => Option::None,
            },
        },
        NativeValue::List(xs) => {
            let ghost s = model_seq(xs@, 0);
            proof {
                lemma_model_seq(xs@, 0);
            }
            let mut acc: usize = 0;
            let mut i: usize = xs.len();
            let mut failed = false;
            while i > 0 && !failed
                invariant
                    i <= xs@.len(),
                    acc <= ARENA_MAX,
                    !failed ==> acc == enc_len_list(s, i as int) && wf_seq(s, i as int),
                    failed ==> !(wf_seq(s, 0) && enc_len_list(s, 0) <= ARENA_MAX),
                decreases i,
            {
                i = i - 1;
                proof {
                    assert(decreases_to!(*v => *xs));
                    assert(decreases_to!(*xs => xs@[i as int]));
                }
                match encoded_len(&xs[i]) {
                    Option::Some(n) => {
                        if acc + n + 3 <= ARENA_MAX {
                            acc = acc + n + 3;
                        } else {
                            proof {
                                lemma_enc_len_list_mono(s, 0, i as int);
                            }
                            failed = true;
                        }
                    },
                    Option::None => {
                        proof {
                            if wf_seq(s, 0) {
                                lemma_wf_seq_index(s, 0, i as int);
                                lemma_enc_len_list_mono(s, 0, i as int);
                            }
                        }
                        failed = true;
                    },
                }
            }
            if failed {
                Option::None
            } else {
                Option::Some(acc)
            }
        },
        NativeValue::Str(b) => {
            let n = b.len() / 8 + 2;
            if n <= ARENA_MAX {
                Option::Some(n)
            } else {
                Option::None
            }
        },
        NativeValue::FloatBits(_) => Option::Some(2),
        NativeValue::Record(fs) => {
            proof {
                assert(decreases_to!(*v => *fs));
                lemma_model_seq(fs@, 0);
            }
            measure_fields_block(fs)
        },
        NativeValue::DataCtor(t, fs) => {
            if *t > MAX_STRUCT_TAG {
                Option::None
            } else {
                proof {
                    assert(decreases_to!(*v => *fs));
                    lemma_model_seq(fs@, 0);
                }
                measure_fields_block(fs)
            }
        },
    }
}

/// Measures the block a record or data-carrying constructor encodes to:
/// the fields' own words plus the header and one payload word per field.
#[verifier::loop_isolation(false)]
#[verifier::rlimit(60)]
fn measure_fields_block(fs: &Vec<NativeValue>) -> (r: Option<usize>)
    ensures
        (match r {
            Option::Some(n) => fs@.len() >= 1 && wf_seq(model_seq(fs@, 0), 0) && n
                == enc_len_upto(model_seq(fs@, 0), fs@.len() as int) + fs@.len() + 1 && n
                <= ARENA_MAX,
            Option::None => !(fs@.len() >= 1 && wf_seq(model_seq(fs@, 0), 0) && enc_len_upto(
                model_seq(fs@, 0),
                fs@.len() as int,
            ) + fs@.len() + 1 <= ARENA_MAX),
        }),
    decreases *fs,
{
    let ghost s = model_seq(fs@, 0);
    let ghost n_f = fs@.len() as int;
    proof {
        lemma_model_seq(fs@, 0);
    }
    if fs.len() == 0 {
        return Option::None;
    }
    if fs.len() >= ARENA_MAX {
        proof {
            assert(enc_len_upto(s, n_f) + n_f + 1 > ARENA_MAX);
        }
        return Option::None;
    }
    let mut acc: usize = 0;
    let mut i: usize = fs.len();
    let mut failed = false;
    while i > 0 && !failed
        invariant
            i <= fs@.len(),
            acc <= ARENA_MAX,
            !failed ==> acc + enc_len_upto(s, i as int) == enc_len_upto(s, n_f) && wf_seq(
                s,
                i as int,
            ) && acc <= ARENA_MAX,
            failed ==> !(wf_seq(s, 0) && enc_len_upto(s, n_f) + n_f + 1 <= ARENA_MAX),
        decreases i,
    {
        i = i - 1;
        proof {
            assert(decreases_to!(*fs => fs@[i as int]));
        }
        match encoded_len(&fs[i]) {
            Option::Some(n) => {
                if acc + n <= ARENA_MAX {
                    acc = acc + n;
                } else {
                    proof {
                        lemma_enc_len_upto_mono(s, i as int, n_f);
                    }
                    failed = true;
                }
            },
            Option::None => {
                proof {
                    if wf_seq(s, 0) {
                        lemma_wf_seq_index(s, 0, i as int);
                        lemma_enc_len_upto_mono(s, i as int + 1, n_f);
                    }
                }
                failed = true;
            },
        }
    }
    if failed {
        return Option::None;
    }
    if acc + fs.len() + 1 <= ARENA_MAX {
        Option::Some(acc + fs.len() + 1)
    } else {
        Option::None
    }
}

/// One complete session that checks its own precondition: `Some` exactly
/// when the value is well formed and its encoding fits under the arena
/// size cap, and then the same words and root as `encode_root`; `None`
/// otherwise, with nothing encoded — a session never returns a partial
/// root.
pub fn try_encode_root(v: &NativeValue, size_hint: usize) -> (out: Option<(Vec<u64>, Value)>)
    ensures
        (match out {
            Option::Some(p) => wf(model(*v)) && enc_len(model(*v)) <= ARENA_MAX && p.0@
                == enc_words(model(*v), 0) && p.1.word == enc_val(model(*v), 0),
            Option::None => !(wf(model(*v)) && enc_len(model(*v)) <= ARENA_MAX),
        }),
{
    match encoded_len(v) {
        Option::Some(_) => Option::Some(encode_root(v, size_hint)),
        Option::None => Option::None,
    }
}

/// One complete encoding session: a fresh arena, one top-level encode,
/// and the hand-off of the arena's storage together with the root value.
/// The caller's caller owns the returned words; nothing frees them here.
pub fn encode_root(v: &NativeValue, size_hint: usize) -> (out: (Vec<u64>, Value))
    requires
        wf(model(*v)),
        enc_len(model(*v)) <= ARENA_MAX,
    ensures
        out.0@ == enc_words(model(*v), 0),
        out.1.word == enc_val(model(*v), 0),
{
    let mut arena = Arena::new_with_size(size_hint);
    let root = arena.encode(v);
    proof {
        assert(arena@ =~= enc_words(model(*v), 0));
    }
    (arena.into_words(), root)
}

} // verus!
