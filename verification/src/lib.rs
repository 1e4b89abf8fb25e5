//! An arena-based encoder that lowers native values (integers, booleans,
//! characters, options, lists, strings, boxed floats, records and sum types)
//! into the tagged-word heap layout of an OCaml-style garbage-collected
//! runtime: immediates carry a low tag bit, everything else is a block with a
//! header word (payload size and tag byte) written into a growable arena of
//! 64-bit words, children always placed at lower offsets than their parents.

pub mod arena;
pub mod decode;
pub mod encode;
pub mod laws;
pub mod model;
pub mod value;
