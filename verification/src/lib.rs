use vstd::prelude::*;

pub mod access;
pub mod archived_vec;
pub mod array;
pub mod attrs;
pub mod block_index;
pub mod chunk;
pub mod container;
pub mod cursor;
pub mod decoded_iter;
pub mod error;
pub mod field_attrs;
pub mod field_state;
pub mod format;
pub mod helpers;
pub mod iter;
pub mod iter_laws;
pub mod layout_section;
pub mod map_encoder;
pub mod message;
pub mod option_result;
pub mod owned_iter;
pub mod packed;
pub mod packed_seq;
pub mod packed_vec;
pub mod primitive;
pub mod reader;
pub mod rel_ptr;
pub mod schema;
pub mod seq_roundtrip;
pub mod seq_serializer;
pub mod sink;
pub mod strategy;
pub mod string;
pub mod utils;
pub mod validator;
pub mod varint;
pub mod varint_vec;

verus! {

} // verus!
