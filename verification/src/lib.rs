//! Flatten a JSON value into a single-level JSON object whose keys are
//! RFC 6901 JSON Pointer strings and whose values are the leaf values of
//! the original document, with empty-container placeholders for every
//! array and object node that was traversed.

mod flatten;
mod laws;
mod pointer;
mod text;
mod unique;
mod value;

pub use pointer::escape;
pub use pointer::escape_seq;
pub use pointer::lemma_escape_no_slash;
pub use pointer::lemma_unescape_escape;
pub use pointer::unescape;
pub use pointer::unescape_seq;

pub use value::Json;
pub use value::JsonModel;
pub use value::arr_models;
pub use value::entries_model;
pub use value::lookup;
pub use value::str_eq;
pub use value::value_model;

pub use flatten::arr_entries;
pub use flatten::dec_str;
pub use flatten::digit_of;
pub use flatten::entries_of;
pub use flatten::flatten_model;
pub use flatten::from_json;
pub use flatten::index_segment;
pub use flatten::key_segment;
pub use flatten::obj_entries;

pub use text::FlattenError;
pub use text::from;
pub use text::from_str;
pub use text::json_parse;

pub use laws::has_key;
pub use laws::last_slash;
pub use laws::lemma_ancestor_present;
pub use laws::lemma_empty_array_entry;
pub use laws::lemma_empty_object_entry;
pub use laws::lemma_entries_head;
pub use laws::lemma_entries_shallow;
pub use laws::lemma_flatten_root;
pub use laws::lemma_not_idempotent;
pub use laws::parent_pointer;
pub use laws::shallow;

pub use unique::distinct_names;
pub use unique::extends;
pub use unique::first_slash_from;
pub use unique::lemma_escape_injective;
pub use unique::pointers_distinct;
pub use unique::seg_token;
pub use unique::wf;
pub use unique::lemma_pointers_unique;
pub use unique::lemma_flat_map_keys_unique;
