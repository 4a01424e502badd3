pub mod content;
pub mod diff;
pub mod document;
pub mod laws;
pub mod models;
pub mod service;
pub mod value;

pub use diff::{compare_dicts, compare_yaml_strings, CompareError};
pub use document::{yaml_string_to_nested_hash_map, YamlError, YamlValue};
pub use value::{NestedHashMap, NestedValue};
