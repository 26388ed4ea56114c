//! An ordered container holding keys of a totally-ordered type, backed by an
//! unbalanced binary search tree. Duplicate keys are permitted: a key equal to
//! one already present is stored again rather than rejected. Lookup may be
//! performed with a borrowed or derived key type whose ordering agrees with
//! the stored type's ordering.

mod string_key;
mod total_order;
mod tree;

pub use string_key::chars_le;
pub use string_key::lemma_chars_le_antisymmetric;
pub use string_key::lemma_chars_le_total;
pub use string_key::lemma_chars_le_transitive;
pub use string_key::str_leq;

pub use total_order::has_match;
pub use total_order::inserted_at;
pub use total_order::lemma_contained_key_matches;
pub use total_order::lemma_inserted_key_present;
pub use total_order::key_matches;
pub use total_order::lemma_remove_only_match;
pub use total_order::sorted_le;
pub use total_order::strict_lt;
pub use total_order::LookupKey;
pub use total_order::TotalOrder;
pub use tree::BinarySearchTree;
pub use tree::Node;
