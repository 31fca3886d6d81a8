mod iter;
mod node;
mod subtrie;
mod trie;

pub use iter::Iter;
pub use node::Node;
pub use node::lex_lt;
pub use node::restrict_prefix;
pub use subtrie::SubTrie;
pub use subtrie::admits_key_text;
pub use subtrie::admits_value_text;
pub use subtrie::admitted_rendering;
pub use subtrie::render_entries;
pub use subtrie::lemma_absent_prefix_empty;
pub use subtrie::lemma_empty_iff_no_entries;
pub use subtrie::lemma_iter_lists_view;
pub use subtrie::lemma_iter_ordered;
pub use subtrie::lemma_subtrie_compose;
pub use subtrie::lemma_view_parts;
pub use trie::Trie;
