//! An embedded, ordered key-value index: variable-length B-tree nodes, the B-tree built from
//! them, single and hash-sharded indices, and tables that own several indices.

pub mod any_index;
pub mod btree;
pub mod btree_config;
pub mod btree_index;
pub mod btree_kvs;
pub mod btree_node;
pub mod btree_req;
pub mod btree_types;
pub mod bytes;
pub mod contents;
pub mod db_kv;
pub mod iterator;
pub mod laws;
pub mod merge;
pub mod merge_laws;
pub mod merge_lemmas;
pub mod merge_plan;
pub mod merge_state;
pub mod node_laws;
pub mod node_layout;
pub mod node_search;
pub mod ordered_lemmas;
pub mod packing_laws;
pub mod partition;
pub mod promises;
pub mod put;
pub mod query;
pub mod range_query;
pub mod record_ops;
pub mod record_sizes;
pub mod registry;
pub mod remove;
pub mod schema;
pub mod settled;
pub mod shard_lemmas;
pub mod sharded_btree;
pub mod size_laws;
pub mod splice_lemmas;
pub mod split;
pub mod table;
pub mod table_index;
pub mod text;
pub mod tidy_lemmas;
pub mod tree_lemmas;
pub mod tree_measure;
pub mod tree_model;
pub mod underlying;
pub mod unsharded_btree;
pub mod var_node_ops;
pub mod variants;
pub mod varlen_node_common;
