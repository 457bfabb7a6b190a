//! An embedded labelled property graph: nodes and edges with property maps,
//! kept in six ordered tables, and a step-wise traversal engine over them.
//!
//! - `value`: property values, node and edge records, property lists.
//! - `keys`: the byte keys of the six tables and their prefixes.
//! - `order`: byte-lexicographic key order, the order of a prefix scan.
//! - `storage`: transactions over the tables, graph operations, search.
//! - `invariants`: proofs that every write keeps the tables well formed.
//! - `traversal`: the value carried between steps, and the steps.
//! - `theorems`: further laws of the store and of the steps.
//! - `response`: a reply and its HTTP/1.1 framing.
pub mod value;
pub mod keys;
pub mod order;
pub mod storage;
pub mod invariants;
pub mod traversal;
pub mod theorems;
pub mod response;
