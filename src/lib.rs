//! A small relational storage engine: a page store with a bitmap allocator, a pinned buffer
//! pool in front of it, heap files of slotted record pages, schema-aware tuples, pull
//! operators (scan, projection, merge sort) and an executor with a self-describing catalog.

pub mod types;
pub mod converter;
pub mod page;
pub mod diskmgr;
pub mod bufmgr;
pub mod filemgr;
pub mod relop;
pub mod parser;
pub mod nanodb;
