//! Storage-and-query core of an entity-component-system: a generational
//! handle allocator, generation-checked sparse tables of components, and the
//! query that aligns several tables by entity index.
//!
//! Component types are identified by an integer kind chosen by the caller; a
//! world stores payloads of one type `C`, typically an enum with one variant
//! per component kind or a boxed dynamically typed value.
//!
//! A table is written through `&mut` and read through `&`, so that one writer
//! or many readers hold it at a time: aliased access does not compile, and no
//! operation fails at run time for it.

pub mod component;
pub mod entity;
pub mod error;
pub mod query;
pub mod resource;
pub mod vec;
pub mod world;
