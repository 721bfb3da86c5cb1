//! A graph-based call-by-need reducer for an untyped lambda calculus with
//! numbers, byte sequences and algebraic data constructors.
//!
//! An expression is a graph of nodes and labelled edges with a designated
//! root ([`ast`], on the container of [`store`]). Bindings are closures in
//! the graph; variables and data nodes refer to their binders through
//! binder edges ([`closure`], [`builder`], [`subtree`]). The reducer
//! rewrites the graph in place until its root is in weak-head normal form
//! ([`reduce`], [`matching`]); what its rules do is the relation of
//! [`rules`], and the invariants that they keep are those of
//! [`integrity`]. Bindings that nothing refers to are collected before the
//! reducer runs ([`gc`]). Source text comes in through [`comments`],
//! [`lexer`] and [`parser`], whose grammar is that of [`grammar`], and
//! goes out through [`show`]. Effects are asked of a driver ([`effects`]).
pub mod text;
pub mod tags;
pub mod node;
pub mod store;
pub mod ast;
pub mod closure;
pub mod builder;
pub mod subtree;
pub mod matching;
pub mod reduce;
pub mod rules;
pub mod show;
pub mod integrity;
pub mod gc;
pub mod bytes;
pub mod effects;
pub mod path;
pub mod grammar;
pub mod comments;
pub mod lexer;
pub mod parser;
