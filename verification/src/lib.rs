//! `globazog`: multi-pattern globbing over directory trees.
pub mod builder;
pub mod error;
pub mod predicate;
pub mod ring;
pub mod syntax;
pub mod sys;
pub mod walk;
