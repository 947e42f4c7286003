//! Verified core logic of the pkgcraft package tooling: the package atom and
//! dependency specification grammars and orderings, the `ver_cut` range logic,
//! shell builtins and commands, ebuild repository logic and the decisions of
//! the `pk` tool.

pub mod chars;
pub mod ver_cut;
pub mod version;
pub mod names;
pub mod cpv;
pub mod shell;
pub mod builtins;
pub mod cli;
pub mod commands;
pub mod dep;
pub mod order;
pub mod ordered_set;
pub mod ordered_map;
pub mod reorder;
pub mod eclass_usage;
pub mod sorted_set;
pub mod repo;
pub mod pk;
pub mod sets;
pub mod timing;
pub mod restrict;
pub mod manifest;
pub mod cache;
pub mod phases;
pub mod files;
pub mod depset;
