//! Disk space analysis: the model of a scanned directory tree and the rules that the
//! native window and the localhost dashboard share.
//!
//! A scan ([`scan`]) turns directory listings into a tree ([`tree`]), which is laid out
//! as an arena ([`flatten`], [`store`]). Everything shown is read from the arena, and a
//! deletion ([`prune`]) changes it in place; that it keeps adding up all the while is
//! shown in [`balance`] and [`laid_out`], that the largest files stay the largest in
//! [`largest`], that a map draws nothing twice in [`drawn`], that a scan counts what it
//! finds in [`visits`], and that the dashboard's answers can be relied on in [`answers`].

pub mod answers;
pub mod balance;
pub mod cli;
pub mod config;
pub mod drawn;
pub mod elevate;
pub mod engine;
pub mod flatten;
pub mod heap;
pub mod heat;
pub mod icon;
pub mod json;
pub mod kids;
pub mod kinds;
pub mod labels;
pub mod laid_out;
pub mod largest;
pub mod launch;
pub mod numbers;
pub mod order;
pub mod paths;
pub mod prune;
pub mod roots;
pub mod scan;
pub mod session;
pub mod split;
pub mod store;
pub mod summary;
pub mod sums;
pub mod text;
pub mod theme;
pub mod token;
pub mod tree;
pub mod treemap;
pub mod visits;
pub mod voyage;
pub mod web;
pub mod wording;
