//! tuiman: a catalog of terminal applications, its binary index format, and
//! the logic that decides what can be installed with which package manager.

pub mod text;
pub mod num;
pub mod date;
pub mod catalog;
pub mod format;
pub mod managers;
pub mod listing;
pub mod show;
pub mod release;
pub mod output;
pub mod installed;
pub mod cache;
pub mod query;
pub mod cli;
pub mod readme;
pub mod item;
pub mod keys;
pub mod theme;
pub mod app;
pub mod pickers;
pub mod help;
pub mod search;
pub mod jobs;
pub mod github;
pub mod bulk;
pub mod readback;
pub mod overrides;
pub mod repology;
pub mod registries;
pub mod brew;
pub mod publish;
pub mod commands;
pub mod events;
pub mod hints;
pub mod freshness;
pub mod change;
