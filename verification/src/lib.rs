//! Version and release automation for cargo workspaces: which packages changed, which bump their
//! commits call for, what the manifests and the pull request become, and which tags follow.
//!
//! Everything here decides and computes. Talking to git, cargo, the terminal and the host is left
//! to the program around it, which hands plain values in and carries out what comes back.
pub mod apply;
pub mod assign;
pub mod auto;
pub mod bump;
pub mod cargo;
pub mod cli;
pub mod command;
pub mod commits;
pub mod config;
pub mod document;
pub mod error;
pub mod fsm;
pub mod history;
pub mod init;
pub mod manifest;
pub mod order;
pub mod package;
pub mod pr;
pub mod prompt;
pub mod release;
pub mod remote;
pub mod rewind;
pub mod sections;
pub mod tag;
pub mod text;
pub mod tracking;
pub mod tui;
pub mod version;
pub mod workspace;
