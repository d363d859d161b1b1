//! The logic of a tmux-style session manager for Neovim.

pub mod announce;
pub mod boundary;
pub mod bytes;
pub mod cli;
pub mod clock;
pub mod config;
pub mod dirs;
pub mod draw;
pub mod error;
pub mod fade;
pub mod hint;
pub mod ids;
pub mod ipc;
pub mod keys;
pub mod keyseq;
pub mod launch;
pub mod ledger;
pub mod mux;
pub mod nested;
pub mod nvim;
pub mod palette;
pub mod paths;
pub mod pool;
pub mod proc;
pub mod session;
pub mod session_loop;
pub mod text;
