//! Core utilities for Neovim plugins: string helpers, lexical path handling,
//! rate limiters, one-shot cells and a process-job description.

pub mod strings;
pub mod path;
pub mod debounce;
pub mod job;
pub mod path_laws;
