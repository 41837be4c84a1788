//! Core logic of the blazingjj terminal front end for jj: the cache of
//! `jj show` output, the line index of large ANSI documents, and the
//! decisions taken by the menu, the describe dialog and the event loop.

pub mod commit_show_cache;
pub mod component;
pub mod describe;
pub mod event_loop;
pub mod large_string;
pub mod menu;
pub mod revision;
pub mod shortcut;
pub mod text;
