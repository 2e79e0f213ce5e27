//! gaze: the verified core of a keyboard-driven browser: tabs and tab
//! groups, saved logins, history, bookmarks, key bindings, the rules that
//! turn typed text into a URI and a hosts list into block rules.

pub mod adblock;
pub mod bar;
pub mod bookmarks;
pub mod commands;
pub mod config;
pub mod dispatch;
pub mod entries;
pub mod events;
pub mod history;
pub mod keys;
pub mod passwords;
pub mod seqs;
pub mod tabs;
pub mod text;
