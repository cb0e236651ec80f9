//! Layout snapshots for a tiling window manager.
//!
//! The crate holds the rules behind saving and restoring a desktop layout: how
//! live containers become a durable snapshot, how saved windows are matched to
//! running ones, how a tiling tree is replanned around missing windows, and how
//! the restore, persistence, IPC and shell commands decide what to do next.
//! Everything here is a function of plain values; sockets, files, processes and
//! the desktop itself stay with the caller.
pub mod app_command;
pub mod cli;
pub mod container_id;
pub mod dto;
pub mod ipc;
pub mod ipc_args;
pub mod ipc_conflict;
pub mod ipc_server;
pub mod layout_persistence;
pub mod layout_snapshot;
pub mod layout_snapshot_matcher;
pub mod layout_snapshot_tree;
pub mod load_layout_snapshot;
pub mod monitor_match;
pub mod paths;
pub mod placement;
pub mod process_output;
pub mod restore_tiling;
pub mod restore_window;
pub mod save_layout_snapshot;
pub mod seqs;
pub mod shares;
pub mod shell_exec;
pub mod singles;
pub mod snapshot_capture;
pub mod snapshot_leaves;
pub mod text;
pub mod timestamp;
pub mod window_state;
pub mod wm_event;
pub mod wm_loop;
