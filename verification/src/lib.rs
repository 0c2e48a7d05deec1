//! Rules of a two-device file synchroniser: one PC and one phone keep several
//! pairs of folders ("Shares") equal over a local network.

pub mod account;
pub mod app;
pub mod backup;
pub mod collections;
pub mod config;
pub mod convergence;
pub mod desk;
pub mod device;
pub mod dialogs;
pub mod ignore;
pub mod install;
pub mod invitation;
pub mod journal;
pub mod keys;
pub mod labels;
pub mod layout;
pub mod managed;
pub mod migration;
pub mod model;
pub mod opening;
pub mod outcome;
pub mod paths;
pub mod phone;
pub mod preservation;
pub mod primitives;
pub mod protocol;
pub mod restore;
pub mod screen;
pub mod session;
pub mod storage;
pub mod sync;
pub mod text;
pub mod tokens;
pub mod trace;
pub mod tui;
pub mod unlink;
pub mod walk;
pub mod watch;

use vstd::prelude::*;

verus! {

} // verus!
