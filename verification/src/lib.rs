//! wireutils: edit one host list and write it into many WireGuard configs.
//!
//! The problem this solves: a folder with twenty `.conf` files, each with its
//! own `AllowedIPs`, and one site to add to all of them.
//!
//! * [`wgconf`]: read and rewrite `AllowedIPs` without touching anything else
//!   in the file.
//! * [`hosts`]: the owner's host list.
//! * [`resolve`]: domains to addresses, cached, with failures surfaced.
//! * [`templates`]: the catalog of known sites.
//! * [`apply`]: the folder-wide write, with backups.
//! * [`subtract`]: the inverse, taking addresses back out of the folder.
//! * [`import`]: building a starting list out of an existing config.
//! * [`sync`]: keeping one tunnel's config up to date from a server.
//! * [`paths`]: where things live on each platform.
//! * [`cli`], [`gui`], [`tray`]: what the front ends say and do.
//!
//! Nothing here reads a file, asks a server or opens a window. The library
//! says what is to be read, written or asked, and takes what came back.

pub mod address;
pub mod apply;
pub mod calendar;
pub mod cli;
pub mod fetch;
pub mod gui;
pub mod guiassert;
pub mod hosts;
pub mod import;
pub mod list;
pub mod order;
pub mod paths;
pub mod resolve;
pub mod subtract;
pub mod sync;
pub mod templates;
pub mod text;
pub mod tray;
pub mod wgconf;

pub use hosts::{Error, Host, HostStore, Result, Source};
pub use import::{Imported, NameResolver, PtrResolver};
pub use resolve::{resolve_all, Outcome, Resolver, SystemResolver};
pub use templates::Catalog;
