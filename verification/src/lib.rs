//! The privileged broker of the DIG updater.
//!
//! An update takes two processes. An unprivileged worker touches the network: it fetches a signed
//! feed, verifies it and stages artifacts. The privileged broker installs: it believes nothing that
//! the worker says, verifies the chain again, and replaces binaries behind a health check with a
//! rollback. This crate is the broker's logic. What the system does (files, programs, services) is
//! handed in as closures whose results the contracts speak of. What a contract demands of a closure
//! says when it may be called: a step whose place in an order matters may be made only where those
//! before it came out as they must. A step that must not be made twice is a closure that can be
//! called once, or one that takes a value and gives it back.
//!
//! - A pass: [`broker`], [`pass`], [`plan`], [`manifest`], [`resolver`], [`health`].
//! - Applying: [`install`], [`swap`], [`rollback`], [`hashing`], [`installed`], [`loadable`],
//!   [`elf`], [`probe`], [`liveprocess`].
//! - The host: [`paths`], [`path`], [`config`], [`persist`], [`lock`], [`elevation`], [`sandbox`],
//!   [`dacl`], [`proc`].
//! - The daily schedule and the browsers: [`scheduler`], [`optout`], [`ext_forcelist`].
//! - Words: [`error`], [`display`], [`text`].

use vstd::prelude::*;

pub mod broker;
pub mod config;
pub mod dacl;
pub mod display;
pub mod elevation;
pub mod elf;
pub mod error;
pub mod ext_forcelist;
pub mod hashing;
pub mod health;
pub mod install;
pub mod installed;
pub mod liveprocess;
pub mod loadable;
pub mod lock;
pub mod manifest;
pub mod optout;
pub mod pass;
pub mod path;
pub mod paths;
pub mod persist;
pub mod plan;
pub mod probe;
pub mod proc;
pub mod resolver;
pub mod rollback;
pub mod sandbox;
pub mod scheduler;
pub mod swap;
pub mod text;

pub use broker::{Broker, Repair};
pub use error::BrokerError;
pub use install::RetryPolicy;
pub use pass::{ComponentOutcome, ComponentResult, Installer, PassReport};
pub use plan::{
    Catalog, ComponentTarget, InstallMethod, Plan, PlannedComponent, BEACON_COMPONENT_NAME,
};
pub use resolver::{DetectedVersion, UpdateAction};
pub use rollback::LkgCache;
pub use sandbox::Sandbox;

verus! {

} // verus!
