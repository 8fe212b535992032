//! Typed ports, explicit topology and deploy-time checks for systems of
//! computation units, with their contracts proved by Verus.
use vstd::prelude::*;

pub mod flow;
pub mod resource;
pub mod link;
pub mod session;
pub mod strings;
pub mod seq_util;
pub mod time;
pub mod port;
pub mod runtime_contract;
pub mod deploy;
pub mod order;
pub mod graph;
pub mod dfs;
pub mod analysis;
pub mod validate;
pub mod name_map;
pub mod composite;
pub mod lint;
pub mod backpressure;
pub mod config;
pub mod machine;
pub mod func;
pub mod entity;
pub mod hybrid;
pub mod blueprint;
pub mod cell_core;
pub mod static_exec;
pub mod builtin;
