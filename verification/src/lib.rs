use vstd::prelude::*;

pub mod text;
pub mod strmap;
pub mod hcl;
pub mod nomad;
pub mod nodes;
pub mod paths;
pub mod stress;
pub mod chain;
pub mod polkajam;
pub mod requests;
pub mod archive;
