//! Find `todo!("spec: ...")` holes in a crate and fill them in.
pub mod agent;
pub mod blame;
pub mod bytes;
pub mod cargo_check;
pub mod cmdline;
pub mod diagnostics;
pub mod fill;
pub mod fill_run;
pub mod fill_steps;
pub mod filler;
pub mod finder;
pub mod gate;
pub mod groups;
pub mod hole;
pub mod json;
pub mod laws;
pub mod leftovers;
pub mod listing;
pub mod locking;
pub mod order;
pub mod patching;
pub mod path;
pub mod probe;
pub mod prober;
pub mod record;
pub mod render;
pub mod scan;
pub mod splice;
pub mod storage;
pub mod text;
pub mod tree;
pub mod unstyled;
pub mod util;
pub mod walk;
pub mod wrap;
