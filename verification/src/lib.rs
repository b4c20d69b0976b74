use vstd::prelude::*;

pub mod accounts;
pub mod comparisons;
pub mod config;
pub mod criteria;
pub mod dashboard;
pub mod datadir;
pub mod docs;
pub mod document;
pub mod explorer;
pub mod groups;
pub mod matrices;
pub mod release;
pub mod save_load;
pub mod session;
pub mod text;
pub mod workspace;

verus! {

} // verus!
