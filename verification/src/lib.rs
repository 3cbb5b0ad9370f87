use vstd::prelude::*;

pub mod text;
pub mod markdown;
pub mod mime;
pub mod http;
pub mod path;
pub mod listing;
pub mod server;
pub mod cli;
pub mod browser;
pub mod themes;

verus! {

} // verus!
