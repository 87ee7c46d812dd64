//! Core of a desktop image-viewing shell: launch-argument resolution,
//! chronological indexing of the images in a folder, circular next/previous
//! navigation over that index, and normalization of the host operating
//! system's light/dark appearance preference.
//!
//! Every operation here is a pure function of its arguments. The shell around
//! this library performs the actual reads (process arguments, directory
//! listings, preference queries) and hands the observed values in as plain
//! data; the decisions made on those values are verified here.
#![verifier::loop_isolation(false)]

use vstd::prelude::*;

pub mod index;
pub mod launch;
pub mod nav;
pub mod paths;
pub mod text;
pub mod theme;

verus! {

/// Builds the greeting string shown by the shell's demo command.
pub fn greet(name: &str) -> (r: String)
    ensures
        r@ == "Hello, "@ + name@ + "! You've been greeted from Rust!"@,
{
    let mut s = String::from_str("Hello, ");
    s.append(name);
    s.append("! You've been greeted from Rust!");
    s
}

} // verus!
