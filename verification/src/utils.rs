//! Relative locations of the engine's bundled resource files.
//!
//! These helpers build paths relative to the installation root; resolving
//! that root is left to the surrounding application.

use vstd::prelude::*;

verus! {

/// The relative location of a file under the sources directory.
pub fn get_path_src(path: &str) -> (r: String)
    ensures
        r@ == "src/"@ + path@,
{
    let mut p = String::from_str("src/");
    p.append(path);
    p
}

/// The relative location of a file under the assets directory.
pub fn get_path_assets(path: &str) -> (r: String)
    ensures
        r@ == "assets/"@ + path@,
{
    let mut p = String::from_str("assets/");
    p.append(path);
    p
}

} // verus!
