//! p4y: a read-only Perforce workspace browser, its verified core.
//!
//! The library holds the logic of the browser: the parser of the tagged
//! (`-Ztag`) output of the `p4` command line client, the interpretation of
//! that output as change lists and depot trees, the handling of what a `p4`
//! process hands back, and the style tables of the user interface.

pub mod text;
pub mod ztag;
pub mod p4;
pub mod tree;
pub mod style;
