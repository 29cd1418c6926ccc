//! Model, menu tree and editing logic for previewing and toggling the
//! options of a Batocera `*.core.yml` file.
use vstd::prelude::*;

pub mod app;
pub mod model;
pub mod outside;
pub mod screen;
pub mod source;
pub mod strmap;
pub mod text;
pub mod tree;

verus! {
} // verus!
