use vstd::prelude::*;

pub mod text;
pub mod sanitize;
pub mod xml;
pub mod kml;
pub mod pictures;
pub mod render;
pub mod site;
pub mod tiles;

verus! {
}
