//! A small web browser engine: HTML and CSS parsing, selector matching,
//! URL resolution and HTTP response handling.
use vstd::prelude::*;

pub mod config;
pub mod color;
pub mod css;
pub mod display;
pub mod dom;
pub mod gpu;
pub mod html;
pub mod http;
pub mod image;
pub mod layout;
pub mod page;
pub mod selector;
pub mod style;
pub mod text;
pub mod url;
pub mod utility;

verus! {

} // verus!
