//! Helpers shared by the page loader.
pub mod url_utils;
