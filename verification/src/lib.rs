//! Checks and configuration parsing for mdBook chapters.
pub mod text;
pub mod book;
pub mod diagnostic;
pub mod html;
pub mod strip;
pub mod run;
pub mod fix;
