//! The logic of a terminal reader for the mailing lists of lore.kernel.org.

pub mod app;
pub mod app_laws;
pub mod archive;
pub mod archive_laws;
pub mod clock;
pub mod clock_laws;
pub mod constraints;
pub mod filter;
pub mod filter_laws;
pub mod mail;
pub mod mail_laws;
pub mod mail_source;
pub mod message;
pub mod outside;
pub mod page_laws;
pub mod pages;
pub mod parse;
pub mod patch;
pub mod patch_laws;
pub mod reply;
pub mod scan;
pub mod series;
pub mod series_laws;
pub mod source;
pub mod stream;
pub mod stream_laws;
pub mod text;
pub mod text_laws;
pub mod tui;
pub mod ui;
pub mod ui_laws;
