//! The core of a reader for text, books and images.
//!
//! Its centre is fast, memory-bounded access to images that lie as files in
//! a folder or as entries in a ZIP archive: [`zip_fast`] indexes an archive
//! from its central directory alone and extracts single entries,
//! [`lru_cache`] is a byte cache with a budget and least-recently-used
//! eviction, [`image_cache`] serves images through that cache and plans
//! what to fetch ahead, and [`image_reader`] puts the images of a folder or
//! an archive in their viewing order. Around it stand the open tabs, the
//! text buffer with its history of edits, search and replace, the
//! bookmarks, the text formats, the settings and the book reader:
//! [`epub_builder`] puts a book together from what was read of it, and
//! [`chapter_html`] makes the markup of its chapters ready for showing.
//!
//! The library opens no file and starts no thread. Whatever it takes from
//! other crates stands in [`outside`], with contracts that are believed,
//! not proved; everything else is verified.

pub mod bookmark;
pub mod bytes;
pub mod chapter_html;
pub mod config;
pub mod epub_builder;
pub mod epub_reader;
pub mod formatter;
pub mod image_cache;
pub mod image_reader;
pub mod lru_cache;
pub mod outside;
pub mod search;
pub mod sorting;
pub mod tab_manager;
pub mod text;
pub mod text_buffer;
pub mod zip_fast;
