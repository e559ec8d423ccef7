//! Loading themes for a desktop application: choosing the stylesheet of a
//! theme, listing the themes on disk, and making a downloaded stylesheet
//! usable offline by localizing what it imports.
//!
//! Nothing in this crate touches the disk or the network. A caller reads and
//! fetches, hands the bytes in, and carries out what comes back.
//!
//! - `theme`: which file holds a theme, which entries are themes, and under
//!   which name a download is stored.
//! - `scan`: the import directives of a stylesheet.
//! - `identity`: one canonical spelling for each stylesheet.
//! - `cache`: the names of cache files, and what a write has to do.
//! - `rewrite`: replacing ranges of a text.
//! - `sources`: what is known of the stylesheets that were asked for.
//! - `localize`: the engine that puts these together.
//! - `guarantees` and `relocalize`: what holds of every run, proved.
//! - `text` and `error`: byte strings and failure kinds that the others
//!   share.

pub mod text;

pub mod error;

pub mod theme;

pub mod scan;

pub mod rewrite;

pub mod identity;

pub mod cache;

pub mod sources;

pub mod localize;

pub mod guarantees;

pub mod relocalize;
