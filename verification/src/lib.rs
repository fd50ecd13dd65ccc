//! Content, routes, assets and page metadata for the Queen's Head site generator.
//!
//! Everything here is plain data and string logic; reading files, rendering
//! templates and writing `dist/` happen in the program around the library.
//!
//! - `content`: the site's content, display times, the address line and map link.
//! - `calendar`: event dates and the list of events still to come.
//! - `assets`: content-hashed asset names, the record of what was referenced,
//!   and the stylesheet and manifest rewrites.
//! - `routes`: the pages, their URLs, the nav and the sitemap.
//! - `templates`: what every page template receives, and each page's metadata.
//! - `links`: the check that every reference resolves, and what to prune.
//! - `text`, `order`: character-level string operations and a sorted string set.

pub mod routes;
pub mod text;
pub mod order;
pub mod assets;
pub mod content;
pub mod calendar;
pub mod templates;
pub mod links;
