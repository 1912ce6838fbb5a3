//! A minimal blog library: markdown sources in one flat content directory
//! become an index page ordered by modification recency and one rendered
//! HTML page per post.
pub mod html;
pub mod mainpage;
pub mod posts;
pub mod titles;
