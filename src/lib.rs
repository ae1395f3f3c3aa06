//! Extraction and query engine for markdown notes: checkbox tasks with inline
//! metadata, frontmatter tags, heading outlines and sections, and task filters.
pub mod capabilities;
pub mod cli;
pub mod config;
pub mod dates;
pub mod files;
pub mod filter;
pub mod markers;
pub mod outline;
pub mod pattern;
pub mod tags;
pub mod task;
pub mod text;
