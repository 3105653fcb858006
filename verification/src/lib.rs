//! A font loader: resolves character/class queries against an ordered set of
//! pluggable font providers, caching parsed fonts and resolved queries, and
//! handing out stable external indices for served fonts.

pub mod assoc;
pub mod font;
pub mod provider;
pub mod loader;
pub mod laws;
