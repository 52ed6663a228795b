//! A verified core for a bookmark-watching feed monitor.
//!
//! The library walks a paginated, reverse-chronological feed looking for the
//! most recently bookmarked item (the marker), counts the works that appeared
//! ahead of it, and keeps that decision state across restarts.

pub mod clock;
pub mod codec;
pub mod feed;
pub mod idset;
pub mod laws;
pub mod state;
pub mod walk;
