//! Health monitoring and visit analytics for a webring directory.
//!
//! The ring is a list of member sites that link to one another through a
//! small embed. This library holds what the ring's server decides:
//!
//! - [`health`] classifies a member's page as healthy, unreachable, without
//!   embed, or embedding another member's slug;
//! - [`manager`] keeps the members with the statuses of the last completed
//!   health check, and decides for the recurring health-check task;
//! - [`models`] computes the funnel statistics of a hit log, and [`funnel`]
//!   states what always holds of them;
//! - [`config`] makes the members out of what their files say;
//! - [`ring`] works out what the pages show: the directory, the random hop
//!   and a member's neighbours.
//!
//! Requests, files, the clock of the scheduler and the pages themselves are
//! left to the server that uses the library.

pub mod config;
pub mod counting;
pub mod funnel;
pub mod health;
pub mod health_map;
pub mod manager;
pub mod models;
pub mod order;
pub mod ring;
pub mod text;
