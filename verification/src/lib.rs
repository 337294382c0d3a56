//! A timeline resolver: it turns a timeline of objects, whose start, end,
//! duration and repetition are given by expressions that may refer to other
//! objects, classes and layers, into concrete instances in time, and from
//! those into the state of every layer at any point in time.

pub mod text;
mod patterns;
pub mod expression;
pub mod instance;
pub mod references;
pub mod caps;
pub mod api;
pub mod names;
pub mod resolver;
pub mod util;
pub mod events;
pub mod lookup_expression;
pub mod boolean;
pub mod state;
