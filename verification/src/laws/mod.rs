//! What the rules promise, said of rows, lanes, lights and measured numbers.

pub mod boxes;
pub mod collisions;
pub mod entering;
pub mod fields;
pub mod following;
pub mod gates;
pub mod inside;
pub mod lane_choice;
pub mod line;
pub mod merging;
pub mod pressure;
pub mod priority;
pub mod records;
pub mod roads;
pub mod routes;
pub mod services;
pub mod sidling;
pub mod steps;
pub mod terms;
pub mod threshold;
