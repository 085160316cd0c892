//! Discrete core of an agent-based model of commuters choosing how to travel.

pub mod transport_mode;
pub mod mode_map;
pub mod weather;
pub mod journey_type;
pub mod season;
pub mod agent;
pub mod grouping;
pub mod statistics;
pub mod neighbourhood;
pub mod intervention;
pub mod simulation;
pub mod union_with;
pub mod social_network;
pub mod network_file;
