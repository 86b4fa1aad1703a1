//! Scheduling core for a fleet of AGV/AMR robots.
//!
//! * [`domain`]: the road network, the robots and the tasks.
//! * [`engine`]: route planning, conflict analysis and the scheduler.
//! * [`storage`]: the state of all robots and tasks.
//! * [`transport`]: frames, messages and the course of a connection.
//! * [`service`]: the site with its lanes and chargers.
//! * [`simulator`]: virtual robots and random tasks.
//! * [`metrics`] and [`dashboard`]: what is measured and shown.
//!
//! The library decides and computes. Sockets, channels, clocks and windows belong to the
//! program around it, which hands in times and messages and carries out the answers.

pub mod config;
pub mod dashboard;
pub mod domain;
pub mod engine;
pub mod metrics;
pub mod service;
pub mod simulator;
pub mod storage;
pub mod table;
pub mod text;
pub mod transport;
