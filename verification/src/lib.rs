//! The verified core of a fleet agent: the job lifecycle and its rules.
//!
//! A job arrives from a backend, is selected while pending, claimed, run,
//! completed with exactly one recorded outcome, and reported upstream at
//! most once. The selection discipline, the partial-failure aggregation
//! policy, the report bookkeeping and the job wire format are specified and
//! proved here; spawning processes and talking to the backend are left to
//! the surrounding daemon, which hands this crate plain values.

pub mod action;
pub mod agent;
pub mod job;
pub mod json;
pub mod report;
pub mod runner;
pub mod store;
pub mod text;
pub mod tool;
