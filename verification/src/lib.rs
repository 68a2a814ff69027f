//! Ningshi: the rule engine that decides which apps may run, and when.

pub mod clear;
pub mod clock;
pub mod config;
pub mod counters;
pub mod daemon;
pub mod decide;
pub mod engine;
pub mod extension;
pub mod fg;
pub mod gate;
pub mod limits;
pub mod number;
pub mod pm;
pub mod proc;
pub mod reload;
pub mod rules;
pub mod schedule;
pub mod socket;
pub mod state;
pub mod status;
pub mod table;
pub mod text;
pub mod uids;
pub mod window;
