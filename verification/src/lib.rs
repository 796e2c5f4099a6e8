//! Sector rotation analytics.

pub mod arithmetic;
pub mod cache;
pub mod calendar;
pub mod compute;
pub mod config;
pub mod data;
pub mod fetch;
pub mod handlers;
pub mod laws;
pub mod number;
pub mod order;
pub mod service_laws;
pub mod text;
pub mod tickers;
