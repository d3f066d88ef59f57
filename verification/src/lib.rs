//! Backtesting library for crypto trading strategies over fixed-point prices:
//! technical indicators, risk rules, strategies, a backtest engine and the
//! logic of a simulated and of a public exchange.
pub mod backtest;
pub mod config;
pub mod data;
pub mod error;
pub mod fixed;
pub mod indicator;
pub mod risk;
pub mod runtime;
pub mod strategy;
pub mod text;
