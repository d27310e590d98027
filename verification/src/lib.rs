//! Transimpedance-response compensation calculator.
//!
//! A device catalog of transimpedance front-ends is parsed from a plain
//! key/value configuration format, and a compensation solver places a
//! pole/zero pair for a requested measurement range, feedback capacitance
//! and target gain-bandwidth.  All quantities are exact decimal values;
//! the solver works on scaled integers (micro-hertz) so that every step
//! of the placement algorithm is verified.

pub mod arith;
pub mod number;
pub mod device;
pub mod solver;
pub mod config;
pub mod catalog;
