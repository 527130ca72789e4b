//! A collection of small puzzle solvers built around one verified core:
//! a chained range-remapping engine that maps numeric intervals through an
//! ordered sequence of piecewise-linear translation tables and reports the
//! minimum reachable output value without enumerating individual values.

pub mod interval;
pub mod interval_set;
pub mod pipeline;
pub mod propagator;
pub mod solutions;
pub mod table;
pub mod text;
