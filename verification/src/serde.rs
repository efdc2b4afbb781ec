//! Helpers for moving common column shapes in and out of ClickHouse's
//! wire representations.

pub mod map;
