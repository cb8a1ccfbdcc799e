//! A personal work-time tracker: sessions with a start, an optional end and
//! an objective, kept in a delimited text file and reported per day or month.

pub mod stamp;
pub mod session;
pub mod report;
pub mod store;
pub mod live;
