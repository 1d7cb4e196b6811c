//! A web service around Google Trends: the request logic, the keyword
//! tournament that compares more than five keywords, and the data shaping,
//! with their contracts.

pub mod text;
pub mod trend;
pub mod chunks;
pub mod request;
pub mod timing;
pub mod query;
pub mod handler;
pub mod chart;
