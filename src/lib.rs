//! Office rota: splits a team into on-site and remote employees, week by week.

pub mod week;
pub mod schedule;
pub mod store;
