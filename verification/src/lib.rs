//! Remittance planning: splitting remittances, savings goals, bill payments and
//! micro-insurance policies, with their rules verified.

pub mod amount;
pub mod remittance;
pub mod table;
pub mod bills;
pub mod insurance;
pub mod savings;
