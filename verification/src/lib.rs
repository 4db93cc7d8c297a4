//! Business-day calendar arithmetic over a configurable week pattern and
//! holiday set: weekday/holiday/business-day predicates, walks to the next
//! and previous business day, roll conventions (following, preceding and
//! their month-preserving "modified" variants), month-boundary helpers,
//! range counting, and a verified text interchange format.

pub mod calendar;
pub mod codec;
pub mod date;

pub use calendar::{BusdayConvention, BusinessCalendar};
pub use codec::Error;
pub use date::Date;
