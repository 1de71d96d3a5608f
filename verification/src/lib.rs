//! Timezone-aware instants with verified calendar arithmetic.
//!
//! The central type is [`DateTime`], a civil datetime stored in UTC
//! together with an offset capability that projects it into local time.
//! Equality and ordering are defined on the underlying instant alone;
//! arithmetic, field access and the textual encodings are all specified
//! and proved against a single mathematical model of the calendar.

pub mod calendar;
pub mod delta;
pub mod naive;
pub mod offset;
pub mod datetime;
pub mod text;
pub mod rfc3339;
pub mod rfc2822;
pub mod fmt_items;
pub mod laws;
