pub mod codec;
pub mod date;
pub mod ident;
pub mod planner;
pub mod view;

pub use date::Date;
pub use ident::{IDGenerator, Id};
pub use planner::{Event, Planner, PlannerError};
