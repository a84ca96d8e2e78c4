pub mod tier1;

pub use tier1::{match_intent, normalize_request, CommandPlan, CommandSource, PlanView};
