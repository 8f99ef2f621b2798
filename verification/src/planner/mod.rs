pub mod algebraic_cost;
pub mod cost_model;
pub mod kernel_kind;
pub mod kernel_plan;
pub mod admission;
pub mod relation_schedule;
pub mod ladder;
pub mod relation_preflight;
pub mod relation_support;
pub mod planner;
