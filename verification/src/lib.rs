//! Placement-constraint analysis: a rule model for require/exclude
//! constraints between named entities, preprocessing that makes the rules
//! encodable as boolean formulas, solver engines that decide satisfiability
//! and report the offending rules, and a recommendation engine that picks a
//! rule-removal set.

pub mod model;
pub mod numtext;
pub mod order;
pub mod recommend;
pub mod solver;
pub mod util;
