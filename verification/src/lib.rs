//! Core logic of the Sumire community bot: text utilities, expression
//! results, number commands, the command catalogue and the coin rules.

pub mod text;
pub mod calendar;
pub mod strings;
pub mod expression;
pub mod arith;
pub mod command_list;
pub mod help;
pub mod coins;
pub mod roles;
pub mod achievements;
pub mod failures;
pub mod dispatch;
