//! Battery scheduling support library: languages, seasons, grid tariff
//! schedules, schedule locking and block-level schedule shaping.

pub mod i18n;
pub mod text;
pub mod time;
pub mod seasonal;
pub mod pricing;
pub mod locking;
pub mod plan;
pub mod defaults;
pub mod web;
pub mod periods;
pub mod ranking;
pub mod opportunity;
pub mod catalog;
