//! Fixes text typed on the wrong keyboard layout, as it is typed.

pub mod ai;
pub mod assist;
pub mod assurances;
pub mod buffer;
pub mod conduct;
pub mod config;
pub mod corpus;
pub mod detect;
pub mod engine;
pub mod hook;
pub mod input;
pub mod judgement;
pub mod keycaps;
pub mod layout;
pub mod model;
pub mod reach;
pub mod retyping;
pub mod rkm;
pub mod settings;
pub mod shipped;
pub mod single;
pub mod tables;
pub mod taps;
pub mod text;
