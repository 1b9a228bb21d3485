//! Finds a cook time close to a requested one whose keypad entry is quickest
//! to type on a microwave's numeric keypad.

pub mod keypad;
pub mod compose;
pub mod window;
pub mod cost;
pub mod time;
pub mod search;
