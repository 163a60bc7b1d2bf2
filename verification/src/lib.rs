//! Keyboard and mouse hints over the contents of a terminal.
//!
//! A hint marks text on the screen which can be acted on: a hyperlink, or text which matches a
//! regular expression. [`state::HintState`] labels every visible match with the keys which select
//! it, [`highlight::highlighted_at`] finds the match under the mouse, and [`openable::Openable`]
//! remembers which text an outside program would open.

pub mod arrange;
pub mod config;
pub mod engine;
pub mod highlight;
pub mod hint;
pub mod hyperlinks;
pub mod index;
pub mod labels;
pub mod modifiers;
pub mod offer;
pub mod openable;
pub mod post_process;
pub mod regex;
pub mod screen;
pub mod standard;
pub mod state;
pub mod terminal;
pub mod text;
