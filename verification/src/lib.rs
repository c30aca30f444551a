use vstd::prelude::*;

pub mod text;
pub mod vars;
pub mod parser;
pub mod edit;
pub mod refs;
pub mod hud;
pub mod order;
pub mod keybinds;
pub mod conflicts;
pub mod macros;
pub mod components;
pub mod favorites;
pub mod search;
pub mod keybind_object;
pub mod cli;
pub mod apps;
pub mod layouts;
pub mod numbers;
pub mod style;
pub mod input;
pub mod backup;
pub mod export;
pub mod commands;
pub mod cache;
pub mod variable_edit;
pub mod wizards;
pub mod readback;
pub mod doctor;
pub mod input_readback;
pub mod style_readback;
pub mod bulk;
pub mod keyboard;
pub mod forms;
pub mod home;
pub mod choices;
pub mod sources;
pub mod normalize_laws;

verus! {
}
