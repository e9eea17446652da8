//! A plugin runtime for terminal applications: a typed heterogeneous store,
//! a double-buffered event bus, a plugin registry with run-time borrow
//! checking, the frame loop that drives the plugins, and a keybinding
//! dispatcher that turns key presses into bound events.

pub mod anymap;
pub mod editor;
pub mod events;
pub mod keybindings;
pub mod keys;
pub mod plugins;
pub mod registry;
pub mod settings;
pub mod trie;
