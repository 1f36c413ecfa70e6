//! Cleaning of Minecraft role-play chat logs: the lines that carry a chat or a
//! private message are cut down to the message itself, system noise and
//! excluded phrases are dropped, and the rest is laid out for saving.

pub mod text;
pub mod cleaner;
pub mod archive;
pub mod config;
