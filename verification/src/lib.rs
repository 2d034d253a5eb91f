//! A bot that takes part in group chats: when it answers, what it remembers, what it asks a language
//! model, and what becomes of the reply.

pub mod actions;
pub mod chat;
pub mod config;
pub mod context;
pub mod conversation;
pub mod events;
pub mod execute;
pub mod filedb;
pub mod format;
pub mod json;
pub mod log;
pub mod memory;
pub mod number;
pub mod order;
pub mod patterns;
pub mod recall;
pub mod rpc;
pub mod select;
pub mod settings;
pub mod sticker;
pub mod text;
pub mod types;
pub mod util;
pub mod voice;
pub mod yaml;
