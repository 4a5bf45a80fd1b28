//! The logic of a chat with a model in the terminal, whose tools come from MCP servers.
//!
//! What the program around this library does for it is to read and to write: the terminal, the
//! model, the servers, the files and the environment. Everything that is decided or computed
//! in between stands here, as functions on plain values.
//!
//! - Texts and values: [`text`], [`truncate`], [`json`], [`clock`], [`count`], [`thinking`].
//! - What is handed on of the replies of tools, within its budgets: [`budget`], [`detail`],
//!   [`reply`], [`history`].
//! - Settings, servers, and the calls of their tools: [`config`], [`server`], [`host`],
//!   [`call`].
//! - The conversation, and how it is kept: [`message`], [`ui`], [`turn`], [`session`],
//!   [`transcript`].
//! - What the user does: [`input`], [`screen`], [`chat`].
//! - What is drawn: [`line`], [`bubble`], [`markdown`], [`rows`], [`scene`].
//!
//! The contract of a function speaks of the views of its arguments: a text is the sequence of
//! its characters, and a type that holds texts has a model with sequences in their place. What
//! spans several functions is stated by public proof functions, at the end of each module or
//! beside what they speak of.

pub mod bubble;
pub mod budget;
pub mod call;
pub mod chat;
pub mod clock;
pub mod config;
pub mod count;
pub mod detail;
pub mod history;
pub mod host;
pub mod input;
pub mod json;
pub mod line;
pub mod markdown;
pub mod message;
pub mod reply;
pub mod rows;
pub mod scene;
pub mod screen;
pub mod server;
pub mod session;
pub mod text;
pub mod thinking;
pub mod transcript;
pub mod truncate;
pub mod turn;
pub mod ui;
