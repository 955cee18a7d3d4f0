//! The logic of a local KakaoTalk terminal client.
//!
//! A client reads messages from a source, archives what changed, shows one conversation in a
//! terminal and sends the replies that are typed there. This crate holds what is decided on the
//! way; reading, drawing and sending are left to its callers.
//!
//! - What a source delivers: [`types`], [`chats`], [`adapters`], and [`kakao`] for the databases
//!   of the Windows program.
//! - Following a source: [`snapshot`] tells what is new, [`session`] what is owed to the archive,
//!   [`watch`] how a line reads.
//! - The reply surface: [`draft`] is the line being typed, [`layout`] the rows of a message,
//!   [`reply_ui`] the whole of it, [`input`] what keys do, [`reply`] what a submitted line does,
//!   [`render`] what has to be drawn again.
//! - Commands: [`cli`] for their arguments, [`commands`] for what they check and report,
//!   [`selection`] for choosing a chat.
//! - Groundwork: [`text`], [`digits`], [`width`], [`order`] and [`time`].
pub mod adapters;
pub mod chats;
pub mod cli;
pub mod commands;
pub mod digits;
pub mod draft;
pub mod input;
pub mod kakao;
pub mod layout;
pub mod order;
pub mod render;
pub mod reply;
pub mod reply_ui;
pub mod selection;
pub mod session;
pub mod snapshot;
pub mod text;
pub mod time;
pub mod types;
pub mod watch;
pub mod width;
