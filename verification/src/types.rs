//! The messages that the sources deliver.
use crate::time::{rfc3339, Timestamp};
use vstd::prelude::*;

verus! {

/// One chat message as a source delivers it.
#[derive(Debug, PartialEq, Eq)]
pub struct RawMessage {
    pub account_hash: String,
    pub chat_id: String,
    pub chat_name: String,
    pub chat_type: String,
    pub message_id: String,
    pub sender_id: String,
    pub sender_nickname: String,
    pub timestamp: Timestamp,
    pub text: String,
    pub message_type: String,
    pub reply_to_message_id: Option<String>,
}

/// The text of an optional string.
pub open spec fn optional_text(s: Option<String>) -> Option<Seq<char>> {
    match s {
        Some(text) => Some(text@),
        None => None,
    }
}

impl Clone for RawMessage {
    fn clone(&self) -> (r: Self)
        ensures
            r == *self,
    {
        RawMessage {
            account_hash: self.account_hash.clone(),
            chat_id: self.chat_id.clone(),
            chat_name: self.chat_name.clone(),
            chat_type: self.chat_type.clone(),
            message_id: self.message_id.clone(),
            sender_id: self.sender_id.clone(),
            sender_nickname: self.sender_nickname.clone(),
            timestamp: self.timestamp,
            text: self.text.clone(),
            message_type: self.message_type.clone(),
            reply_to_message_id: self.reply_to_message_id.clone(),
        }
    }
}

/// Three texts that identify or rank a message.
pub type TextKey = (Seq<char>, Seq<char>, Seq<char>);

impl RawMessage {
    /// What identifies a message: account, chat and message id.
    pub open spec fn identity(self) -> TextKey {
        (self.account_hash@, self.chat_id@, self.message_id@)
    }

    /// What ranks a message: time in RFC 3339, chat and message id.
    pub open spec fn send_key(self) -> TextKey {
        (
            rfc3339(self.timestamp.unix_seconds(), self.timestamp.sub_nanos()),
            self.chat_id@,
            self.message_id@,
        )
    }
}

} // verus!
