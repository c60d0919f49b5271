//! The refusals of the chat in words.

use crate::chat_model::{ChatError, ChatErrorV};
use crate::text;
use crate::text::append_number;
use vstd::prelude::*;
use vstd::string::*;

verus! {

/// The text in quotation marks, with escapes, as the standard library writes a
/// string for debugging.
pub uninterp spec fn quoted(t: Seq<char>) -> Seq<char>;

/// The text as the standard library's `Debug` writes a string: in quotation
/// marks, with escapes. Which characters are escaped is left to it.
#[verifier::external_body]
fn quote(t: &str) -> (r: String)
    ensures
        r@ == quoted(t@),
{
    format!("{t:?}")
}

impl ChatErrorV {
    /// The refusal in words. A refusal that is about a message or a closed
    /// discussion is worded by whoever shows it.
    pub open spec fn reason(self) -> Option<Seq<char>> {
        match self {
            ChatErrorV::NoRandom { why } => Some("os rng unavailable: "@ + why),
            ChatErrorV::EmptyPath => Some("the file path must not be empty"@),
            ChatErrorV::NoFileName { path } => Some(quoted(path) + " has no file name component"@),
            ChatErrorV::SharingOff => Some("file sharing is off (file_cap_bytes = 0)"@),
            ChatErrorV::OverCap { size, cap } => Some(
                "file is "@ + text::dec(size as nat) + " bytes — the share cap is "@ + text::dec(
                    cap as nat,
                ),
            ),
            ChatErrorV::AlreadyDownloading => Some("this share is already downloading"@),
            ChatErrorV::UnknownSource => Some(
                "this node no longer knows the shared file's local path"@,
            ),
            ChatErrorV::NoRealNode => Some(
                "this workspace's members are simulated — no real node holds this file"@,
            ),
            ChatErrorV::BadEmoji => Some("the reaction must be a short emoji"@),
            ChatErrorV::Tombstone => Some(
                "the message was deleted — a tombstone takes no reactions"@,
            ),
            ChatErrorV::BadUpTo => Some("up_to must be a 32-hex message id"@),
            ChatErrorV::UnknownUpTo => Some("up_to names no known message"@),
            ChatErrorV::ForeignUpTo => Some("up_to is not a message of this channel"@),
            _ => None,
        }
    }
}

impl ChatError {
    /// The refusal in words, where it is worded here.
    pub fn reason(&self) -> (r: Option<String>)
        ensures
            r.deep_view() == self.deep_view().reason(),
    {
        match self {
            ChatError::NoRandom { why } => {
                let mut out = "os rng unavailable: ".to_owned();
                out.append(why.as_str());
                Some(out)
            },
            ChatError::EmptyPath => Some("the file path must not be empty".to_owned()),
            ChatError::NoFileName { path } => {
                let mut out = quote(path.as_str());
                out.append(" has no file name component");
                Some(out)
            },
            ChatError::SharingOff => Some("file sharing is off (file_cap_bytes = 0)".to_owned()),
            ChatError::OverCap { size, cap } => {
                let mut out = "file is ".to_owned();
                append_number(&mut out, *size);
                out.append(" bytes — the share cap is ");
                append_number(&mut out, *cap);
                Some(out)
            },
            ChatError::AlreadyDownloading => Some("this share is already downloading".to_owned()),
            ChatError::UnknownSource => Some(
                "this node no longer knows the shared file's local path".to_owned(),
            ),
            ChatError::NoRealNode => Some(
                "this workspace's members are simulated — no real node holds this file".to_owned(),
            ),
            ChatError::BadEmoji => Some("the reaction must be a short emoji".to_owned()),
            ChatError::Tombstone => Some(
                "the message was deleted — a tombstone takes no reactions".to_owned(),
            ),
            ChatError::BadUpTo => Some("up_to must be a 32-hex message id".to_owned()),
            ChatError::UnknownUpTo => Some("up_to names no known message".to_owned()),
            ChatError::ForeignUpTo => Some("up_to is not a message of this channel".to_owned()),
            _ => None,
        }
    }
}

} // verus!
