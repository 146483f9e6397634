use vstd::prelude::*;

verus! {

/// The part of a chat message that the bot reads.
pub struct TelegramMessage {
    pub text: String,
}

/// One update from the chat service: its id, and the message it carries, if
/// any.
pub struct TelegramUpdate {
    pub update_id: i64,
    pub message: Option<TelegramMessage>,
}

/// The updates that one poll returned, in the order the service sent them.
pub struct TelegramUpdates {
    pub result: Vec<TelegramUpdate>,
}

/// The address of the chat service's API.
pub const HOSTNAME: &'static str = "https://api.telegram.org";

/// The formatting mode a message is sent with: `HTML` for HTML text,
/// `MarkdownV2` otherwise.
pub fn parse_mode(is_html: bool) -> (r: &'static str)
    ensures
        r@ == if is_html {
            "HTML"@
        } else {
            "MarkdownV2"@
        },
{
    if is_html {
        "HTML"
    } else {
        "MarkdownV2"
    }
}

} // verus!
