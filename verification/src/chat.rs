//! Styling of chat log lines.

use vstd::prelude::*;

use crate::text::{chars_contain, chars_of, chars_start_with, has_substring};

verus! {

/// How a chat log line is drawn.
#[derive(Clone, Copy, Debug, PartialEq, Eq, Structural)]
pub enum ChatLineStyle {
    ChatSystem,
    ChatWhisper,
    ChatSay,
}

/// `[System]`
pub open spec fn system_tag() -> Seq<char> {
    seq!['[', 'S', 'y', 's', 't', 'e', 'm', ']']
}

/// `[System ` (a system tag with a qualifier).
pub open spec fn system_tag_open() -> Seq<char> {
    seq!['[', 'S', 'y', 's', 't', 'e', 'm', ' ']
}

/// `whispers`
pub open spec fn whisper_word() -> Seq<char> {
    seq!['w', 'h', 'i', 's', 'p', 'e', 'r', 's']
}

/// System lines start with a system tag; whispers mention `whispers`;
/// everything else is said aloud.
pub open spec fn chat_line_style_spec(line: Seq<char>) -> ChatLineStyle {
    if system_tag().is_prefix_of(line) || system_tag_open().is_prefix_of(line) {
        ChatLineStyle::ChatSystem
    } else if has_substring(line, whisper_word()) {
        ChatLineStyle::ChatWhisper
    } else {
        ChatLineStyle::ChatSay
    }
}

/// The style of one chat log line.
pub fn classify_chat_line(line: &str) -> (style: ChatLineStyle)
    ensures
        style == chat_line_style_spec(line@),
{
    let v = chars_of(line);
    let closed = vec!['[', 'S', 'y', 's', 't', 'e', 'm', ']'];
    let open = vec!['[', 'S', 'y', 's', 't', 'e', 'm', ' '];
    let whispers = vec!['w', 'h', 'i', 's', 'p', 'e', 'r', 's'];
    assert(closed@ == system_tag());
    assert(open@ == system_tag_open());
    assert(whispers@ == whisper_word());
    if chars_start_with(&v, &closed) || chars_start_with(&v, &open) {
        ChatLineStyle::ChatSystem
    } else if chars_contain(&v, &whispers) {
        ChatLineStyle::ChatWhisper
    } else {
        ChatLineStyle::ChatSay
    }
}

} // verus!
