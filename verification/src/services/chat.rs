//! Showing and writing chat messages.

use vstd::prelude::*;

use crate::{Message, MessageView};

verus! {

/// The chat of the node called `own_id`.
#[derive(Debug)]
pub struct ChatService {
    pub own_id: String,
}

/// The line that shows what someone said.
pub open spec fn chat_line(sender: Seq<char>, text: Seq<char>) -> Seq<char> {
    "["@ + sender + "]: "@ + text
}

/// Whether `message` is for the node called `own_id` to read.
pub open spec fn is_addressed_to(message: MessageView, own_id: Seq<char>) -> bool {
    match message {
        MessageView::Chat { target, .. } => target.len() == 0 || target == own_id,
        MessageView::HeartBeat { .. } => false,
    }
}

/// What follows from a line that the user has typed: a line to show, and a
/// message to everyone.
#[derive(Debug)]
pub struct Outgoing {
    pub echo: String,
    pub message: Message,
}

fn show(sender: &str, text: &str) -> (line: String)
    ensures
        line@ == chat_line(sender@, text@),
{
    let mut line = "[".to_owned();
    line.append(sender);
    line.append("]: ");
    line.append(text);
    line
}

impl ChatService {
    pub fn new(own_id: String) -> (chat: Self)
        ensures
            chat.own_id == own_id,
    {
        ChatService { own_id }
    }

    /// The line to show for a message from `sender_id`, if it is to be shown.
    pub fn handle(&self, sender_id: &str, message: Message) -> (line: Option<String>)
        ensures
            line is Some <==> is_addressed_to(message@, self.own_id@),
            line matches Some(shown) ==> (message@ matches MessageView::Chat { message: text, .. }
                && shown@ == chat_line(sender_id@, text)),
    {
        match message {
            Message::Chat { message: text, target } => {
                if target.as_str().is_empty() || target.eq(&self.own_id) {
                    Some(show(sender_id, text.as_str()))
                } else {
                    None
                }
            },
            Message::HeartBeat { .. } => None,
        }
    }

    /// Turns a line that the user has typed into a message to everyone.
    pub fn compose(local_line: String) -> (outgoing: Outgoing)
        ensures
            outgoing.echo@ == chat_line("You"@, local_line@),
            outgoing.message@ == (MessageView::Chat {
                message: local_line@,
                target: Seq::empty(),
            }),
    {
        let echo = show("You", local_line.as_str());
        Outgoing { echo, message: Message::Chat { message: local_line, target: String::new() } }
    }
}

/// Everyone is shown what a user types.
pub proof fn law_typed_lines_reach_everyone(text: Seq<char>, own_id: Seq<char>)
    ensures
        is_addressed_to(MessageView::Chat { message: text, target: Seq::empty() }, own_id),
{
}

/// A message for one node is shown by no other.
pub proof fn law_private_messages_stay_private(
    text: Seq<char>,
    target: Seq<char>,
    own_id: Seq<char>,
)
    requires
        target.len() > 0,
    ensures
        is_addressed_to(MessageView::Chat { message: text, target }, own_id) <==> own_id == target,
{
}

/// A line shows the whole of who said it and the whole of what was said: the
/// sender between brackets, then a colon and a space, then the text up to the
/// end.
pub proof fn law_line_shows_everything(sender: Seq<char>, text: Seq<char>)
    ensures
        ({
            let line = chat_line(sender, text);
            let end = sender.len() as int + 1;
            &&& line.len() == sender.len() + text.len() + 4
            &&& line[0] == '['
            &&& line.subrange(1, end) == sender
            &&& line[end] == ']'
            &&& line[end + 1] == ':'
            &&& line[end + 2] == ' '
            &&& line.skip(end + 3) == text
        }),
{
    reveal_strlit("[");
    reveal_strlit("]: ");
    let line = chat_line(sender, text);
    let end = sender.len() as int + 1;
    assert(line.subrange(1, end) =~= sender);
    assert(line.skip(end + 3) =~= text);
}

/// Whether a message is shown depends on whom it is for, and not on what it
/// says; heartbeats are never shown.
pub proof fn law_only_the_target_decides(message: MessageView, own_id: Seq<char>)
    ensures
        message matches MessageView::Chat { message: text, target } ==> (is_addressed_to(
            message,
            own_id,
        ) <==> target == own_id || target == Seq::<char>::empty()),
        message is HeartBeat ==> !is_addressed_to(message, own_id),
{
    if let MessageView::Chat { message: text, target } = message {
        if target.len() == 0 {
            assert(target =~= Seq::<char>::empty());
        }
    }
}

} // verus!
