//! Long-poll bookkeeping for an update feed: turning raw update records into
//! chat messages and queueing them, while tracking the offset the next poll
//! request must carry.
//!
//! An update's message yields a command when it carries an entity marked as a
//! bot command at offset zero whose length fits the text: the text between
//! the leading slash and the entity's end splits at an optional `@` into the
//! command and its receiver. Any other message with a text and a sender is
//! plain text; updates without both are dropped.

use vstd::prelude::*;
use vstd::string::StrSliceExecFns;

verus! {

/// One entity attached to a message text.
#[derive(Debug, Clone, PartialEq)]
pub struct MessageEntity {
    pub is_bot_command: bool,
    pub offset: u64,
    pub length: u64,
}

/// The parts of an update's message that the parser reads.
#[derive(Debug, Clone, PartialEq)]
pub struct UpdateMessage {
    pub text: Option<String>,
    pub from_username: Option<String>,
    pub entities: Vec<MessageEntity>,
}

/// One raw update record.
#[derive(Debug, Clone, PartialEq)]
pub struct Update {
    pub update_id: u64,
    pub message: Option<UpdateMessage>,
}

/// A chat message: a command addressed to a bot, or plain text.
#[derive(Debug, Clone, PartialEq)]
pub enum Message {
    Command { command: String, receiver: Option<String>, sender: String },
    Text { contents: String, sender: String },
}

/// What an update parses to, over plain character sequences.
pub enum ParsedMessage {
    Dropped,
    Command { command: Seq<char>, receiver: Option<Seq<char>>, sender: Seq<char> },
    Text { contents: Seq<char>, sender: Seq<char> },
}

/// The first entity marking a bot command at offset zero, or -1.
pub open spec fn first_command_entity(es: Seq<MessageEntity>, i: int) -> int
    decreases es.len() - i,
{
    if i < 0 || i >= es.len() {
        -1
    } else if es[i].is_bot_command && es[i].offset == 0 {
        i
    } else {
        first_command_entity(es, i + 1)
    }
}

/// Position of the first `@` at or after `i`, or the end.
pub open spec fn at_sign(s: Seq<char>, i: int) -> int
    decreases s.len() - i,
{
    if i < 0 || i >= s.len() {
        s.len() as int
    } else if s[i] == '@' {
        i
    } else {
        at_sign(s, i + 1)
    }
}

proof fn lemma_at_sign(s: Seq<char>, i: int)
    requires
        0 <= i <= s.len(),
    ensures
        i <= at_sign(s, i) <= s.len(),
        at_sign(s, i) < s.len() ==> s[at_sign(s, i)] == '@',
        forall|k: int| i <= k < at_sign(s, i) ==> s[k] != '@',
    decreases s.len() - i,
{
    if i < s.len() && s[i] != '@' {
        lemma_at_sign(s, i + 1);
    }
}

/// What one update parses to. A command entity whose length does not fit the
/// text, or a command part holding a second `@`, demotes the message to
/// plain text.
pub open spec fn spec_parse_message(u: Update) -> ParsedMessage {
    match u.message {
        None => ParsedMessage::Dropped,
        Some(um) => match um.text {
            None => ParsedMessage::Dropped,
            Some(t) => match um.from_username {
                None => ParsedMessage::Dropped,
                Some(snd) => {
                    let c = first_command_entity(um.entities@, 0);
                    if c < 0 {
                        ParsedMessage::Text { contents: t@, sender: snd@ }
                    } else {
                        let len = um.entities@[c].length as int;
                        if 1 <= len <= t@.len() {
                            let body = t@.subrange(1, len);
                            let a = at_sign(body, 0);
                            if a == body.len() {
                                ParsedMessage::Command {
                                    command: body,
                                    receiver: None,
                                    sender: snd@,
                                }
                            } else {
                                let rest = body.subrange(a + 1, body.len() as int);
                                if at_sign(rest, 0) == rest.len() {
                                    ParsedMessage::Command {
                                        command: body.subrange(0, a),
                                        receiver: Some(rest),
                                        sender: snd@,
                                    }
                                } else {
                                    ParsedMessage::Text { contents: t@, sender: snd@ }
                                }
                            }
                        } else {
                            ParsedMessage::Text { contents: t@, sender: snd@ }
                        }
                    }
                },
            },
        },
    }
}

/// The view of an executable message.
pub open spec fn message_view(m: Message) -> ParsedMessage {
    match m {
        Message::Command { command, receiver, sender } => ParsedMessage::Command {
            command: command@,
            receiver: match receiver {
                Some(r) => Some(r@),
                None => None,
            },
            sender: sender@,
        },
        Message::Text { contents, sender } => ParsedMessage::Text {
            contents: contents@,
            sender: sender@,
        },
    }
}

/// Parses one update into a chat message, or drops it when it has no text or
/// no sender.
pub fn parse_text_message(update: &Update) -> (r: Option<Message>)
    ensures
        match r {
            Some(m) => message_view(m) == spec_parse_message(*update),
            None => spec_parse_message(*update) is Dropped,
        },
{
    let um = match &update.message {
        Some(um) => um,
        None => {
            return None;
        },
    };
    let t = match &um.text {
        Some(t) => t,
        None => {
            return None;
        },
    };
    let snd = match &um.from_username {
        Some(s) => s,
        None => {
            return None;
        },
    };
    let c = match find_command_entity(&um.entities) {
        Some(c) => c,
        None => {
            return Some(Message::Text { contents: t.clone(), sender: snd.clone() });
        },
    };
    let tlen = t.as_str().unicode_len();
    let elen = um.entities[c].length;
    if elen < 1 || elen > tlen as u64 {
        return Some(Message::Text { contents: t.clone(), sender: snd.clone() });
    }
    let len = elen as usize;
    let body = t.as_str().substring_char(1, len);
    let blen = body.unicode_len();
    let mut a: usize = 0;
    while a < blen && body.get_char(a) != '@'
        invariant
            a <= blen,
            blen == body@.len(),
            forall|k: int| 0 <= k < a ==> body@[k] != '@',
        decreases blen - a,
    {
        a = a + 1;
    }
    proof {
        lemma_at_sign(body@, 0);
        let asp = at_sign(body@, 0);
        if asp < a {
            assert(body@[asp] != '@');
            assert(false);
        }
        if a < asp {
            assert(body@[a as int] != '@');
            assert(false);
        }
    }
    if a == blen {
        return Some(
            Message::Command { command: body.to_owned(), receiver: None, sender: snd.clone() },
        );
    }
    let rest = body.substring_char(a + 1, blen);
    let rlen = rest.unicode_len();
    let mut b: usize = 0;
    while b < rlen && rest.get_char(b) != '@'
        invariant
            b <= rlen,
            rlen == rest@.len(),
            forall|k: int| 0 <= k < b ==> rest@[k] != '@',
        decreases rlen - b,
    {
        b = b + 1;
    }
    proof {
        lemma_at_sign(rest@, 0);
        let bsp = at_sign(rest@, 0);
        if bsp < b {
            assert(rest@[bsp] != '@');
            assert(false);
        }
        if b < bsp {
            assert(rest@[b as int] != '@');
            assert(false);
        }
    }
    if b < rlen {
        return Some(Message::Text { contents: t.clone(), sender: snd.clone() });
    }
    let command = body.substring_char(0, a).to_owned();
    Some(
        Message::Command { command, receiver: Some(rest.to_owned()), sender: snd.clone() },
    )
}

/// The first bot-command entity at offset zero, if any.
fn find_command_entity(es: &Vec<MessageEntity>) -> (r: Option<usize>)
    ensures
        match r {
            Some(i) => i < es@.len() && first_command_entity(es@, 0) == i as int,
            None => first_command_entity(es@, 0) == -1,
        },
{
    let n = es.len();
    let mut c: usize = 0;
    while c < n
        invariant
            c <= n,
            n == es@.len(),
            forall|k: int|
                0 <= k < c ==> !((#[trigger] es@[k]).is_bot_command && es@[k].offset == 0),
        decreases n - c,
    {
        if es[c].is_bot_command && es[c].offset == 0 {
            proof {
                lemma_first_command_entity_at(es@, c as int);
            }
            return Some(c);
        }
        c = c + 1;
    }
    proof {
        lemma_first_command_entity_at(es@, n as int);
    }
    None
}

proof fn lemma_first_command_entity_at(es: Seq<MessageEntity>, i: int)
    requires
        0 <= i <= es.len(),
        forall|k: int| 0 <= k < i ==> !((#[trigger] es[k]).is_bot_command && es[k].offset == 0),
        i < es.len() ==> es[i].is_bot_command && es[i].offset == 0,
    ensures
        i < es.len() ==> first_command_entity(es, 0) == i,
        i == es.len() ==> first_command_entity(es, 0) == -1,
    decreases es.len(),
{
    lemma_first_command_entity_from(es, 0, i);
}

proof fn lemma_first_command_entity_from(es: Seq<MessageEntity>, j: int, i: int)
    requires
        0 <= j <= i <= es.len(),
        forall|k: int| 0 <= k < i ==> !((#[trigger] es[k]).is_bot_command && es[k].offset == 0),
        i < es.len() ==> es[i].is_bot_command && es[i].offset == 0,
    ensures
        i < es.len() ==> first_command_entity(es, j) == i,
        i == es.len() ==> first_command_entity(es, j) == -1,
    decreases es.len() - j,
{
    if j < i {
        lemma_first_command_entity_from(es, j + 1, i);
    }
}

/// The messages a batch of updates parses to, dropped updates left out.
pub open spec fn parsed_updates(us: Seq<Update>, i: int) -> Seq<ParsedMessage>
    decreases us.len() - i,
{
    if i < 0 || i >= us.len() {
        Seq::empty()
    } else {
        let p = spec_parse_message(us[i]);
        let rest = parsed_updates(us, i + 1);
        if p is Dropped {
            rest
        } else {
            seq![p] + rest
        }
    }
}

/// Long-poll bookkeeping: queued messages in arrival order, and the highest
/// update id seen so far.
pub struct MessagePoller {
    message_queue: Vec<Message>,
    update_offset: u64,
}

impl MessagePoller {
    /// The queued messages, oldest first.
    pub closed spec fn queue(&self) -> Seq<ParsedMessage> {
        Seq::new(self.message_queue@.len(), |k: int| message_view(self.message_queue@[k]))
    }

    /// The highest update id seen.
    pub closed spec fn offset(&self) -> u64 {
        self.update_offset
    }

    pub fn new() -> (r: Self)
        ensures
            r.queue() == Seq::<ParsedMessage>::empty(),
            r.offset() == 0,
    {
        let r = MessagePoller { message_queue: Vec::new(), update_offset: 0 };
        proof {
            assert(r.queue() =~= Seq::<ParsedMessage>::empty());
        }
        r
    }

    /// The offset the next poll request must carry: one past the highest
    /// update id seen.
    pub fn next_request_offset(&self) -> (r: u64)
        requires
            self.offset() < u64::MAX,
        ensures
            r == self.offset() + 1,
    {
        self.update_offset + 1
    }

    /// Applies one poll response: remembers the last update's id and queues
    /// every update that parses to a message, in order.
    pub fn push_updates(&mut self, updates: Vec<Update>) -> (count: usize)
        ensures
            final(self).offset() == if updates@.len() > 0 {
                updates@.last().update_id
            } else {
                old(self).offset()
            },
            final(self).queue() == old(self).queue() + parsed_updates(updates@, 0),
            count == parsed_updates(updates@, 0).len(),
    {
        let n = updates.len();
        if n > 0 {
            self.update_offset = updates[n - 1].update_id;
        }
        let ghost q0 = self.queue();
        let ghost off1 = self.update_offset;
        let mut count: usize = 0;
        let mut i: usize = 0;
        while i < n
            invariant
                i <= n,
                n == updates@.len(),
                q0 == old(self).queue(),
                self.update_offset == off1,
                off1 == if updates@.len() > 0 {
                    updates@.last().update_id
                } else {
                    old(self).offset()
                },
                count <= i,
                count == self.queue().len() - q0.len(),
                q0.len() <= self.queue().len(),
                q0 + parsed_updates(updates@, 0) == self.queue() + parsed_updates(
                    updates@,
                    i as int,
                ),
            decreases n - i,
        {
            let ghost qcur = self.queue();
            match parse_text_message(&updates[i]) {
                Some(m) => {
                    let ghost mv = message_view(m);
                    self.message_queue.push(m);
                    count = count + 1;
                    proof {
                        assert(self.queue() =~= qcur.push(mv));
                        assert(parsed_updates(updates@, i as int) == seq![mv] + parsed_updates(
                            updates@,
                            i + 1,
                        ));
                        assert(qcur.push(mv) + parsed_updates(updates@, i + 1) =~= qcur + (
                        seq![mv] + parsed_updates(updates@, i + 1)));
                    }
                },
                None => {},
            }
            i = i + 1;
        }
        proof {
            assert(parsed_updates(updates@, n as int) =~= Seq::<ParsedMessage>::empty());
            assert(self.queue() + Seq::<ParsedMessage>::empty() =~= self.queue());
            assert(q0 + Seq::<ParsedMessage>::empty() =~= q0);
        }
        count
    }

    /// Pops the oldest queued message, if any.
    pub fn next_message(&mut self) -> (r: Option<Message>)
        ensures
            final(self).offset() == old(self).offset(),
            match r {
                Some(m) => old(self).queue().len() > 0 && message_view(m) == old(self).queue()[0]
                    && final(self).queue() == old(self).queue().drop_first(),
                None => old(self).queue().len() == 0 && final(self).queue() == old(self).queue(),
            },
    {
        if self.message_queue.len() == 0 {
            return None;
        }
        let m = self.message_queue.remove(0);
        proof {
            assert(final(self).queue() =~= old(self).queue().drop_first());
        }
        Some(m)
    }
}

} // verus!
