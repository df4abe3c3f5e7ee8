use joebot_markov_chain::poller::{Message, MessageEntity, MessagePoller, Update, UpdateMessage,
    parse_text_message};

fn text_update(id: u64, text: &str, sender: &str, entities: Vec<MessageEntity>) -> Update {
    Update {
        update_id: id,
        message: Some(UpdateMessage {
            text: Some(text.to_string()),
            from_username: Some(sender.to_string()),
            entities,
        }),
    }
}

#[test]
fn plain_text_parses_to_text() {
    let u = text_update(1, "привет всем", "joe", vec![]);
    let m = parse_text_message(&u).unwrap();
    assert_eq!(
        m,
        Message::Text { contents: "привет всем".to_string(), sender: "joe".to_string() }
    );
}

#[test]
fn bot_command_splits_at_the_at_sign() {
    let e = MessageEntity { is_bot_command: true, offset: 0, length: 9 };
    let u = text_update(2, "/roll@joe 2d6", "ann", vec![e]);
    let m = parse_text_message(&u).unwrap();
    assert_eq!(
        m,
        Message::Command {
            command: "roll".to_string(),
            receiver: Some("joe".to_string()),
            sender: "ann".to_string(),
        }
    );
}

#[test]
fn bot_command_without_receiver() {
    let e = MessageEntity { is_bot_command: true, offset: 0, length: 5 };
    let u = text_update(3, "/roll 2d6", "ann", vec![e]);
    let m = parse_text_message(&u).unwrap();
    assert_eq!(
        m,
        Message::Command { command: "roll".to_string(), receiver: None, sender: "ann".to_string() }
    );
}

#[test]
fn update_without_text_or_sender_is_dropped() {
    let no_message = Update { update_id: 4, message: None };
    assert_eq!(parse_text_message(&no_message), None);
    let no_sender = Update {
        update_id: 5,
        message: Some(UpdateMessage {
            text: Some("hi".to_string()),
            from_username: None,
            entities: vec![],
        }),
    };
    assert_eq!(parse_text_message(&no_sender), None);
}

#[test]
fn poller_queues_in_order_and_tracks_offset() {
    let mut p = MessagePoller::new();
    assert_eq!(p.next_request_offset(), 1);
    let updates = vec![
        text_update(10, "first", "a", vec![]),
        Update { update_id: 11, message: None },
        text_update(12, "second", "b", vec![]),
    ];
    let queued = p.push_updates(updates);
    assert_eq!(queued, 2);
    assert_eq!(p.next_request_offset(), 13);
    assert_eq!(
        p.next_message(),
        Some(Message::Text { contents: "first".to_string(), sender: "a".to_string() })
    );
    assert_eq!(
        p.next_message(),
        Some(Message::Text { contents: "second".to_string(), sender: "b".to_string() })
    );
    assert_eq!(p.next_message(), None);
}
