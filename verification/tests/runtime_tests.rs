use cliff::runtime::{Handler, Message, Runtime, SelfStarter};

#[derive(Debug, PartialEq)]
enum ServerMessage {
    Subscribe(u32),
    Unsubscribe(u32),
}

impl Message for ServerMessage {
    fn message_type(&self) -> String {
        match self {
            ServerMessage::Subscribe(_) => String::from("Subscribe"),
            ServerMessage::Unsubscribe(_) => String::from("Unsubscribe"),
        }
    }
}

#[derive(Default)]
struct SubscriptionServer {
    subscribers: Vec<u32>,
}

impl Handler<ServerMessage> for SubscriptionServer {
    fn handle(&mut self, message: &mut ServerMessage) {
        match message {
            ServerMessage::Subscribe(id) => self.subscribers.push(*id),
            ServerMessage::Unsubscribe(id) => self.subscribers.retain(|s| s != id),
        }
    }
}

#[test]
fn subscribe_then_unsubscribe_leaves_no_subscribers() {
    let mut runtime: Runtime<SubscriptionServer, ServerMessage> = SubscriptionServer::start();
    runtime.send(ServerMessage::Subscribe(2));
    runtime.send(ServerMessage::Unsubscribe(2));
    runtime.dispatch_all();
    assert!(runtime.actor.subscribers.is_empty());
}

#[derive(Debug, PartialEq)]
struct Tagged {
    producer: u32,
    seq: u32,
}

impl Message for Tagged {
    fn message_type(&self) -> String {
        String::from("Tagged")
    }
}

#[derive(Default)]
struct Recorder {
    seen: Vec<(u32, u32)>,
}

impl Handler<Tagged> for Recorder {
    fn handle(&mut self, message: &mut Tagged) {
        self.seen.push((message.producer, message.seq));
    }
}

#[test]
fn messages_are_dispatched_in_send_order() {
    let mut runtime: Runtime<Recorder, Tagged> = Recorder::start();
    // Two producers interleave; each producer's own messages stay in
    // the order it sent them, and the interleaving is arrival order.
    runtime.send(Tagged { producer: 1, seq: 1 });
    runtime.send(Tagged { producer: 2, seq: 1 });
    runtime.send(Tagged { producer: 1, seq: 2 });
    runtime.send(Tagged { producer: 2, seq: 2 });
    runtime.dispatch_all();
    assert_eq!(
        runtime.actor.seen,
        vec![(1, 1), (2, 1), (1, 2), (2, 2)]
    );
}

#[test]
fn sending_after_termination_is_a_silent_no_op() {
    let mut runtime: Runtime<Recorder, Tagged> = Recorder::start();
    runtime.send(Tagged { producer: 1, seq: 1 });
    runtime.dispatch_all();
    runtime.close();
    // The runtime has terminated: the send neither errs nor blocks, and
    // nothing reaches the actor.
    runtime.send(Tagged { producer: 1, seq: 2 });
    assert!(!runtime.dispatch_one());
    assert_eq!(runtime.actor.seen, vec![(1, 1)]);
}

#[test]
fn dispatch_one_reports_idleness() {
    let mut runtime: Runtime<Recorder, Tagged> = Recorder::start();
    assert!(!runtime.dispatch_one());
    runtime.send(Tagged { producer: 3, seq: 9 });
    assert!(runtime.dispatch_one());
    assert!(!runtime.dispatch_one());
}
