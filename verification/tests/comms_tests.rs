use rlibs::comms::{after_send, endpoint, first_send, receiver_reply, Endpoints, SendStep};

#[test]
fn endpoint_joins_host_and_port() {
    assert_eq!(endpoint("127.0.0.1", 1833), "127.0.0.1:1833");
    assert_eq!(endpoint("host", -1), "host:-1");
    assert_eq!(endpoint("", 0), ":0");
}

#[test]
fn new_endpoints_have_no_peers() {
    let e = Endpoints::new(String::from("127.0.0.1"), 1832);
    assert_eq!(e.addr, "127.0.0.1");
    assert_eq!(e.port, 1832);
    assert_eq!(e.publication_count(), 0);
    assert_eq!(e.bind_address(), "127.0.0.1:1832");
}

#[test]
fn register_publication_appends_peer() {
    let mut e = Endpoints::new(String::from("127.0.0.1"), 1832);
    e.register_publication(String::from("127.0.0.1"), 1833);
    e.register_publication(String::from("10.0.0.2"), 9000);
    assert_eq!(e.publication_count(), 2);
    assert_eq!(e.publication(0), "127.0.0.1:1833");
    assert_eq!(e.publication(1), "10.0.0.2:9000");
}

#[test]
fn sending_visits_peers_in_order() {
    let peers = 3;
    let mut visited = Vec::new();
    let mut step = first_send(peers);
    while let SendStep::SendTo(i) = step {
        visited.push(i);
        step = after_send(i, peers, true);
    }
    assert_eq!(visited, vec![0, 1, 2]);
    assert_eq!(step, SendStep::Done);
}

#[test]
fn sending_to_no_peers_is_done_at_once() {
    assert_eq!(first_send(0), SendStep::Done);
}

#[test]
fn failed_send_stops() {
    assert_eq!(first_send(4), SendStep::SendTo(0));
    assert_eq!(after_send(0, 4, true), SendStep::SendTo(1));
    assert_eq!(after_send(1, 4, false), SendStep::Failed);
    assert_eq!(after_send(3, 4, true), SendStep::Done);
}

#[test]
fn receiver_replies_to_non_empty_messages() {
    assert_eq!(receiver_reply("Hello Receiver"), Some(String::from("Hello Sender")));
    assert_eq!(receiver_reply("\u{fffd}"), Some(String::from("Hello Sender")));
    assert_eq!(receiver_reply(""), None);
}
