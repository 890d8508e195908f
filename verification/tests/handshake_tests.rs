//! Handshake coordinator behavior: introduced-by-me on connect, the
//! one-reply policy, and self-introduce suppression.
use puppydrive::handshake::handle_event;
use puppydrive::handshake::SendTo;
use puppydrive::protocol::Introduce;
use puppydrive::protocol::PeerCmd;
use puppydrive::state::Event;
use puppydrive::state::NodeStatus;
use puppydrive::state::Peer;
use puppydrive::state::State;

fn node(id: &str, name: &str) -> State {
    let mut s = State::default();
    s.me.id = id.to_string();
    s.me.name = name.to_string();
    s
}

fn introduce_of(me_id: &str, me_name: &str) -> PeerCmd {
    PeerCmd::Introduce(Introduce {
        id: me_id.to_string(),
        name: me_name.to_string(),
        owner: String::new(),
    })
}

fn expect_sent_introduce(out: Option<SendTo>, to: &str) -> (String, String, String) {
    let sent = out.expect("expected a reply");
    assert_eq!(sent.addr, to);
    match sent.cmd {
        PeerCmd::Introduce(i) => (i.id, i.name, i.owner),
        other => panic!("expected Introduce, got {:?}", other),
    }
}

#[test]
fn connect_marks_introduced_and_sends_identity() {
    let mut a = node("id-a", "alpha");
    let out = handle_event(&mut a, Event::PeerConnected { addr: "ws://peer:1".to_string() });
    let (id, name, owner) = expect_sent_introduce(out, "ws://peer:1");
    assert_eq!(id, "id-a");
    assert_eq!(name, "alpha");
    assert_eq!(owner, "");
    assert_eq!(a.peers.len(), 1);
    assert!(a.peers[0].introduced);
    assert_eq!(a.peers[0].addr.as_deref(), Some("ws://peer:1"));
}

#[test]
fn self_introduce_is_suppressed() {
    let mut a = node("id-a", "alpha");
    let out = handle_event(
        &mut a,
        Event::PeerCmd { addr: "udp://255.255.255.255:7764".to_string(), cmd: introduce_of("id-a", "alpha") },
    );
    assert!(out.is_none());
    assert_eq!(a.peers.len(), 0);
    assert_eq!(a.me.id, "id-a");
}

#[test]
fn introduce_from_unknown_peer_creates_record_and_replies_once() {
    let mut a = node("id-a", "alpha");
    let out = handle_event(
        &mut a,
        Event::PeerCmd { addr: "udp://10.0.0.2:7764".to_string(), cmd: introduce_of("id-b", "beta") },
    );
    let (id, _, _) = expect_sent_introduce(out, "udp://10.0.0.2:7764");
    assert_eq!(id, "id-a");
    assert_eq!(a.peers.len(), 1);
    assert_eq!(a.peers[0].id, "id-b");
    assert_eq!(a.peers[0].name, "beta");
    assert!(a.peers[0].introduced);

    // A repeated introduce updates identity but is not answered again.
    let out2 = handle_event(
        &mut a,
        Event::PeerCmd {
            addr: "udp://10.0.0.2:7764".to_string(),
            cmd: introduce_of("id-b", "beta-renamed"),
        },
    );
    assert!(out2.is_none());
    assert_eq!(a.peers.len(), 1);
    assert_eq!(a.peers[0].name, "beta-renamed");
}

#[test]
fn handshake_converges_in_one_round_trip() {
    let mut a = node("id-a", "alpha");
    let mut b = node("id-b", "beta");

    let a_sent = handle_event(&mut a, Event::PeerConnected { addr: "ws://b:7764".to_string() });
    let b_sent = handle_event(&mut b, Event::PeerConnected { addr: "ws://a:7764".to_string() });
    let a_intro = a_sent.expect("a introduces itself").cmd;
    let b_intro = b_sent.expect("b introduces itself").cmd;

    // Deliver each introduction to the other side: no further replies.
    let a_reply = handle_event(&mut a, Event::PeerCmd { addr: "ws://b:7764".to_string(), cmd: b_intro });
    let b_reply = handle_event(&mut b, Event::PeerCmd { addr: "ws://a:7764".to_string(), cmd: a_intro });
    assert!(a_reply.is_none());
    assert!(b_reply.is_none());

    assert_eq!(a.peers.len(), 1);
    assert!(a.peers[0].introduced);
    assert_eq!(a.peers[0].id, "id-b");
    assert_eq!(b.peers.len(), 1);
    assert!(b.peers[0].introduced);
    assert_eq!(b.peers[0].id, "id-a");
}

#[test]
fn disconnect_clears_address_but_keeps_record() {
    let mut a = node("id-a", "alpha");
    handle_event(&mut a, Event::PeerConnected { addr: "ws://peer:1".to_string() });
    handle_event(
        &mut a,
        Event::PeerCmd { addr: "ws://peer:1".to_string(), cmd: introduce_of("id-b", "beta") },
    );
    let out = handle_event(&mut a, Event::PeerDisconnected { addr: "ws://peer:1".to_string() });
    assert!(out.is_none());
    assert_eq!(a.peers.len(), 1);
    assert!(a.peers[0].addr.is_none());
    assert_eq!(a.peers[0].id, "id-b");
}

#[test]
fn hello_and_connect_failed_change_nothing() {
    let mut a = node("id-a", "alpha");
    let out = handle_event(
        &mut a,
        Event::PeerCmd { addr: "ws://peer:1".to_string(), cmd: PeerCmd::Hello },
    );
    assert!(out.is_none());
    let out2 = handle_event(
        &mut a,
        Event::ConnectFailed { addr: "ws://peer:2".to_string(), err: "refused".to_string() },
    );
    assert!(out2.is_none());
    assert_eq!(a.peers.len(), 0);
}

#[test]
fn get_peer_with_addr_reuses_existing_record() {
    let mut s = node("id-a", "alpha");
    let i1 = s.get_peer_with_addr("ws://x:1");
    let i2 = s.get_peer_with_addr("ws://x:1");
    assert_eq!(i1, i2);
    assert_eq!(s.peers.len(), 1);
    let i3 = s.get_peer_with_addr("ws://y:2");
    assert_ne!(i1, i3);
    assert_eq!(s.peers.len(), 2);
}

#[test]
fn peer_default_is_blank() {
    let p = Peer::default();
    assert_eq!(p.id, "");
    assert_eq!(p.name, "");
    assert!(p.owner.is_none());
    assert!(p.addr.is_none());
    assert!(!p.introduced);
}

#[test]
fn node_status_text() {
    assert_eq!(NodeStatus::Online.to_string(), "Online");
    assert_eq!(NodeStatus::Offline.to_string(), "Offline");
}
