//! Peer registry and event hub behavior, and the discovery timer rule.
use puppydrive::protocol::Introduce;
use puppydrive::protocol::PeerCmd;
use puppydrive::registry::AddrScheme;
use puppydrive::registry::PupynetEvent;
use puppydrive::registry::Registry;
use puppydrive::registry::SendError;
use puppydrive::registry::scheme_of;
use puppydrive::state::Event;
use puppydrive::timer::Timer;

fn intro(id: &str) -> PeerCmd {
    PeerCmd::Introduce(Introduce {
        id: id.to_string(),
        name: "n".to_string(),
        owner: String::new(),
    })
}

#[test]
fn send_to_unknown_address_is_an_error() {
    let reg = Registry::new();
    match reg.send("ws://nobody:1", &intro("x")) {
        Err(SendError::UnknownPeer) => {},
        other => panic!("expected UnknownPeer, got {:?}", other),
    }
}

#[test]
fn send_to_registered_address_encodes_the_frame() {
    let mut reg = Registry::new();
    let events = reg.handle_transport_event(PupynetEvent::PeerConnected {
        addr: "ws://peer:1".to_string(),
        tx: 42,
    });
    assert_eq!(events.len(), 1);
    assert!(matches!(&events[0], Event::PeerConnected { addr } if addr == "ws://peer:1"));
    let cmd = intro("me");
    let (handle, bytes) = reg.send("ws://peer:1", &cmd).unwrap();
    assert_eq!(handle, 42);
    assert_eq!(bytes, cmd.serialize());
}

#[test]
fn register_routes_sends_before_any_event() {
    // An outbound dial registers its queue at connect time, so sends
    // issued before the connection completes are routed, not refused.
    let mut reg = Registry::new();
    reg.register("ws://peer:1".to_string(), 9);
    let cmd = intro("me");
    let (handle, bytes) = reg.send("ws://peer:1", &cmd).unwrap();
    assert_eq!(handle, 9);
    assert_eq!(bytes, cmd.serialize());
}

#[test]
fn send_without_defined_encoding_is_an_error() {
    let mut reg = Registry::new();
    reg.handle_transport_event(PupynetEvent::PeerConnected {
        addr: "ws://peer:1".to_string(),
        tx: 7,
    });
    match reg.send("ws://peer:1", &PeerCmd::Hello) {
        Err(SendError::NotEncodable) => {},
        other => panic!("expected NotEncodable, got {:?}", other),
    }
}

#[test]
fn reconnect_replaces_the_handle() {
    let mut reg = Registry::new();
    reg.handle_transport_event(PupynetEvent::PeerConnected {
        addr: "ws://peer:1".to_string(),
        tx: 1,
    });
    reg.handle_transport_event(PupynetEvent::PeerConnected {
        addr: "ws://peer:1".to_string(),
        tx: 2,
    });
    let (handle, _) = reg.send("ws://peer:1", &intro("me")).unwrap();
    assert_eq!(handle, 2);
}

#[test]
fn disconnect_unregisters_the_handle() {
    let mut reg = Registry::new();
    reg.handle_transport_event(PupynetEvent::PeerConnected {
        addr: "ws://peer:1".to_string(),
        tx: 1,
    });
    let events = reg.handle_transport_event(PupynetEvent::PeerDisconnected {
        addr: "ws://peer:1".to_string(),
    });
    assert_eq!(events.len(), 1);
    assert!(matches!(&events[0], Event::PeerDisconnected { addr } if addr == "ws://peer:1"));
    match reg.send("ws://peer:1", &intro("me")) {
        Err(SendError::UnknownPeer) => {},
        other => panic!("expected UnknownPeer, got {:?}", other),
    }
}

#[test]
fn peer_data_decodes_commands_into_events() {
    let mut reg = Registry::new();
    let bytes = intro("remote").serialize();
    let events = reg.handle_transport_event(PupynetEvent::PeerData {
        addr: "ws://peer:1".to_string(),
        data: bytes,
    });
    assert_eq!(events.len(), 1);
    match &events[0] {
        Event::PeerCmd { addr, cmd: PeerCmd::Introduce(i) } => {
            assert_eq!(addr, "ws://peer:1");
            assert_eq!(i.id, "remote");
        },
        _ => panic!("expected a PeerCmd event"),
    }
}

#[test]
fn peer_data_buffers_partial_frames_per_connection() {
    let mut reg = Registry::new();
    let bytes = intro("remote").serialize();
    let (left, right) = bytes.split_at(5);
    let events = reg.handle_transport_event(PupynetEvent::PeerData {
        addr: "ws://peer:1".to_string(),
        data: left.to_vec(),
    });
    assert!(events.is_empty());
    // A different connection's bytes do not complete this frame.
    let other = reg.handle_transport_event(PupynetEvent::PeerData {
        addr: "ws://peer:2".to_string(),
        data: right.to_vec(),
    });
    assert!(other.is_empty());
    let events = reg.handle_transport_event(PupynetEvent::PeerData {
        addr: "ws://peer:1".to_string(),
        data: right.to_vec(),
    });
    assert_eq!(events.len(), 1);
}

#[test]
fn address_schemes_are_read_off_the_prefix() {
    assert_eq!(scheme_of("ws://10.0.0.2:7764"), AddrScheme::Ws);
    assert_eq!(scheme_of("wss://example.net:443"), AddrScheme::Wss);
    assert_eq!(scheme_of("udp://255.255.255.255:7764"), AddrScheme::Udp);
    assert_eq!(scheme_of("tcp://10.0.0.2:7764"), AddrScheme::Unsupported);
    assert_eq!(scheme_of("ws:/missing"), AddrScheme::Unsupported);
    assert_eq!(scheme_of(""), AddrScheme::Unsupported);
}

#[test]
fn timer_disabled_never_fires() {
    let mut t = Timer::new();
    assert!(!t.fire());
    assert!(!t.fire());
}

#[test]
fn timer_one_shot_fires_once() {
    let mut t = Timer::new().repeat(false).time(5000);
    assert_eq!(t.duration_ms, 5000);
    assert!(t.fire());
    assert!(!t.fire());
}

#[test]
fn timer_repeating_keeps_firing() {
    let mut t = Timer::new().repeat(true).time(5000);
    assert!(t.fire());
    assert!(t.fire());
    assert!(t.fire());
}
