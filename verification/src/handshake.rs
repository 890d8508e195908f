//! The introduction handshake: how one node's state reacts to peer
//! events, and which `Introduce` replies it sends.
//!
//! The rules, per event:
//! - a fresh connection marks the peer introduced and sends our own
//!   `Introduce` (introduced-by-me);
//! - a received `Introduce` carrying our own identity is discarded
//!   silently (broadcast loop-back on the same host);
//! - any other received `Introduce` updates the peer's identity, and is
//!   answered with our own `Introduce` exactly once per connection
//!   lifetime, so two nodes never reply forever;
//! - a disconnect clears the peer's address but keeps the record.
use vstd::prelude::*;

use crate::protocol::CmdView;
use crate::protocol::Introduce;
use crate::protocol::IntroView;
use crate::protocol::PeerCmd;
use crate::state::Event;
use crate::state::EventView;
use crate::state::Peer;
use crate::state::PeerView;
use crate::state::State;
use crate::state::StateView;
use crate::state::fresh_peer;
use crate::state::spec_get_or_create;
use crate::text::str_eq;

verus! {

/// An outbound command the caller must deliver to `addr`.
pub struct SendTo {
    pub addr: String,
    pub cmd: PeerCmd,
}

/// Mathematical image of a `SendTo`.
pub ghost struct SendView {
    pub addr: Seq<char>,
    pub cmd: CmdView,
}

impl View for SendTo {
    type V = SendView;

    open spec fn view(&self) -> SendView {
        SendView { addr: self.addr@, cmd: self.cmd@ }
    }
}

/// View of an optional outbound command.
pub open spec fn opt_send_view(o: &Option<SendTo>) -> Option<SendView> {
    match o {
        Some(s) => Some(s@),
        None => None,
    }
}

/// Our own `Introduce`, as sent on the wire: a missing owner is sent as
/// the empty string.
pub open spec fn own_introduce(me: PeerView) -> CmdView {
    CmdView::Introduce(
        IntroView {
            id: me.id,
            name: me.name,
            owner: match me.owner {
                Some(o) => o,
                None => Seq::empty(),
            },
        },
    )
}

impl CmdView {
    /// The file-operation commands, whose handlers this core leaves
    /// unimplemented.
    pub open spec fn is_file_op(self) -> bool {
        !(self is Introduce || self is Hello)
    }
}

impl EventView {
    /// Whether the event carries a file-operation command.
    pub open spec fn is_file_op(self) -> bool {
        match self {
            EventView::PeerCmd { cmd, .. } => cmd.is_file_op(),
            _ => false,
        }
    }
}

/// The handshake transition function: the state after one event, and
/// the reply it sends, if any.
pub open spec fn spec_handle(pre: StateView, ev: EventView) -> (StateView, Option<SendView>)
    recommends
        !ev.is_file_op(),
{
    match ev {
        EventView::ConnectFailed { .. } => (pre, None),
        EventView::PeerConnected { addr } => {
            let (peers1, i) = spec_get_or_create(pre.peers, addr);
            let peers2 = peers1.update(i, PeerView { introduced: true, ..peers1[i] });
            (
                StateView { peers: peers2, ..pre },
                Some(SendView { addr, cmd: own_introduce(pre.me) }),
            )
        },
        EventView::PeerDisconnected { addr } => {
            let (peers1, i) = spec_get_or_create(pre.peers, addr);
            let peers2 = peers1.update(i, PeerView { addr: None, ..peers1[i] });
            (StateView { peers: peers2, ..pre }, None)
        },
        EventView::PeerCmd { addr, cmd } => match cmd {
            CmdView::Introduce(iv) => {
                if iv.id == pre.me.id {
                    (pre, None)
                } else {
                    let (peers1, i) = spec_get_or_create(pre.peers, addr);
                    let known = PeerView { id: iv.id, name: iv.name, ..peers1[i] };
                    if known.introduced {
                        (StateView { peers: peers1.update(i, known), ..pre }, None)
                    } else {
                        (
                            StateView {
                                peers: peers1.update(i, PeerView { introduced: true, ..known }),
                                ..pre
                            },
                            Some(SendView { addr, cmd: own_introduce(pre.me) }),
                        )
                    }
                }
            },
            _ => (pre, None),
        },
    }
}

/// At most one peer record per live transport address; records whose
/// address was cleared do not count.
pub open spec fn unique_addrs(peers: Seq<PeerView>) -> bool {
    forall|i: int, j: int|
        0 <= i < j < peers.len() && (#[trigger] peers[i]).addr is Some ==> peers[i].addr != (
        #[trigger] peers[j]).addr
}

proof fn lemma_unique_update(peers: Seq<PeerView>, k: int, p2: PeerView)
    requires
        unique_addrs(peers),
        0 <= k < peers.len(),
        p2.addr == peers[k].addr || p2.addr is None,
    ensures
        unique_addrs(peers.update(k, p2)),
{
    let np = peers.update(k, p2);
    assert forall|i: int, j: int|
        0 <= i < j < np.len() && (#[trigger] np[i]).addr is Some implies np[i].addr != (
    #[trigger] np[j]).addr by {
        assert(peers[i].addr is Some ==> peers[i].addr != peers[j].addr);
    }
}

proof fn lemma_unique_get_or_create(peers: Seq<PeerView>, addr: Seq<char>)
    requires
        unique_addrs(peers),
    ensures
        unique_addrs(spec_get_or_create(peers, addr).0),
        ({
            let (peers1, i) = spec_get_or_create(peers, addr);
            0 <= i < peers1.len()
        }),
    decreases peers.len(),
{
    crate::state::lemma_first_addr_index(peers, addr);
    if !crate::state::has_peer_with_addr(peers, addr) {
        let np = peers.push(fresh_peer(addr));
        assert forall|i: int, j: int|
            0 <= i < j < np.len() && (#[trigger] np[i]).addr is Some implies np[i].addr != (
        #[trigger] np[j]).addr by {
            if j == peers.len() as int {
                if np[i].addr == Some(addr) {
                    assert(peers[i].addr == Some(addr));
                    assert(crate::state::has_peer_with_addr(peers, addr));
                }
            } else {
                assert(peers[i].addr is Some ==> peers[i].addr != peers[j].addr);
            }
        }
    }
}

/// Law: every handshake transition keeps the registry invariant that at
/// most one peer record carries any live transport address.
pub proof fn lemma_unique_addrs_preserved(pre: StateView, ev: EventView)
    requires
        unique_addrs(pre.peers),
        !ev.is_file_op(),
    ensures
        unique_addrs(spec_handle(pre, ev).0.peers),
{
    match ev {
        EventView::ConnectFailed { .. } => {},
        EventView::PeerConnected { addr } => {
            lemma_unique_get_or_create(pre.peers, addr);
            let (peers1, i) = spec_get_or_create(pre.peers, addr);
            lemma_unique_update(peers1, i, PeerView { introduced: true, ..peers1[i] });
        },
        EventView::PeerDisconnected { addr } => {
            lemma_unique_get_or_create(pre.peers, addr);
            let (peers1, i) = spec_get_or_create(pre.peers, addr);
            lemma_unique_update(peers1, i, PeerView { addr: None, ..peers1[i] });
        },
        EventView::PeerCmd { addr, cmd } => match cmd {
            CmdView::Introduce(iv) => {
                if iv.id != pre.me.id {
                    lemma_unique_get_or_create(pre.peers, addr);
                    let (peers1, i) = spec_get_or_create(pre.peers, addr);
                    let known = PeerView { id: iv.id, name: iv.name, ..peers1[i] };
                    lemma_unique_update(peers1, i, known);
                    lemma_unique_update(peers1, i, PeerView { introduced: true, ..known });
                }
            },
            _ => {},
        },
    }
}

/// Law: a node that receives its own identity back (a broadcast heard
/// on the same host) takes no action at all: no state change, no reply.
pub proof fn lemma_self_introduce_suppressed(pre: StateView, addr: Seq<char>, iv: IntroView)
    requires
        iv.id == pre.me.id,
    ensures
        spec_handle(pre, EventView::PeerCmd { addr, cmd: CmdView::Introduce(iv) }) == (
            pre,
            None::<SendView>,
        ),
{
}

/// Law: an `Introduce` from a peer already marked introduced updates its
/// identity fields but never triggers another reply, so two nodes cannot
/// answer each other forever.
pub proof fn lemma_no_reply_when_introduced(pre: StateView, addr: Seq<char>, iv: IntroView)
    requires
        iv.id != pre.me.id,
        crate::state::has_peer_with_addr(pre.peers, addr),
        pre.peers[crate::state::first_addr_index(pre.peers, addr)].introduced,
    ensures
        spec_handle(pre, EventView::PeerCmd { addr, cmd: CmdView::Introduce(iv) }).1 is None,
{
}

/// Law: two freshly started nodes that exchange `PeerConnected` and the
/// resulting `Introduce` commands both reach `introduced == true` after
/// exactly one round trip, each sends exactly one `Introduce`, and the
/// received introductions trigger no further reply.
pub proof fn lemma_handshake_converges(
    a0: StateView,
    b0: StateView,
    addr_b: Seq<char>,
    addr_a: Seq<char>,
)
    requires
        a0.me.id != b0.me.id,
        a0.peers.len() == 0,
        b0.peers.len() == 0,
    ensures
        ({
            let (a1, asend) = spec_handle(a0, EventView::PeerConnected { addr: addr_b });
            let (b1, bsend) = spec_handle(b0, EventView::PeerConnected { addr: addr_a });
            let (a2, areply) = spec_handle(
                a1,
                EventView::PeerCmd { addr: addr_b, cmd: bsend.unwrap().cmd },
            );
            let (b2, breply) = spec_handle(
                b1,
                EventView::PeerCmd { addr: addr_a, cmd: asend.unwrap().cmd },
            );
            &&& asend == Some(SendView { addr: addr_b, cmd: own_introduce(a0.me) })
            &&& bsend == Some(SendView { addr: addr_a, cmd: own_introduce(b0.me) })
            &&& areply is None
            &&& breply is None
            &&& a2.peers.len() == 1
            &&& a2.peers[0].introduced
            &&& a2.peers[0].id == b0.me.id
            &&& a2.peers[0].addr == Some(addr_b)
            &&& b2.peers.len() == 1
            &&& b2.peers[0].introduced
            &&& b2.peers[0].id == a0.me.id
            &&& b2.peers[0].addr == Some(addr_a)
        }),
{
    let (a1, asend) = spec_handle(a0, EventView::PeerConnected { addr: addr_b });
    let (b1, bsend) = spec_handle(b0, EventView::PeerConnected { addr: addr_a });
    assert(a1.peers.len() == 1 && a1.peers[0].addr == Some(addr_b) && a1.peers[0].introduced);
    assert(b1.peers.len() == 1 && b1.peers[0].addr == Some(addr_a) && b1.peers[0].introduced);
    assert(crate::state::has_peer_with_addr(a1.peers, addr_b));
    assert(crate::state::has_peer_with_addr(b1.peers, addr_a));
}

/// Builds our own `Introduce` command from this node's record.
fn make_own_introduce(me: &Peer) -> (c: PeerCmd)
    ensures
        c@ == own_introduce(me@),
{
    PeerCmd::Introduce(
        Introduce {
            id: me.id.clone(),
            name: me.name.clone(),
            owner: match &me.owner {
                Some(o) => o.clone(),
                None => String::new(),
            },
        },
    )
}

/// Applies one peer event to the state, following the handshake rules,
/// and returns the reply to deliver, if any.  File-operation commands
/// have no handler in this core and are left out.
pub fn handle_event(state: &mut State, event: Event) -> (out: Option<SendTo>)
    requires
        !event@.is_file_op(),
    ensures
        final(state)@ == spec_handle(old(state)@, event@).0,
        opt_send_view(&out) == spec_handle(old(state)@, event@).1,
{
    match event {
        Event::ConnectFailed { .. } => None,
        Event::PeerConnected { addr } => {
            let reply = make_own_introduce(&state.me);
            let idx = state.get_peer_with_addr(addr.as_str());
            let mut p = state.peers[idx].duplicate();
            p.introduced = true;
            let ghost peers1 = state@.peers;
            state.peers[idx] = p;
            proof {
                assert(state@.peers =~= peers1.update(
                    idx as int,
                    PeerView { introduced: true, ..peers1[idx as int] },
                ));
            }
            Some(SendTo { addr, cmd: reply })
        },
        Event::PeerDisconnected { addr } => {
            let idx = state.get_peer_with_addr(addr.as_str());
            let mut p = state.peers[idx].duplicate();
            p.addr = None;
            let ghost peers1 = state@.peers;
            state.peers[idx] = p;
            proof {
                assert(state@.peers =~= peers1.update(
                    idx as int,
                    PeerView { addr: None, ..peers1[idx as int] },
                ));
            }
            None
        },
        Event::PeerCmd { addr, cmd } => match cmd {
            PeerCmd::Introduce(intro) => {
                if str_eq(intro.id.as_str(), state.me.id.as_str()) {
                    return None;
                }
                let idx = state.get_peer_with_addr(addr.as_str());
                let mut p = state.peers[idx].duplicate();
                p.id = intro.id;
                p.name = intro.name;
                let ghost peers1 = state@.peers;
                let ghost known = PeerView { id: p.id@, name: p.name@, ..peers1[idx as int] };
                if p.introduced {
                    state.peers[idx] = p;
                    proof {
                        assert(state@.peers =~= peers1.update(idx as int, known));
                    }
                    None
                } else {
                    p.introduced = true;
                    let reply = make_own_introduce(&state.me);
                    state.peers[idx] = p;
                    proof {
                        assert(state@.peers =~= peers1.update(
                            idx as int,
                            PeerView { introduced: true, ..known },
                        ));
                    }
                    Some(SendTo { addr, cmd: reply })
                }
            },
            PeerCmd::Hello => None,
            _ => None,
        },
    }
}

} // verus!
