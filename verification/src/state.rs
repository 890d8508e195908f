//! Process state: this node's identity and its view of every peer,
//! together with the plain data types the protocol layer shares.
use vstd::prelude::*;

use crate::protocol::CmdView;
use crate::protocol::PeerCmd;
use crate::text::opt_str_view;
use crate::text::clone_opt_string;
use crate::text::str_eq;

verus! {

/// Startup configuration: addresses of peers to dial and local
/// addresses to bind.
#[derive(Debug)]
pub struct Args {
    pub peer: Vec<String>,
    pub bind: Vec<String>,
}

/// A remote node as this process sees it.  The record survives a
/// disconnect: only `addr` is cleared, identity and history stay.
#[derive(Debug)]
pub struct Peer {
    pub id: String,
    pub name: String,
    pub owner: Option<String>,
    pub addr: Option<String>,
    pub introduced: bool,
}

/// Mathematical image of a `Peer`.
pub ghost struct PeerView {
    pub id: Seq<char>,
    pub name: Seq<char>,
    pub owner: Option<Seq<char>>,
    pub addr: Option<Seq<char>>,
    pub introduced: bool,
}

impl View for Peer {
    type V = PeerView;

    open spec fn view(&self) -> PeerView {
        PeerView {
            id: self.id@,
            name: self.name@,
            owner: opt_str_view(&self.owner),
            addr: opt_str_view(&self.addr),
            introduced: self.introduced,
        }
    }
}

/// The freshly created record for an address seen for the first time.
pub open spec fn fresh_peer(addr: Seq<char>) -> PeerView {
    PeerView {
        id: Seq::empty(),
        name: Seq::empty(),
        owner: None,
        addr: Some(addr),
        introduced: false,
    }
}

impl Default for Peer {
    fn default() -> (r: Self)
        ensures
            r@ == (PeerView {
                id: Seq::<char>::empty(),
                name: Seq::<char>::empty(),
                owner: None,
                addr: None,
                introduced: false,
            }),
    {
        Peer { id: String::new(), name: String::new(), owner: None, addr: None, introduced: false }
    }
}

impl Peer {
    /// A copy of this record with the same contents.
    pub fn duplicate(&self) -> (r: Peer)
        ensures
            r@ == self@,
    {
        Peer {
            id: self.id.clone(),
            name: self.name.clone(),
            owner: clone_opt_string(&self.owner),
            addr: clone_opt_string(&self.addr),
            introduced: self.introduced,
        }
    }
}

/// Mathematical image of the process state.
pub ghost struct StateView {
    pub me: PeerView,
    pub peers: Seq<PeerView>,
    pub binds: Seq<Seq<char>>,
}

/// The whole mutable state of one node: its own identity, every peer
/// record, and the configured bind addresses.
#[derive(Debug)]
pub struct State {
    pub me: Peer,
    pub peers: Vec<Peer>,
    pub binds: Vec<String>,
}

impl View for State {
    type V = StateView;

    open spec fn view(&self) -> StateView {
        StateView {
            me: self.me@,
            peers: self.peers@.map_values(|p: Peer| p@),
            binds: self.binds@.map_values(|b: String| b@),
        }
    }
}

impl Default for State {
    fn default() -> (r: Self)
        ensures
            r@.me == (PeerView {
                id: Seq::<char>::empty(),
                name: Seq::<char>::empty(),
                owner: None,
                addr: None,
                introduced: false,
            }),
            r@.peers == Seq::<PeerView>::empty(),
            r@.binds == Seq::<Seq<char>>::empty(),
    {
        let r = State { me: Peer::default(), peers: Vec::new(), binds: Vec::new() };
        proof {
            assert(r@.peers =~= Seq::<PeerView>::empty());
            assert(r@.binds =~= Seq::<Seq<char>>::empty());
        }
        r
    }
}

/// Whether some record currently carries this transport address.
pub open spec fn has_peer_with_addr(peers: Seq<PeerView>, addr: Seq<char>) -> bool {
    exists|i: int| 0 <= i < peers.len() && (#[trigger] peers[i]).addr == Some(addr)
}

/// The first index whose record carries this address (`peers.len()` when
/// none does).
pub open spec fn first_addr_index(peers: Seq<PeerView>, addr: Seq<char>) -> int
    decreases peers.len(),
{
    if peers.len() == 0 {
        0
    } else if peers[0].addr == Some(addr) {
        0
    } else {
        1 + first_addr_index(peers.drop_first(), addr)
    }
}

pub proof fn lemma_first_addr_index(peers: Seq<PeerView>, addr: Seq<char>)
    ensures
        has_peer_with_addr(peers, addr) ==> {
            let i = first_addr_index(peers, addr);
            &&& 0 <= i < peers.len()
            &&& peers[i].addr == Some(addr)
            &&& forall|j: int| 0 <= j < i ==> (#[trigger] peers[j]).addr != Some(addr)
        },
        !has_peer_with_addr(peers, addr) ==> first_addr_index(peers, addr) == peers.len(),
    decreases peers.len(),
{
    if peers.len() == 0 {
    } else if peers[0].addr == Some(addr) {
    } else {
        let rest = peers.drop_first();
        lemma_first_addr_index(rest, addr);
        let f = first_addr_index(rest, addr);
        if has_peer_with_addr(peers, addr) {
            let i = choose|i: int|
                0 <= i < peers.len() && (#[trigger] peers[i]).addr == Some(addr);
            assert(i >= 1);
            assert(rest[i - 1] == peers[i]);
            assert(has_peer_with_addr(rest, addr));
            assert(peers[f + 1] == rest[f]);
            assert forall|j: int| 0 <= j < f + 1 implies (#[trigger] peers[j]).addr != Some(
                addr,
            ) by {
                if j >= 1 {
                    assert(rest[j - 1] == peers[j]);
                }
            }
        } else {
            if has_peer_with_addr(rest, addr) {
                let k = choose|i: int|
                    0 <= i < rest.len() && (#[trigger] rest[i]).addr == Some(addr);
                assert(peers[k + 1] == rest[k]);
                assert(has_peer_with_addr(peers, addr));
            }
        }
    }
}

/// The record set and index after looking an address up, creating a
/// fresh record when the address was never seen.
pub open spec fn spec_get_or_create(peers: Seq<PeerView>, addr: Seq<char>) -> (Seq<PeerView>, int) {
    if has_peer_with_addr(peers, addr) {
        (peers, first_addr_index(peers, addr))
    } else {
        (peers.push(fresh_peer(addr)), peers.len() as int)
    }
}

impl State {
    /// Finds the first record whose current address is `addr`, creating
    /// one when the address was never seen; returns its index.
    pub fn get_peer_with_addr(&mut self, addr: &str) -> (idx: usize)
        ensures
            final(self)@.me == old(self)@.me,
            final(self)@.binds == old(self)@.binds,
            (final(self)@.peers, idx as int) == spec_get_or_create(old(self)@.peers, addr@),
            idx < final(self).peers.len(),
    {
        proof {
            lemma_first_addr_index(old(self)@.peers, addr@);
        }
        let n = self.peers.len();
        let mut i: usize = 0;
        while i < n
            invariant
                n == self.peers.len(),
                i <= n,
                forall|j: int|
                    0 <= j < i ==> (#[trigger] self@.peers[j]).addr != Some(addr@),
            decreases n - i,
        {
            let hit = match &self.peers[i].addr {
                Some(a) => str_eq(a.as_str(), addr),
                None => false,
            };
            if hit {
                proof {
                    assert(self@.peers[i as int].addr == Some(addr@));
                    assert(has_peer_with_addr(self@.peers, addr@));
                    assert(first_addr_index(self@.peers, addr@) == i) by {
                        lemma_first_addr_index(self@.peers, addr@);
                        let f = first_addr_index(self@.peers, addr@);
                        if f < i {
                            assert(self@.peers[f].addr != Some(addr@));
                        }
                    }
                }
                return i;
            }
            i += 1;
        }
        let mut p = Peer::default();
        p.addr = Some(addr.to_owned());
        self.peers.push(p);
        proof {
            assert(!has_peer_with_addr(old(self)@.peers, addr@));
            assert(self@.peers =~= old(self)@.peers.push(fresh_peer(addr@)));
        }
        n
    }
}

/// A node's row in the rendered peer overview.
#[derive(Debug)]
pub struct Node {
    pub id: String,
    pub name: String,
    pub traffic: u32,
    pub status: NodeStatus,
    pub addr: Option<String>,
}

/// Whether a node is currently reachable.
#[derive(Debug)]
pub enum NodeStatus {
    Online,
    Offline,
}

impl NodeStatus {
    /// The status as display text.
    pub fn to_string(&self) -> (s: String)
        ensures
            self matches NodeStatus::Online ==> s@ == "Online"@,
            self matches NodeStatus::Offline ==> s@ == "Offline"@,
    {
        match self {
            NodeStatus::Online => "Online".to_owned(),
            NodeStatus::Offline => "Offline".to_owned(),
        }
    }
}

/// One file as reported to a remote peer.
pub struct FileInfo {
    pub path: String,
    pub size: u64,
    pub hash: Option<String>,
}

/// A command addressed to a peer, tagged with a request id.
#[derive(Debug)]
pub struct PeerReq {
    pub id: String,
    pub cmd: PeerCmd,
}

/// The result of one file-operation command.
#[derive(Debug)]
pub enum NodeCmdRes {
    ReadFile { data: Vec<u8> },
    WriteFile { success: bool },
    RemoveFile { success: bool },
    CreateFolder { success: bool },
    RenameFolder { success: bool },
    RemoveFolder { success: bool },
    ListFolderContents { contents: Vec<String> },
}

/// A response from a peer, tagged with the request id it answers.
#[derive(Debug)]
pub struct PeerRes {
    pub id: String,
    pub res: NodeCmdRes,
}

/// Either direction of peer traffic: a command or a response.
#[derive(Debug)]
pub enum PeerMsg {
    Cmd(PeerCmd),
    Res(NodeCmdRes),
}

/// One event out of the peer registry, as the application loop sees it.
pub enum Event {
    PeerConnected { addr: String },
    PeerDisconnected { addr: String },
    PeerCmd { addr: String, cmd: PeerCmd },
    ConnectFailed { addr: String, err: String },
}

/// Mathematical image of an `Event`.
pub ghost enum EventView {
    PeerConnected { addr: Seq<char> },
    PeerDisconnected { addr: Seq<char> },
    PeerCmd { addr: Seq<char>, cmd: CmdView },
    ConnectFailed { addr: Seq<char>, err: Seq<char> },
}

impl View for Event {
    type V = EventView;

    open spec fn view(&self) -> EventView {
        match self {
            Event::PeerConnected { addr } => EventView::PeerConnected { addr: addr@ },
            Event::PeerDisconnected { addr } => EventView::PeerDisconnected { addr: addr@ },
            Event::PeerCmd { addr, cmd } => EventView::PeerCmd { addr: addr@, cmd: cmd@ },
            Event::ConnectFailed { addr, err } => EventView::ConnectFailed {
                addr: addr@,
                err: err@,
            },
        }
    }
}

/// A command to one connection task: close, or write these bytes.
pub enum PeerConnCmd {
    Close,
    Send(Vec<u8>),
}

} // verus!
