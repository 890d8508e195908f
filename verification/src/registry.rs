//! The peer registry and event hub: one place that aggregates transport
//! events, keeps the outbound routing table (address to sending handle),
//! runs one frame assembler per connection, and turns raw transport
//! occurrences into ordered application events.
use vstd::prelude::*;

use crate::protocol::CmdView;
use crate::protocol::PeerCmd;
use crate::protocol::PupynetProtocol;
use crate::protocol::stream_cmds;
use crate::protocol::stream_rest;
use crate::state::Event;
use crate::state::EventView;
use crate::text::str_eq;
use vstd::utf8::encode_utf8;

verus! {

/// A transport-level occurrence as a connection task reports it.  The
/// sending handle `tx` is an opaque token; the caller maps it to the
/// connection's real outbound queue.
pub enum PupynetEvent {
    PeerConnected { addr: String, tx: u64 },
    PeerDisconnected { addr: String },
    PeerData { addr: String, data: Vec<u8> },
}

/// Why a send was refused.
#[derive(Debug, PartialEq, Eq, Structural)]
pub enum SendError {
    /// The address is not registered; nothing is connected there.
    UnknownPeer,
    /// The command has no defined wire encoding that fits the limits.
    NotEncodable,
}

/// A transport address's scheme, read off its prefix.
#[derive(Debug, PartialEq, Eq, Structural)]
pub enum AddrScheme {
    Ws,
    Wss,
    Udp,
    Unsupported,
}

/// Whether `p` is a prefix of `s`.
pub open spec fn bytes_prefix(s: Seq<u8>, p: Seq<u8>) -> bool {
    p.len() <= s.len() && s.subrange(0, p.len() as int) == p
}

/// The dispatch rule for transport addresses: `ws://`, `wss://` or
/// `udp://` at the front of the address's UTF-8 bytes; anything else is
/// unsupported.
pub open spec fn spec_scheme(addr: Seq<char>) -> AddrScheme {
    if bytes_prefix(encode_utf8(addr), encode_utf8("ws://"@)) {
        AddrScheme::Ws
    } else if bytes_prefix(encode_utf8(addr), encode_utf8("wss://"@)) {
        AddrScheme::Wss
    } else if bytes_prefix(encode_utf8(addr), encode_utf8("udp://"@)) {
        AddrScheme::Udp
    } else {
        AddrScheme::Unsupported
    }
}

/// Whether `p`'s bytes lead `s`.
fn starts_with_bytes(s: &[u8], p: &[u8]) -> (r: bool)
    ensures
        r == bytes_prefix(s@, p@),
{
    let pn = p.len();
    if pn > s.len() {
        return false;
    }
    let mut i: usize = 0;
    while i < pn
        invariant
            pn == p@.len(),
            pn <= s@.len(),
            i <= pn,
            forall|j: int| 0 <= j < i ==> s@[j] == p@[j],
        decreases pn - i,
    {
        if *vstd::slice::slice_index_get(s, i) != *vstd::slice::slice_index_get(p, i) {
            return false;
        }
        i += 1;
    }
    proof {
        assert(s@.subrange(0, pn as int) =~= p@);
    }
    true
}

/// Classifies a transport address by its scheme prefix.
pub fn scheme_of(addr: &str) -> (r: AddrScheme)
    ensures
        r == spec_scheme(addr@),
{
    let bytes = addr.as_bytes();
    if starts_with_bytes(bytes, "ws://".as_bytes()) {
        AddrScheme::Ws
    } else if starts_with_bytes(bytes, "wss://".as_bytes()) {
        AddrScheme::Wss
    } else if starts_with_bytes(bytes, "udp://".as_bytes()) {
        AddrScheme::Udp
    } else {
        AddrScheme::Unsupported
    }
}

/// The views of an association list keyed by address.
pub open spec fn pair_views<V>(s: Seq<(String, V)>) -> Seq<(Seq<char>, V)> {
    s.map_values(|p: (String, V)| (p.0@, p.1))
}

/// Whether some pair carries this key.
pub open spec fn pair_has<V>(s: Seq<(Seq<char>, V)>, key: Seq<char>) -> bool {
    exists|i: int| 0 <= i < s.len() && (#[trigger] s[i]).0 == key
}

/// The first index whose pair carries this key (`s.len()` when none
/// does).
pub open spec fn pair_first<V>(s: Seq<(Seq<char>, V)>, key: Seq<char>) -> int
    decreases s.len(),
{
    if s.len() == 0 {
        0
    } else if s[0].0 == key {
        0
    } else {
        1 + pair_first(s.drop_first(), key)
    }
}

pub proof fn lemma_pair_first<V>(s: Seq<(Seq<char>, V)>, key: Seq<char>)
    ensures
        pair_has(s, key) ==> {
            let i = pair_first(s, key);
            &&& 0 <= i < s.len()
            &&& s[i].0 == key
            &&& forall|j: int| 0 <= j < i ==> (#[trigger] s[j]).0 != key
        },
        !pair_has(s, key) ==> pair_first(s, key) == s.len(),
    decreases s.len(),
{
    if s.len() == 0 {
    } else if s[0].0 == key {
    } else {
        let rest = s.drop_first();
        lemma_pair_first(rest, key);
        let f = pair_first(rest, key);
        if pair_has(s, key) {
            let i = choose|i: int| 0 <= i < s.len() && (#[trigger] s[i]).0 == key;
            assert(i >= 1);
            assert(rest[i - 1] == s[i]);
            assert(pair_has(rest, key));
            assert(s[f + 1] == rest[f]);
            assert forall|j: int| 0 <= j < f + 1 implies (#[trigger] s[j]).0 != key by {
                if j >= 1 {
                    assert(rest[j - 1] == s[j]);
                }
            }
        } else {
            if pair_has(rest, key) {
                let k = choose|i: int| 0 <= i < rest.len() && (#[trigger] rest[i]).0 == key;
                assert(s[k + 1] == rest[k]);
                assert(pair_has(s, key));
            }
        }
    }
}

/// Finds the first pair with this key.
fn find_key<V>(v: &Vec<(String, V)>, key: &str) -> (r: Option<usize>)
    ensures
        r is Some <==> pair_has(pair_views(v@), key@),
        r is Some ==> r.unwrap() == pair_first(pair_views(v@), key@) && r.unwrap() < v@.len(),
{
    let ghost views = pair_views(v@);
    proof {
        lemma_pair_first(views, key@);
    }
    let n = v.len();
    let mut i: usize = 0;
    while i < n
        invariant
            n == v@.len(),
            views == pair_views(v@),
            i <= n,
            forall|j: int| 0 <= j < i ==> (#[trigger] views[j]).0 != key@,
        decreases n - i,
    {
        if str_eq(v[i].0.as_str(), key) {
            proof {
                assert(views[i as int].0 == key@);
                assert(pair_has(views, key@));
                lemma_pair_first(views, key@);
                let f = pair_first(views, key@);
                if f < i {
                    assert(views[f].0 != key@);
                }
            }
            return Some(i);
        }
        i += 1;
    }
    proof {
        if pair_has(views, key@) {
            let k = choose|j: int| 0 <= j < views.len() && (#[trigger] views[j]).0 == key@;
            assert(views[k].0 != key@);
        }
    }
    None
}

/// The routing table after registering a handle under an address: the
/// first pair with that address is replaced, or a new pair appended.
pub open spec fn reg_register(s: Seq<(Seq<char>, u64)>, addr: Seq<char>, tx: u64) -> Seq<
    (Seq<char>, u64),
> {
    if pair_has(s, addr) {
        s.update(pair_first(s, addr), (addr, tx))
    } else {
        s.push((addr, tx))
    }
}

/// The routing table after unregistering an address: the first pair
/// with it is dropped; absent addresses change nothing.
pub open spec fn reg_remove(s: Seq<(Seq<char>, u64)>, addr: Seq<char>) -> Seq<(Seq<char>, u64)> {
    if pair_has(s, addr) {
        s.remove(pair_first(s, addr))
    } else {
        s
    }
}

/// The handle registered under an address.
pub open spec fn reg_handle(s: Seq<(Seq<char>, u64)>, addr: Seq<char>) -> u64
    recommends
        pair_has(s, addr),
{
    s[pair_first(s, addr)].1
}

/// The bytes a connection's assembler still buffers.
pub open spec fn residue_of(s: Seq<(Seq<char>, PupynetProtocol)>, addr: Seq<char>) -> Seq<u8> {
    if pair_has(s, addr) {
        s[pair_first(s, addr)].1.residue()
    } else {
        Seq::empty()
    }
}

/// The commands a connection's assembler has decoded but not delivered.
pub open spec fn pending_of(s: Seq<(Seq<char>, PupynetProtocol)>, addr: Seq<char>) -> Seq<
    CmdView,
> {
    if pair_has(s, addr) {
        s[pair_first(s, addr)].1.pending()
    } else {
        Seq::empty()
    }
}

/// The views of the events a registry emits.
pub open spec fn event_views(evs: Seq<Event>) -> Seq<EventView> {
    evs.map_values(|e: Event| e@)
}

/// One `PeerCmd` event per decoded command, all from one address.
pub open spec fn cmd_events(addr: Seq<char>, cmds: Seq<CmdView>) -> Seq<EventView> {
    cmds.map_values(|c: CmdView| EventView::PeerCmd { addr: addr, cmd: c })
}

/// The registry: the outbound routing table and one frame assembler per
/// connection.  It owns no socket; it only decides.
pub struct Registry {
    peers: Vec<(String, u64)>,
    assemblers: Vec<(String, PupynetProtocol)>,
}

impl Registry {
    /// The routing table: address to sending handle.
    pub closed spec fn peers(&self) -> Seq<(Seq<char>, u64)> {
        pair_views(self.peers@)
    }

    /// The frame assemblers: address to per-connection parser state.
    pub closed spec fn assembler_table(&self) -> Seq<(Seq<char>, PupynetProtocol)> {
        pair_views(self.assemblers@)
    }

    pub fn new() -> (r: Self)
        ensures
            r.peers() == Seq::<(Seq<char>, u64)>::empty(),
            r.assembler_table() == Seq::<(Seq<char>, PupynetProtocol)>::empty(),
    {
        let r = Registry { peers: Vec::new(), assemblers: Vec::new() };
        proof {
            assert(r.peers() =~= Seq::<(Seq<char>, u64)>::empty());
            assert(r.assembler_table() =~= Seq::<(Seq<char>, PupynetProtocol)>::empty());
        }
        r
    }

    /// Routes one command: looks the address up and encodes the
    /// command, returning the handle to enqueue on and the frame bytes.
    /// An unregistered address is an explicit error, never a panic; so
    /// is a command without a defined encoding.
    pub fn send(&self, addr: &str, cmd: &PeerCmd) -> (r: Result<(u64, Vec<u8>), SendError>)
        ensures
            r is Ok <==> pair_has(self.peers(), addr@) && cmd@.wire_encodable(),
            r is Ok ==> r.unwrap().0 == reg_handle(self.peers(), addr@) && r.unwrap().1@
                == cmd@.spec_serialize(),
            !pair_has(self.peers(), addr@) ==> r == Err::<(u64, Vec<u8>), SendError>(
                SendError::UnknownPeer,
            ),
            pair_has(self.peers(), addr@) && !cmd@.wire_encodable() ==> r == Err::<
                (u64, Vec<u8>),
                SendError,
            >(SendError::NotEncodable),
    {
        let idx = match find_key(&self.peers, addr) {
            Some(i) => i,
            None => {
                return Err(SendError::UnknownPeer);
            },
        };
        match cmd.try_serialize() {
            Some(bytes) => Ok((self.peers[idx].1, bytes)),
            None => Err(SendError::NotEncodable),
        }
    }

    /// Registers a sending handle under an address without emitting an
    /// event: what an outbound dial does, so that commands sent before
    /// the connection completes are queued rather than refused.
    pub fn register(&mut self, addr: String, tx: u64)
        ensures
            final(self).peers() == reg_register(old(self).peers(), addr@, tx),
            final(self).assembler_table() == old(self).assembler_table(),
    {
        let ghost views = self.peers();
        match find_key(&self.peers, addr.as_str()) {
            Some(i) => {
                self.peers[i] = (addr, tx);
                proof {
                    lemma_pair_first(views, addr@);
                    assert(self.peers() =~= views.update(pair_first(views, addr@), (addr@, tx)));
                }
            },
            None => {
                self.peers.push((addr, tx));
                proof {
                    assert(self.peers() =~= views.push((addr@, tx)));
                }
            },
        }
    }

    /// Applies one transport occurrence: updates the routing table or
    /// feeds the connection's assembler, and returns the application
    /// events it produces, in order.
    pub fn handle_transport_event(&mut self, ev: PupynetEvent) -> (out: Vec<Event>)
        ensures
            ({
                match ev {
                    PupynetEvent::PeerConnected { addr, tx } => {
                        &&& final(self).peers() == reg_register(old(self).peers(), addr@, tx)
                        &&& final(self).assembler_table() == old(self).assembler_table()
                        &&& event_views(out@) == seq![EventView::PeerConnected { addr: addr@ }]
                    },
                    PupynetEvent::PeerDisconnected { addr } => {
                        &&& final(self).peers() == reg_remove(old(self).peers(), addr@)
                        &&& final(self).assembler_table() == old(self).assembler_table()
                        &&& event_views(out@) == seq![EventView::PeerDisconnected { addr: addr@ }]
                    },
                    PupynetEvent::PeerData { addr, data } => {
                        let oa = old(self).assembler_table();
                        let na = final(self).assembler_table();
                        &&& final(self).peers() == old(self).peers()
                        &&& event_views(out@) == cmd_events(
                            addr@,
                            pending_of(oa, addr@) + stream_cmds(residue_of(oa, addr@) + data@),
                        )
                        &&& pending_of(na, addr@) == Seq::<CmdView>::empty()
                        &&& residue_of(na, addr@) == stream_rest(residue_of(oa, addr@) + data@)
                        &&& forall|a: Seq<char>|
                            a != addr@ ==> pending_of(na, a) == pending_of(oa, a) && residue_of(
                                na,
                                a,
                            ) == residue_of(oa, a)
                    },
                }
            }),
    {
        match ev {
            PupynetEvent::PeerConnected { addr, tx } => {
                self.register(addr.clone(), tx);
                let out = make_one_event(Event::PeerConnected { addr });
                out
            },
            PupynetEvent::PeerDisconnected { addr } => {
                let ghost views = self.peers();
                match find_key(&self.peers, addr.as_str()) {
                    Some(i) => {
                        self.peers.remove(i);
                        proof {
                            assert(self.peers() =~= views.remove(pair_first(views, addr@)));
                        }
                    },
                    None => {},
                }
                let out = make_one_event(Event::PeerDisconnected { addr });
                out
            },
            PupynetEvent::PeerData { addr, data } => self.handle_data(addr, data),
        }
    }

    /// Feeds one chunk into the address's assembler (created on first
    /// sight) and drains every decoded command as an event.
    fn handle_data(&mut self, addr: String, data: Vec<u8>) -> (out: Vec<Event>)
        ensures
            final(self).peers() == old(self).peers(),
            event_views(out@) == cmd_events(
                addr@,
                pending_of(old(self).assembler_table(), addr@) + stream_cmds(
                    residue_of(old(self).assembler_table(), addr@) + data@,
                ),
            ),
            pending_of(final(self).assembler_table(), addr@) == Seq::<CmdView>::empty(),
            residue_of(final(self).assembler_table(), addr@) == stream_rest(
                residue_of(old(self).assembler_table(), addr@) + data@,
            ),
            forall|a: Seq<char>|
                a != addr@ ==> pending_of(final(self).assembler_table(), a) == pending_of(
                    old(self).assembler_table(),
                    a,
                ) && residue_of(final(self).assembler_table(), a) == residue_of(old(self).assembler_table(), a),
    {
        let ghost oa = self.assembler_table();
        let ghost orig_vec = self.assemblers@;
        proof {
            lemma_pair_first(oa, addr@);
        }
        let found = find_key(&self.assemblers, addr.as_str());
        let mut entry = match found {
            Some(i) => self.assemblers.remove(i),
            None => (addr.clone(), PupynetProtocol::new()),
        };
        proof {
            assert(entry.1.pending() == pending_of(oa, addr@));
            assert(entry.1.residue() == residue_of(oa, addr@));
        }
        entry.1.parse(data.as_slice());
        let ghost total = pending_of(oa, addr@) + stream_cmds(residue_of(oa, addr@) + data@);
        let mut out: Vec<Event> = Vec::new();
        proof {
            assert(entry.1.pending() =~= total);
            assert(event_views(out@) =~= cmd_events(addr@, total.take(0)));
        }
        loop
            invariant
                entry.0@ == addr@,
                entry.1.pending() == total.skip(event_views(out@).len() as int),
                out@.len() <= total.len(),
                event_views(out@) == cmd_events(addr@, total.take(out@.len() as int)),
                entry.1.residue() == stream_rest(residue_of(oa, addr@) + data@),
            ensures
                entry.0@ == addr@,
                entry.1.pending() == Seq::<CmdView>::empty(),
                entry.1.residue() == stream_rest(residue_of(oa, addr@) + data@),
                event_views(out@) == cmd_events(addr@, total),
            decreases total.len() - out@.len(),
        {
            let ghost k = out@.len() as int;
            let ghost out_pre = out@;
            match entry.1.next() {
                Some(cmd) => {
                    proof {
                        assert(total.skip(k)[0] == total[k]);
                        assert(total.skip(k).drop_first() =~= total.skip(k + 1));
                        assert(cmd@ == total[k]);
                    }
                    let peer_addr = entry.0.clone();
                    proof {
                        assert(peer_addr@ == addr@);
                    }
                    out.push(Event::PeerCmd { addr: peer_addr, cmd });
                    proof {
                        assert(out@.len() == k + 1);
                        assert(out@[k]@ == (EventView::PeerCmd { addr: addr@, cmd: total[k] }));
                        assert forall|m: int|
                            0 <= m < k + 1 implies event_views(out@)[m] == cmd_events(
                            addr@,
                            total.take(k + 1),
                        )[m] by {
                            if m < k {
                                assert(out@[m] == out_pre[m]);
                                assert(event_views(out_pre)[m] == cmd_events(
                                    addr@,
                                    total.take(k),
                                )[m]);
                                assert(cmd_events(addr@, total.take(k))[m] == (
                                EventView::PeerCmd { addr: addr@, cmd: total[m] }));
                                assert(cmd_events(addr@, total.take(k + 1))[m] == (
                                EventView::PeerCmd { addr: addr@, cmd: total[m] }));
                            } else {
                                assert(event_views(out@)[m] == out@[k]@);
                                assert(cmd_events(addr@, total.take(k + 1))[m] == (
                                EventView::PeerCmd { addr: addr@, cmd: total[k] }));
                            }
                        }
                        assert(event_views(out@) =~= cmd_events(addr@, total.take(k + 1)));
                    }
                },
                None => {
                    proof {
                        assert(total.skip(k) =~= Seq::<CmdView>::empty());
                        assert(total.take(k) =~= total);
                    }
                    break ;
                },
            }
        }
        let ghost epair = entry;
        let ghost ep = entry.1;
        let ghost mid_vec = self.assemblers@;
        match found {
            Some(i) => {
                self.assemblers.insert(i, entry);
                proof {
                    let f = i as int;
                    lemma_pair_first(oa, addr@);
                    assert(mid_vec == orig_vec.remove(f));
                    assert(self.assemblers@ == mid_vec.insert(f, epair));
                    assert(self.assemblers@ =~= orig_vec.update(f, epair));
                    assert(self.assembler_table() =~= oa.update(f, (addr@, ep)));
                    lemma_lookup_after_update(oa, self.assembler_table(), addr@, f);
                }
            },
            None => {
                self.assemblers.push(entry);
                proof {
                    assert(self.assemblers@ == mid_vec.push(epair));
                    assert(self.assembler_table() =~= oa.push((addr@, ep)));
                    lemma_lookup_after_push(oa, self.assembler_table(), addr@, ep);
                }
            },
        }
        out
    }
}

/// One event as a vector.
fn make_one_event(e: Event) -> (out: Vec<Event>)
    ensures
        event_views(out@) == seq![e@],
{
    let mut out: Vec<Event> = Vec::new();
    out.push(e);
    proof {
        assert(event_views(out@) =~= seq![e@]);
    }
    out
}

/// After replacing the pair at the first index of `addr` with one that
/// still carries `addr`, lookups of `addr` see the new pair and lookups
/// of every other key see what they saw.
proof fn lemma_lookup_after_update(
    oa: Seq<(Seq<char>, PupynetProtocol)>,
    na: Seq<(Seq<char>, PupynetProtocol)>,
    addr: Seq<char>,
    f: int,
)
    requires
        pair_has(oa, addr),
        f == pair_first(oa, addr),
        na.len() == oa.len(),
        na[f].0 == addr,
        forall|i: int| 0 <= i < na.len() && i != f ==> na[i] == oa[i],
    ensures
        pair_has(na, addr),
        pair_first(na, addr) == f,
        pending_of(na, addr) == na[f].1.pending(),
        residue_of(na, addr) == na[f].1.residue(),
        forall|a: Seq<char>|
            a != addr ==> pending_of(na, a) == pending_of(oa, a) && residue_of(na, a)
                == residue_of(oa, a),
{
    lemma_pair_first(oa, addr);
    assert(na[f].0 == addr);
    assert(pair_has(na, addr));
    lemma_pair_first(na, addr);
    let fn_ = pair_first(na, addr);
    if fn_ < f {
        assert(oa[fn_] == na[fn_]);
        assert(oa[fn_].0 != addr);
    }
    if f < fn_ {
        assert(na[f].0 != addr);
    }
    assert forall|a: Seq<char>| a != addr implies pending_of(na, a) == pending_of(oa, a)
        && residue_of(na, a) == residue_of(oa, a) by {
        lemma_lookup_same_keys(oa, na, a, f);
    }
}

/// Two assembler tables of equal length that agree everywhere but at
/// one index whose key is not `a` give `a` the same lookup.
proof fn lemma_lookup_same_keys(
    oa: Seq<(Seq<char>, PupynetProtocol)>,
    na: Seq<(Seq<char>, PupynetProtocol)>,
    a: Seq<char>,
    f: int,
)
    requires
        na.len() == oa.len(),
        0 <= f < na.len(),
        na[f].0 != a,
        oa[f].0 != a,
        forall|i: int| 0 <= i < na.len() && i != f ==> na[i] == oa[i],
    ensures
        pending_of(na, a) == pending_of(oa, a),
        residue_of(na, a) == residue_of(oa, a),
{
    lemma_pair_first(oa, a);
    lemma_pair_first(na, a);
    if pair_has(oa, a) {
        let k = choose|i: int| 0 <= i < oa.len() && (#[trigger] oa[i]).0 == a;
        assert(k != f);
        assert(na[k] == oa[k]);
        assert(pair_has(na, a));
        let fo = pair_first(oa, a);
        let fnn = pair_first(na, a);
        assert(fo != f && fnn != f);
        assert(na[fo] == oa[fo]);
        assert(oa[fnn] == na[fnn]);
        if fo < fnn {
            assert(na[fo].0 == a);
            assert(na[fo].0 != a);
        }
        if fnn < fo {
            assert(oa[fnn].0 == a);
            assert(oa[fnn].0 != a);
        }
        assert(na[fnn] == oa[fo]);
    } else {
        if pair_has(na, a) {
            let k = choose|i: int| 0 <= i < na.len() && (#[trigger] na[i]).0 == a;
            assert(k != f);
            assert(oa[k] == na[k]);
            assert(pair_has(oa, a));
        }
    }
}

/// Appending a pair for a fresh key leaves every other key's lookup as
/// it was, and gives the fresh key the appended pair.
proof fn lemma_lookup_after_push(
    oa: Seq<(Seq<char>, PupynetProtocol)>,
    na: Seq<(Seq<char>, PupynetProtocol)>,
    addr: Seq<char>,
    p: PupynetProtocol,
)
    requires
        !pair_has(oa, addr),
        na == oa.push((addr, p)),
    ensures
        pair_has(na, addr),
        pair_first(na, addr) == oa.len(),
        pending_of(na, addr) == p.pending(),
        residue_of(na, addr) == p.residue(),
        forall|a: Seq<char>|
            a != addr ==> pending_of(na, a) == pending_of(oa, a) && residue_of(na, a)
                == residue_of(oa, a),
{
    lemma_pair_first(oa, addr);
    assert(na[oa.len() as int].0 == addr);
    assert(pair_has(na, addr));
    lemma_pair_first(na, addr);
    let fnn = pair_first(na, addr);
    if fnn < oa.len() {
        assert(na[fnn] == oa[fnn]);
        assert(oa[fnn].0 != addr);
    }
    assert forall|a: Seq<char>| a != addr implies pending_of(na, a) == pending_of(oa, a)
        && residue_of(na, a) == residue_of(oa, a) by {
        lemma_pair_first(oa, a);
        lemma_pair_first(na, a);
        if pair_has(oa, a) {
            let k = choose|i: int| 0 <= i < oa.len() && (#[trigger] oa[i]).0 == a;
            assert(na[k] == oa[k]);
            assert(pair_has(na, a));
            let fo = pair_first(oa, a);
            let fn2 = pair_first(na, a);
            assert(na[fo] == oa[fo]);
            if fo < fn2 {
                assert(na[fo].0 == a);
                assert(na[fo].0 != a);
            }
            if fn2 < fo {
                assert(fn2 < oa.len());
                assert(oa[fn2] == na[fn2]);
                assert(oa[fn2].0 == a);
                assert(oa[fn2].0 != a);
            }
        } else {
            if pair_has(na, a) {
                let k = choose|i: int| 0 <= i < na.len() && (#[trigger] na[i]).0 == a;
                if k < oa.len() {
                    assert(oa[k] == na[k]);
                    assert(pair_has(oa, a));
                } else {
                    assert(na[k].0 == addr);
                }
            }
        }
    }
}

} // verus!
