//! Wire codec and frame assembler for the peer command protocol.
//!
//! A frame is `u16 command_tag` (little endian), `u32 payload_length`
//! (little endian), then `payload_length` bytes of payload.  The
//! `Introduce` payload is three length-prefixed UTF-8 strings (`u16
//! length` + bytes) in the fixed order id, name, owner.
use std::collections::VecDeque;

use vstd::prelude::*;
use vstd::bytes::lemma_auto_spec_u16_to_from_le_bytes;
use vstd::bytes::lemma_auto_spec_u32_to_from_le_bytes;
use vstd::bytes::spec_u16_from_le_bytes;
use vstd::bytes::spec_u16_to_le_bytes;
use vstd::bytes::spec_u32_from_le_bytes;
use vstd::bytes::spec_u32_to_le_bytes;
use vstd::bytes::u16_from_le_bytes;
use vstd::bytes::u16_to_le_bytes;
use vstd::bytes::u32_from_le_bytes;
use vstd::bytes::u32_to_le_bytes;
use vstd::slice::slice_subrange;
use vstd::slice::slice_to_vec;
use vstd::string::StrSliceExecFns;
use vstd::string::StringSliceAdditionalSpecFns;
use vstd::utf8::decode_utf8;
use vstd::utf8::encode_utf8;
use vstd::utf8::encode_utf8_decode_utf8;
use vstd::utf8::encode_utf8_valid_utf8;
use vstd::utf8::valid_utf8;

verus! {

pub const INTRODUCE_CMD: u16 = 1;

pub const WRITE_FILE_CMD: u16 = 2;

pub const READ_FILE_CMD: u16 = 3;

pub const REMOVE_FILE_CMD: u16 = 4;

pub const CREATE_FOLDER_CMD: u16 = 5;

pub const RENAME_FOLDER_CMD: u16 = 6;

pub const LIST_FOLDER_CONTENTS_CMD: u16 = 7;

/// The identity-exchange command: who this node is.
#[derive(Debug)]
pub struct Introduce {
    pub id: String,
    pub name: String,
    pub owner: String,
}

/// Mathematical image of an `Introduce`: its three fields as character
/// sequences.
pub ghost struct IntroView {
    pub id: Seq<char>,
    pub name: Seq<char>,
    pub owner: Seq<char>,
}

impl View for Introduce {
    type V = IntroView;

    open spec fn view(&self) -> IntroView {
        IntroView { id: self.id@, name: self.name@, owner: self.owner@ }
    }
}

/// One wire command.  Only `Introduce` has a defined encoding; the
/// file-operation variants are part of the data model but their codec is
/// deliberately left open.
#[derive(Debug)]
pub enum PeerCmd {
    ReadFile { node_id: String, path: String, offset: u64, length: u64 },
    WriteFile { node_id: String, path: String, offset: u64, data: Vec<u8> },
    RemoveFile { node_id: String, path: String },
    CreateFolder { node_id: String, path: String },
    RenameFolder { node_id: String, path: String, new_name: String },
    RemoveFolder { node_id: String, path: String },
    ListFolderContents {
        node_id: String,
        path: String,
        offset: u64,
        length: u64,
        recursive: bool,
    },
    Introduce(Introduce),
    Hello,
}

/// Mathematical image of a `PeerCmd`.
pub ghost enum CmdView {
    ReadFile { node_id: Seq<char>, path: Seq<char>, offset: u64, length: u64 },
    WriteFile { node_id: Seq<char>, path: Seq<char>, offset: u64, data: Seq<u8> },
    RemoveFile { node_id: Seq<char>, path: Seq<char> },
    CreateFolder { node_id: Seq<char>, path: Seq<char> },
    RenameFolder { node_id: Seq<char>, path: Seq<char>, new_name: Seq<char> },
    RemoveFolder { node_id: Seq<char>, path: Seq<char> },
    ListFolderContents {
        node_id: Seq<char>,
        path: Seq<char>,
        offset: u64,
        length: u64,
        recursive: bool,
    },
    Introduce(IntroView),
    Hello,
}

impl View for PeerCmd {
    type V = CmdView;

    open spec fn view(&self) -> CmdView {
        match self {
            PeerCmd::ReadFile { node_id, path, offset, length } => CmdView::ReadFile {
                node_id: node_id@,
                path: path@,
                offset: *offset,
                length: *length,
            },
            PeerCmd::WriteFile { node_id, path, offset, data } => CmdView::WriteFile {
                node_id: node_id@,
                path: path@,
                offset: *offset,
                data: data@,
            },
            PeerCmd::RemoveFile { node_id, path } => CmdView::RemoveFile {
                node_id: node_id@,
                path: path@,
            },
            PeerCmd::CreateFolder { node_id, path } => CmdView::CreateFolder {
                node_id: node_id@,
                path: path@,
            },
            PeerCmd::RenameFolder { node_id, path, new_name } => CmdView::RenameFolder {
                node_id: node_id@,
                path: path@,
                new_name: new_name@,
            },
            PeerCmd::RemoveFolder { node_id, path } => CmdView::RemoveFolder {
                node_id: node_id@,
                path: path@,
            },
            PeerCmd::ListFolderContents { node_id, path, offset, length, recursive } => {
                CmdView::ListFolderContents {
                    node_id: node_id@,
                    path: path@,
                    offset: *offset,
                    length: *length,
                    recursive: *recursive,
                }
            },
            PeerCmd::Introduce(intro) => CmdView::Introduce(intro@),
            PeerCmd::Hello => CmdView::Hello,
        }
    }
}

/// A string segment on the wire: its UTF-8 byte length as `u16` little
/// endian, then the bytes themselves.
pub open spec fn spec_segment(b: Seq<u8>) -> Seq<u8> {
    spec_u16_to_le_bytes(b.len() as u16) + b
}

/// The `Introduce` payload: three segments in the order id, name, owner.
pub open spec fn spec_introduce_payload(v: IntroView) -> Seq<u8> {
    spec_segment(encode_utf8(v.id)) + spec_segment(encode_utf8(v.name)) + spec_segment(
        encode_utf8(v.owner),
    )
}

/// Each string of an `Introduce` must fit its `u16` length prefix.
pub open spec fn introduce_wire_ok(v: IntroView) -> bool {
    &&& encode_utf8(v.id).len() <= 0xFFFF
    &&& encode_utf8(v.name).len() <= 0xFFFF
    &&& encode_utf8(v.owner).len() <= 0xFFFF
}

impl CmdView {
    /// Whether the command has a defined wire encoding that fits the
    /// format's length limits.
    pub open spec fn wire_encodable(self) -> bool {
        match self {
            CmdView::Introduce(v) => introduce_wire_ok(v),
            _ => false,
        }
    }

    /// The encoded frame: tag, payload length, payload.
    pub open spec fn spec_serialize(self) -> Seq<u8>
        recommends
            self.wire_encodable(),
    {
        match self {
            CmdView::Introduce(v) => {
                let payload = spec_introduce_payload(v);
                spec_u16_to_le_bytes(INTRODUCE_CMD) + spec_u32_to_le_bytes(payload.len() as u32)
                    + payload
            },
            _ => Seq::empty(),
        }
    }
}

/// Appends the segment encoding of `b` (length prefix then bytes) to `out`.
fn push_segment(out: &mut Vec<u8>, b: &[u8])
    requires
        b@.len() <= 0xFFFF,
    ensures
        final(out)@ == old(out)@ + spec_segment(b@),
{
    proof {
        lemma_auto_spec_u16_to_from_le_bytes();
    }
    let mut prefix = u16_to_le_bytes(b.len() as u16);
    out.append(&mut prefix);
    let mut bytes = vstd::slice::slice_to_vec(b);
    out.append(&mut bytes);
    assert(out@ =~= old(out)@ + spec_segment(b@));
}

impl PeerCmd {
    /// Encodes the command as one wire frame.  Only `Introduce` has a
    /// defined encoding, and each of its strings must fit the `u16`
    /// length prefix.
    pub fn serialize(&self) -> (r: Vec<u8>)
        requires
            self@.wire_encodable(),
        ensures
            r@ == self@.spec_serialize(),
    {
        match self {
            PeerCmd::Introduce(intro) => {
                proof {
                    lemma_auto_spec_u16_to_from_le_bytes();
                    lemma_auto_spec_u32_to_from_le_bytes();
                }
                let id_bytes = intro.id.as_str().as_bytes();
                let name_bytes = intro.name.as_str().as_bytes();
                let owner_bytes = intro.owner.as_str().as_bytes();
                let payload_size: usize = 2 + id_bytes.len() + 2 + name_bytes.len() + 2
                    + owner_bytes.len();
                let mut res: Vec<u8> = Vec::new();
                let mut tag = u16_to_le_bytes(INTRODUCE_CMD);
                res.append(&mut tag);
                let mut len = u32_to_le_bytes(payload_size as u32);
                res.append(&mut len);
                push_segment(&mut res, id_bytes);
                push_segment(&mut res, name_bytes);
                push_segment(&mut res, owner_bytes);
                proof {
                    assert(spec_introduce_payload(intro@).len() == payload_size);
                    assert(res@ =~= self@.spec_serialize());
                }
                res
            },
            _ => {
                proof {
                    assert(false);
                }
                Vec::new()
            },
        }
    }

    /// Encodes the command if it has a defined wire encoding that fits
    /// the length limits; returns `None` otherwise (never panics).
    pub fn try_serialize(&self) -> (r: Option<Vec<u8>>)
        ensures
            r is Some <==> self@.wire_encodable(),
            r is Some ==> r.unwrap()@ == self@.spec_serialize(),
    {
        match self {
            PeerCmd::Introduce(intro) => {
                if intro.id.as_str().as_bytes().len() <= 0xFFFF
                    && intro.name.as_str().as_bytes().len() <= 0xFFFF
                    && intro.owner.as_str().as_bytes().len() <= 0xFFFF {
                    Some(self.serialize())
                } else {
                    None
                }
            },
            _ => None,
        }
    }
}

/// Splits one length-prefixed segment off the front of `b`: the segment
/// bytes and the remainder, or `None` if the declared length would
/// overrun `b`.
pub open spec fn spec_take_segment(b: Seq<u8>) -> Option<(Seq<u8>, Seq<u8>)> {
    if b.len() < 2 {
        None
    } else {
        let len = spec_u16_from_le_bytes(b.subrange(0, 2)) as int;
        if b.len() < 2 + len {
            None
        } else {
            Some((b.subrange(2, 2 + len), b.subrange(2 + len, b.len() as int)))
        }
    }
}

/// Decodes an `Introduce` payload: three length-prefixed UTF-8 strings
/// that fill the payload exactly.  Overrunning lengths, trailing bytes
/// and invalid UTF-8 are framing errors.
pub open spec fn spec_decode_introduce(payload: Seq<u8>) -> Option<IntroView> {
    match spec_take_segment(payload) {
        None => None,
        Some((id_b, r1)) => match spec_take_segment(r1) {
            None => None,
            Some((name_b, r2)) => match spec_take_segment(r2) {
                None => None,
                Some((owner_b, r3)) => {
                    if r3.len() == 0 && valid_utf8(id_b) && valid_utf8(name_b) && valid_utf8(
                        owner_b,
                    ) {
                        Some(
                            IntroView {
                                id: decode_utf8(id_b),
                                name: decode_utf8(name_b),
                                owner: decode_utf8(owner_b),
                            },
                        )
                    } else {
                        None
                    }
                },
            },
        },
    }
}

/// The payload length a stream's first frame declares.
pub open spec fn frame_payload_len(s: Seq<u8>) -> int
    recommends
        s.len() >= 6,
{
    spec_u32_from_le_bytes(s.subrange(2, 6)) as int
}

/// Whether the stream starts with one complete frame.
pub open spec fn has_complete_frame(s: Seq<u8>) -> bool {
    s.len() >= 6 && s.len() >= 6 + frame_payload_len(s)
}

/// The commands one frame yields: one decoded `Introduce`, or nothing for
/// an unknown tag or a malformed payload (dropped, never a crash).
pub open spec fn frame_cmds(tag: u16, payload: Seq<u8>) -> Seq<CmdView> {
    if tag == INTRODUCE_CMD {
        match spec_decode_introduce(payload) {
            Some(v) => seq![CmdView::Introduce(v)],
            None => Seq::empty(),
        }
    } else {
        Seq::empty()
    }
}

/// All commands the complete frames at the front of `s` yield, in order.
pub open spec fn stream_cmds(s: Seq<u8>) -> Seq<CmdView>
    decreases s.len(),
{
    if !has_complete_frame(s) {
        Seq::empty()
    } else {
        let plen = frame_payload_len(s);
        frame_cmds(spec_u16_from_le_bytes(s.subrange(0, 2)), s.subrange(6, 6 + plen))
            + stream_cmds(s.subrange(6 + plen, s.len() as int))
    }
}

/// What remains of `s` after all complete frames are consumed.
pub open spec fn stream_rest(s: Seq<u8>) -> Seq<u8>
    decreases s.len(),
{
    if !has_complete_frame(s) {
        s
    } else {
        stream_rest(s.subrange(6 + frame_payload_len(s), s.len() as int))
    }
}

/// Relies on String::from_utf8: `Ok` exactly on valid UTF-8 input, and
/// the returned string decodes those bytes.
#[verifier::external_body]
fn bytes_to_string(v: Vec<u8>) -> (r: Option<String>)
    ensures
        r is Some <==> valid_utf8(v@),
        r is Some ==> r.unwrap()@ == decode_utf8(v@),
{
    String::from_utf8(v).ok()
}

/// A cursor over a byte slice that takes little-endian integers and
/// length-prefixed strings off the front.
pub struct ByteEater<'a> {
    buffer: &'a [u8],
}

impl<'a> ByteEater<'a> {
    /// The bytes not yet consumed.
    pub closed spec fn remaining(&self) -> Seq<u8> {
        self.buffer@
    }

    pub fn new(buffer: &'a [u8]) -> (r: Self)
        ensures
            r.remaining() == buffer@,
    {
        Self { buffer }
    }

    /// How many bytes are left.
    pub fn remaining_len(&self) -> (n: usize)
        ensures
            n == self.remaining().len(),
    {
        self.buffer.len()
    }

    /// Reads the leading `u16` (little endian) without consuming it, or
    /// `None` if fewer than two bytes remain.  Consumption happens only
    /// in `get_string`, which reads its own length prefix.
    pub fn get_u16(&mut self) -> (r: Option<u16>)
        ensures
            final(self).remaining() == old(self).remaining(),
            old(self).remaining().len() >= 2 ==> r == Some(
                spec_u16_from_le_bytes(old(self).remaining().subrange(0, 2)),
            ),
            old(self).remaining().len() < 2 ==> r is None,
    {
        if self.buffer.len() < 2 {
            return None;
        }
        Some(u16_from_le_bytes(slice_subrange(self.buffer, 0, 2)))
    }

    /// Takes one length-prefixed UTF-8 string off the front.  On any
    /// framing error (short prefix, overrunning length, invalid UTF-8)
    /// it returns `None` and consumes nothing.
    pub fn get_string(&mut self) -> (r: Option<String>)
        ensures
            r is Some <==> spec_take_segment(old(self).remaining()) is Some && valid_utf8(
                spec_take_segment(old(self).remaining()).unwrap().0,
            ),
            r is Some ==> r.unwrap()@ == decode_utf8(
                spec_take_segment(old(self).remaining()).unwrap().0,
            ) && final(self).remaining() == spec_take_segment(old(self).remaining()).unwrap().1,
            r is None ==> final(self).remaining() == old(self).remaining(),
    {
        if self.buffer.len() < 2 {
            return None;
        }
        let len = u16_from_le_bytes(slice_subrange(self.buffer, 0, 2)) as usize;
        if self.buffer.len() < 2 + len {
            return None;
        }
        let seg = slice_subrange(self.buffer, 2, 2 + len);
        match bytes_to_string(slice_to_vec(seg)) {
            Some(s) => {
                self.buffer = slice_subrange(self.buffer, 2 + len, self.buffer.len());
                Some(s)
            },
            None => None,
        }
    }
}

/// Decodes an `Introduce` payload, consuming it exactly; any framing
/// error yields `None`.
fn decode_introduce(payload: &[u8]) -> (r: Option<Introduce>)
    ensures
        r is Some <==> spec_decode_introduce(payload@) is Some,
        r is Some ==> r.unwrap()@ == spec_decode_introduce(payload@).unwrap(),
{
    let mut eater = ByteEater::new(payload);
    let id = match eater.get_string() {
        Some(s) => s,
        None => {
            return None;
        },
    };
    let name = match eater.get_string() {
        Some(s) => s,
        None => {
            return None;
        },
    };
    let owner = match eater.get_string() {
        Some(s) => s,
        None => {
            return None;
        },
    };
    if eater.remaining_len() != 0 {
        return None;
    }
    Some(Introduce { id, name, owner })
}

/// Per-connection frame assembler: buffers bytes from any chunking and
/// yields the commands of every complete frame, in order.
pub struct PupynetProtocol {
    buffer: Vec<u8>,
    cmds: VecDeque<PeerCmd>,
}

impl PupynetProtocol {
    /// The decoded commands waiting to be drained, oldest first.
    pub closed spec fn pending(&self) -> Seq<CmdView> {
        self.cmds@.map_values(|c: PeerCmd| c@)
    }

    /// The buffered bytes of a not yet complete frame.
    pub closed spec fn residue(&self) -> Seq<u8> {
        self.buffer@
    }

    pub fn new() -> (r: Self)
        ensures
            r.pending() == Seq::<CmdView>::empty(),
            r.residue() == Seq::<u8>::empty(),
    {
        let r = Self { buffer: Vec::new(), cmds: VecDeque::new() };
        proof {
            assert(r.pending() =~= Seq::<CmdView>::empty());
        }
        r
    }

    /// Feeds one chunk of received bytes: every frame completed by the
    /// chunk is decoded and queued, the rest stays buffered.
    pub fn parse(&mut self, data: &[u8])
        ensures
            final(self).pending() == old(self).pending() + stream_cmds(
                old(self).residue() + data@,
            ),
            final(self).residue() == stream_rest(old(self).residue() + data@),
    {
        self.buffer.extend_from_slice(data);
        let ghost initial_pending = self.pending();
        let ghost total = self.buffer@;
        loop
            invariant
                initial_pending + stream_cmds(total) =~= self.pending() + stream_cmds(
                    self.buffer@,
                ),
                stream_rest(total) == stream_rest(self.buffer@),
            ensures
                !has_complete_frame(self.buffer@),
            decreases self.buffer@.len(),
        {
            if self.buffer.len() < 6 {
                break;
            }
            let tag = u16_from_le_bytes(slice_subrange(self.buffer.as_slice(), 0, 2));
            let plen = u32_from_le_bytes(slice_subrange(self.buffer.as_slice(), 2, 6)) as usize;
            if (self.buffer.len() as u64) < 6u64 + (plen as u64) {
                break;
            }
            assert(has_complete_frame(self.buffer@));
            let ghost before = self.buffer@;
            let ghost pending_before = self.pending();
            let payload = slice_subrange(self.buffer.as_slice(), 6, 6 + plen);
            if tag == INTRODUCE_CMD {
                match decode_introduce(payload) {
                    Some(intro) => {
                        let cmd = PeerCmd::Introduce(intro);
                        proof {
                            assert(frame_cmds(tag, payload@) =~= seq![cmd@]);
                        }
                        self.cmds.push_back(cmd);
                        proof {
                            assert(self.pending() =~= pending_before + frame_cmds(tag, payload@));
                        }
                    },
                    None => {
                        proof {
                            assert(self.pending() =~= pending_before + frame_cmds(tag, payload@));
                        }
                    },
                }
            } else {
                proof {
                    assert(self.pending() =~= pending_before + frame_cmds(tag, payload@));
                }
            }
            let rest = slice_to_vec(
                slice_subrange(self.buffer.as_slice(), 6 + plen, self.buffer.len()),
            );
            self.buffer = rest;
            proof {
                assert(stream_cmds(before) =~= frame_cmds(tag, before.subrange(6, 6 + plen as int))
                    + stream_cmds(self.buffer@));
                assert(initial_pending + stream_cmds(total) =~= self.pending() + stream_cmds(
                    self.buffer@,
                ));
            }
        }
        proof {
            assert(total == old(self).residue() + data@);
            assert(stream_cmds(self.buffer@) =~= Seq::<CmdView>::empty());
            assert(self.pending() =~= self.pending() + stream_cmds(self.buffer@));
            assert(self.pending() =~= initial_pending + stream_cmds(total));
            assert(stream_rest(self.buffer@) == self.buffer@);
        }
    }

    /// Law: however received bytes are chunked, feeding them yields the
    /// same commands.  Feeding `s1` then `s2` (the residue of `s1`
    /// prepended to `s2`, as `parse` does) yields exactly what feeding
    /// `s1 + s2` in one call yields, with the same residue; iterating
    /// this covers any chunking, down to one byte at a time.
    pub proof fn lemma_chunking_irrelevant(s1: Seq<u8>, s2: Seq<u8>)
        ensures
            stream_cmds(s1 + s2) == stream_cmds(s1) + stream_cmds(stream_rest(s1) + s2),
            stream_rest(s1 + s2) == stream_rest(stream_rest(s1) + s2),
        decreases s1.len(),
    {
        if !has_complete_frame(s1) {
            assert(stream_cmds(s1) =~= Seq::<CmdView>::empty());
            assert(stream_rest(s1) == s1);
            assert(stream_cmds(s1 + s2) =~= stream_cmds(s1) + stream_cmds(stream_rest(s1) + s2));
        } else {
            let plen = frame_payload_len(s1);
            let s = s1 + s2;
            assert(s.subrange(0, 2) =~= s1.subrange(0, 2));
            assert(s.subrange(2, 6) =~= s1.subrange(2, 6));
            assert(has_complete_frame(s));
            assert(s.subrange(6, 6 + plen) =~= s1.subrange(6, 6 + plen));
            let tail1 = s1.subrange(6 + plen, s1.len() as int);
            assert(s.subrange(6 + plen, s.len() as int) =~= tail1 + s2);
            Self::lemma_chunking_irrelevant(tail1, s2);
            assert(stream_rest(s1) == stream_rest(tail1));
            assert(stream_cmds(s1 + s2) =~= stream_cmds(s1) + stream_cmds(stream_rest(s1) + s2));
        }
    }

    /// Drains the oldest decoded command, if any.
    pub fn next(&mut self) -> (r: Option<PeerCmd>)
        ensures
            old(self).pending().len() == 0 ==> r is None && final(self).pending() == old(
                self,
            ).pending(),
            old(self).pending().len() > 0 ==> r is Some && r.unwrap()@ == old(self).pending()[0]
                && final(self).pending() == old(self).pending().drop_first(),
            final(self).residue() == old(self).residue(),
    {
        let r = self.cmds.pop_front();
        proof {
            if old(self).cmds@.len() > 0 {
                assert(self.pending() =~= old(self).pending().drop_first());
            }
        }
        r
    }
}

/// The concatenation of a sequence of received chunks.
pub open spec fn concat_all(chunks: Seq<Seq<u8>>) -> Seq<u8>
    decreases chunks.len(),
{
    if chunks.len() == 0 {
        Seq::empty()
    } else {
        concat_all(chunks.drop_last()) + chunks.last()
    }
}

/// What a fresh assembler holds after the chunks are fed one `parse`
/// call at a time, per `parse`'s contract: all commands yielded so far,
/// and the buffered residue.
pub open spec fn feed_all(chunks: Seq<Seq<u8>>) -> (Seq<CmdView>, Seq<u8>)
    decreases chunks.len(),
{
    if chunks.len() == 0 {
        (Seq::empty(), Seq::empty())
    } else {
        let (cmds, rest) = feed_all(chunks.drop_last());
        (cmds + stream_cmds(rest + chunks.last()), stream_rest(rest + chunks.last()))
    }
}

/// Feeding chunks one at a time equals feeding their concatenation at
/// once.
pub proof fn lemma_feed_all(chunks: Seq<Seq<u8>>)
    ensures
        feed_all(chunks).0 == stream_cmds(concat_all(chunks)),
        feed_all(chunks).1 == stream_rest(concat_all(chunks)),
    decreases chunks.len(),
{
    if chunks.len() == 0 {
        assert(!has_complete_frame(Seq::<u8>::empty()));
        assert(stream_cmds(concat_all(chunks)) =~= feed_all(chunks).0);
    } else {
        lemma_feed_all(chunks.drop_last());
        let prefix = concat_all(chunks.drop_last());
        PupynetProtocol::lemma_chunking_irrelevant(prefix, chunks.last());
        assert(feed_all(chunks).0 =~= stream_cmds(concat_all(chunks)));
    }
}

/// Law: for any sequence of `parse` calls whose chunks concatenate to a
/// valid encoded command stream, the assembler yields exactly the
/// original command sequence, however the bytes were chunked, with
/// nothing left buffered.
pub proof fn lemma_any_chunking_of_encoded(chunks: Seq<Seq<u8>>, cmds: Seq<CmdView>)
    requires
        concat_all(chunks) == spec_serialize_all(cmds),
        forall|i: int| 0 <= i < cmds.len() ==> (#[trigger] cmds[i]).wire_encodable(),
    ensures
        feed_all(chunks).0 == cmds,
        feed_all(chunks).1 == Seq::<u8>::empty(),
{
    lemma_feed_all(chunks);
    lemma_stream_of_encoded(cmds);
}

/// A segment followed by anything splits back into exactly that segment's
/// bytes and the rest.
proof fn lemma_take_segment_of_segment(b: Seq<u8>, rest: Seq<u8>)
    requires
        b.len() <= 0xFFFF,
    ensures
        spec_take_segment(spec_segment(b) + rest) == Some((b, rest)),
{
    lemma_auto_spec_u16_to_from_le_bytes();
    let s = spec_segment(b) + rest;
    assert(s.subrange(0, 2) =~= spec_u16_to_le_bytes(b.len() as u16));
    assert(spec_u16_from_le_bytes(s.subrange(0, 2)) == b.len());
    assert(s.subrange(2, 2 + b.len() as int) =~= b);
    assert(s.subrange(2 + b.len() as int, s.len() as int) =~= rest);
    assert(spec_take_segment(s) == Some((b, rest)));
}

/// Law: decoding an encoded `Introduce` payload returns the identical
/// id, name and owner, for any strings within the `u16` length limit.
pub proof fn lemma_introduce_round_trip(v: IntroView)
    requires
        introduce_wire_ok(v),
    ensures
        spec_decode_introduce(spec_introduce_payload(v)) == Some(v),
{
    let idb = encode_utf8(v.id);
    let nameb = encode_utf8(v.name);
    let ownerb = encode_utf8(v.owner);
    let payload = spec_introduce_payload(v);
    let tail1 = spec_segment(nameb) + (spec_segment(ownerb) + Seq::<u8>::empty());
    let tail2 = spec_segment(ownerb) + Seq::<u8>::empty();
    assert(payload =~= spec_segment(idb) + tail1);
    lemma_take_segment_of_segment(idb, tail1);
    lemma_take_segment_of_segment(nameb, tail2);
    lemma_take_segment_of_segment(ownerb, Seq::<u8>::empty());
    encode_utf8_valid_utf8(v.id);
    encode_utf8_valid_utf8(v.name);
    encode_utf8_valid_utf8(v.owner);
    encode_utf8_decode_utf8(v.id);
    encode_utf8_decode_utf8(v.name);
    encode_utf8_decode_utf8(v.owner);
}

/// The concatenated encoding of a command sequence.
pub open spec fn spec_serialize_all(cmds: Seq<CmdView>) -> Seq<u8>
    decreases cmds.len(),
{
    if cmds.len() == 0 {
        Seq::empty()
    } else {
        cmds[0].spec_serialize() + spec_serialize_all(cmds.drop_first())
    }
}

/// Law: a stream that is exactly the concatenation of encoded commands
/// decodes to exactly those commands, in order, with nothing left over.
/// Together with `lemma_chunking_irrelevant` and the contract of
/// `parse`, any chunking of a valid encoded command stream makes the
/// assembler yield the original command sequence.
pub proof fn lemma_stream_of_encoded(cmds: Seq<CmdView>)
    requires
        forall|i: int| 0 <= i < cmds.len() ==> (#[trigger] cmds[i]).wire_encodable(),
    ensures
        stream_cmds(spec_serialize_all(cmds)) == cmds,
        stream_rest(spec_serialize_all(cmds)) == Seq::<u8>::empty(),
    decreases cmds.len(),
{
    lemma_auto_spec_u16_to_from_le_bytes();
    lemma_auto_spec_u32_to_from_le_bytes();
    if cmds.len() == 0 {
        assert(stream_cmds(spec_serialize_all(cmds)) =~= cmds);
    } else {
        let first = cmds[0];
        let v = first->Introduce_0;
        let payload = spec_introduce_payload(v);
        assert(payload.len() <= 3 * (2 + 0xFFFF));
        let s = spec_serialize_all(cmds);
        let tail = spec_serialize_all(cmds.drop_first());
        let frame = first.spec_serialize();
        assert(s == frame + tail);
        assert(frame =~= spec_u16_to_le_bytes(INTRODUCE_CMD) + spec_u32_to_le_bytes(
            payload.len() as u32,
        ) + payload);
        assert(s.subrange(0, 2) =~= spec_u16_to_le_bytes(INTRODUCE_CMD));
        assert(s.subrange(2, 6) =~= spec_u32_to_le_bytes(payload.len() as u32));
        assert(frame_payload_len(s) == payload.len());
        assert(has_complete_frame(s));
        assert(s.subrange(6, 6 + payload.len() as int) =~= payload);
        assert(s.subrange(6 + payload.len() as int, s.len() as int) =~= tail);
        lemma_introduce_round_trip(v);
        assert(frame_cmds(INTRODUCE_CMD, payload) =~= seq![first]);
        lemma_stream_of_encoded(cmds.drop_first());
        assert(stream_cmds(s) =~= cmds);
    }
}

} // verus!
