//! The wire protocol: a closed set of tagged messages and their byte format.
//!
//! Every message starts with a one-byte kind tag. Multi-byte integers are
//! big-endian. A string field is an 8-byte big-endian byte length followed by
//! that many raw UTF-8 bytes. Floating-point fields travel as the big-endian
//! image of their IEEE-754 bit pattern; this library carries them as those
//! bit patterns (`u64` for 64-bit, `u32` for 32-bit values), and the
//! embedding application converts at the edge.
//!
//! [`spec_encode`] and [`parse_packet`] are the mathematical byte format;
//! [`Packet::encode`] and [`Packet::decode`] are proved against them, and
//! [`lemma_parse_encode`] shows that parsing inverts encoding.

use vstd::prelude::*;
use vstd::slice::{slice_subrange, slice_to_vec};
use vstd::string::StrSliceExecFns;
use vstd::utf8::{decode_utf8, encode_utf8, valid_utf8};

use crate::wire::{
    be32, be32_value, be64, be64_value, lemma_be32_value_of_be32, lemma_be64_value_of_be64,
    push_u32_be, push_u64_be, read_u32_be, read_u64_be,
};
use crate::world::chunk::{BlockGroup, BlockGroupV};

verus! {

/// Structure used in the OnlinePlayers packet to store information about
/// players. The coordinates are IEEE-754 32-bit bit patterns.
#[derive(Debug, Clone, PartialEq)]
pub struct OnlinePlayer {
    pub name: String,
    pub x: u32,
    pub y: u32,
    pub z: u32,
}

/// The mathematical image of an [`OnlinePlayer`].
#[verifier::ext_equal]
pub struct OnlinePlayerV {
    pub name: Seq<char>,
    pub x: u32,
    pub y: u32,
    pub z: u32,
}

impl View for OnlinePlayer {
    type V = OnlinePlayerV;

    open spec fn view(&self) -> OnlinePlayerV {
        OnlinePlayerV { name: self.name@, x: self.x, y: self.y, z: self.z }
    }
}

/// A message exchanged between client and server. Fields that carry
/// floating-point values on the wire hold their IEEE-754 bit patterns here.
#[derive(Debug, Clone, PartialEq)]
pub enum Packet {
    /// Connection packet. This is sent by the client to the server when a
    /// connection is established.
    Connection { user: String },
    /// Player movement. This is sent by the client to the server when the
    /// position needs to be changed.
    Movement { delta_x: u64, delta_y: u64, delta_z: u64 },
    /// Position request. This is sent by the client to the server when it
    /// wants to know the new position.
    PositionRequest { name: String },
    /// Player position. This is sent by the server to the client when
    /// requested.
    PlayerPosition { x: u64, y: u64, z: u64, name: String },
    /// Online player list. Sent by the server to the client when a new
    /// client connects.
    OnlinePlayers { players: Vec<OnlinePlayer> },
    /// Unload chunk. Sent by the server to the client when a chunk is
    /// unloaded.
    UnloadChunk { x: i64, y: i64 },
    /// Chunk. Sent by the server to the client when a new chunk is loaded.
    Chunk { x: i64, y: i64, groups: Vec<BlockGroup> },
}

/// The mathematical image of a [`Packet`].
#[verifier::ext_equal]
pub enum PacketV {
    Connection { user: Seq<char> },
    Movement { delta_x: u64, delta_y: u64, delta_z: u64 },
    PositionRequest { name: Seq<char> },
    PlayerPosition { x: u64, y: u64, z: u64, name: Seq<char> },
    OnlinePlayers { players: Seq<OnlinePlayerV> },
    UnloadChunk { x: i64, y: i64 },
    Chunk { x: i64, y: i64, groups: Seq<BlockGroupV> },
}

impl View for Packet {
    type V = PacketV;

    open spec fn view(&self) -> PacketV {
        match self {
            Packet::Connection { user } => PacketV::Connection { user: user@ },
            Packet::Movement { delta_x, delta_y, delta_z } => PacketV::Movement {
                delta_x: *delta_x,
                delta_y: *delta_y,
                delta_z: *delta_z,
            },
            Packet::PositionRequest { name } => PacketV::PositionRequest { name: name@ },
            Packet::PlayerPosition { x, y, z, name } => PacketV::PlayerPosition {
                x: *x,
                y: *y,
                z: *z,
                name: name@,
            },
            Packet::OnlinePlayers { players } => PacketV::OnlinePlayers {
                players: players@.map_values(|p: OnlinePlayer| p@),
            },
            Packet::UnloadChunk { x, y } => PacketV::UnloadChunk { x: *x, y: *y },
            Packet::Chunk { x, y, groups } => PacketV::Chunk {
                x: *x,
                y: *y,
                groups: groups@.map_values(|g: BlockGroup| g@),
            },
        }
    }
}

/// Why a byte buffer failed to decode.
#[derive(Debug, Clone, Copy, PartialEq, Eq, Structural)]
pub enum DecodeError {
    /// The kind tag is not one of the known message kinds.
    InvalidPacket,
    /// A field runs past the end of the buffer.
    UnexpectedEnd,
}

/// The wire image of a string field: 8-byte big-endian byte length, then the
/// UTF-8 bytes.
pub open spec fn str_bytes(s: Seq<char>) -> Seq<u8> {
    be64(encode_utf8(s).len() as u64) + encode_utf8(s)
}

/// The wire image of one entry of the online player list.
pub open spec fn player_bytes(p: OnlinePlayerV) -> Seq<u8> {
    str_bytes(p.name) + be32(p.x) + be32(p.y) + be32(p.z)
}

/// The wire image of the online player list, in order.
pub open spec fn players_bytes(ps: Seq<OnlinePlayerV>) -> Seq<u8>
    decreases ps.len(),
{
    if ps.len() == 0 {
        Seq::empty()
    } else {
        player_bytes(ps[0]) + players_bytes(ps.drop_first())
    }
}

/// The wire image of one compressed block group.
pub open spec fn group_bytes(g: BlockGroupV) -> Seq<u8> {
    str_bytes(g.id) + be32(g.count)
}

/// The wire image of a compressed group list, in order.
pub open spec fn groups_bytes(gs: Seq<BlockGroupV>) -> Seq<u8>
    decreases gs.len(),
{
    if gs.len() == 0 {
        Seq::empty()
    } else {
        group_bytes(gs[0]) + groups_bytes(gs.drop_first())
    }
}

/// The byte image of a whole packet: the kind tag, then its fields.
pub open spec fn spec_encode(p: PacketV) -> Seq<u8> {
    match p {
        PacketV::Connection { user } => seq![0u8] + str_bytes(user),
        PacketV::Movement { delta_x, delta_y, delta_z } => seq![1u8] + be64(delta_x) + be64(
            delta_y,
        ) + be64(delta_z),
        PacketV::PositionRequest { name } => seq![2u8] + str_bytes(name),
        PacketV::PlayerPosition { x, y, z, name } => seq![3u8] + be64(x) + be64(y) + be64(z)
            + str_bytes(name),
        PacketV::OnlinePlayers { players } => seq![4u8] + be64(players.len() as u64)
            + players_bytes(players),
        PacketV::UnloadChunk { x, y } => seq![5u8] + be64(x as u64) + be64(y as u64),
        PacketV::Chunk { x, y, groups } => seq![6u8] + be64(x as u64) + be64(y as u64) + be64(
            groups.len() as u64,
        ) + groups_bytes(groups),
    }
}

/// A string whose byte length fits the 8-byte length field.
pub open spec fn wf_str(s: Seq<char>) -> bool {
    encode_utf8(s).len() <= u64::MAX
}

/// A packet whose length fields all fit their wire width. Every packet built
/// from executable values satisfies this.
pub open spec fn wf_packet(p: PacketV) -> bool {
    match p {
        PacketV::Connection { user } => wf_str(user),
        PacketV::Movement { .. } => true,
        PacketV::PositionRequest { name } => wf_str(name),
        PacketV::PlayerPosition { name, .. } => wf_str(name),
        PacketV::OnlinePlayers { players } => players.len() <= u64::MAX && (forall|i: int|
            0 <= i < players.len() ==> wf_str((#[trigger] players[i]).name)),
        PacketV::UnloadChunk { .. } => true,
        PacketV::Chunk { groups, .. } => groups.len() <= u64::MAX && (forall|i: int|
            0 <= i < groups.len() ==> wf_str((#[trigger] groups[i]).id)),
    }
}

/// Reads the 8-byte big-endian integer at `i`, if the buffer holds it.
pub open spec fn parse_u64_at(d: Seq<u8>, i: int) -> Option<(u64, int)> {
    if i + 8 <= d.len() {
        Some((be64_value(d.subrange(i, i + 8)), i + 8))
    } else {
        None
    }
}

/// Reads the 8-byte big-endian signed integer at `i`.
pub open spec fn parse_i64_at(d: Seq<u8>, i: int) -> Option<(i64, int)> {
    match parse_u64_at(d, i) {
        Some((v, j)) => Some((v as i64, j)),
        None => None,
    }
}

/// Reads the 4-byte big-endian integer at `i`, if the buffer holds it.
pub open spec fn parse_u32_at(d: Seq<u8>, i: int) -> Option<(u32, int)> {
    if i + 4 <= d.len() {
        Some((be32_value(d.subrange(i, i + 4)), i + 4))
    } else {
        None
    }
}

/// The characters encoded by `b`, or the fallback text when `b` is not valid
/// UTF-8: one malformed name must not drop the whole message.
pub open spec fn chars_or(b: Seq<u8>, fallback: Seq<char>) -> Seq<char> {
    if valid_utf8(b) {
        decode_utf8(b)
    } else {
        fallback
    }
}

/// Reads a length-prefixed string field at `i`.
pub open spec fn parse_str_at(d: Seq<u8>, i: int, fallback: Seq<char>) -> Option<(Seq<char>, int)> {
    match parse_u64_at(d, i) {
        None => None,
        Some((len, j)) => if j + len <= d.len() {
            Some((chars_or(d.subrange(j, j + len), fallback), j + len))
        } else {
            None
        },
    }
}

/// Reads one entry of the online player list at `i`.
pub open spec fn parse_player_at(d: Seq<u8>, i: int) -> Option<(OnlinePlayerV, int)> {
    match parse_str_at(d, i, "Invalid"@) {
        None => None,
        Some((name, j)) => match parse_u32_at(d, j) {
            None => None,
            Some((x, k)) => match parse_u32_at(d, k) {
                None => None,
                Some((y, l)) => match parse_u32_at(d, l) {
                    None => None,
                    Some((z, m)) => Some((OnlinePlayerV { name, x, y, z }, m)),
                },
            },
        },
    }
}

/// Reads `n` player entries starting at `i`.
pub open spec fn parse_players_at(d: Seq<u8>, i: int, n: nat) -> Option<(Seq<OnlinePlayerV>, int)>
    decreases n,
{
    if n == 0 {
        Some((Seq::empty(), i))
    } else {
        match parse_player_at(d, i) {
            None => None,
            Some((p, j)) => match parse_players_at(d, j, (n - 1) as nat) {
                None => None,
                Some((ps, k)) => Some((seq![p] + ps, k)),
            },
        }
    }
}

/// Reads one compressed block group at `i`.
pub open spec fn parse_group_at(d: Seq<u8>, i: int) -> Option<(BlockGroupV, int)> {
    match parse_str_at(d, i, "Invalid"@) {
        None => None,
        Some((id, j)) => match parse_u32_at(d, j) {
            None => None,
            Some((count, k)) => Some((BlockGroupV { id, count }, k)),
        },
    }
}

/// Reads `n` block groups starting at `i`.
pub open spec fn parse_groups_at(d: Seq<u8>, i: int, n: nat) -> Option<(Seq<BlockGroupV>, int)>
    decreases n,
{
    if n == 0 {
        Some((Seq::empty(), i))
    } else {
        match parse_group_at(d, i) {
            None => None,
            Some((g, j)) => match parse_groups_at(d, j, (n - 1) as nat) {
                None => None,
                Some((gs, k)) => Some((seq![g] + gs, k)),
            },
        }
    }
}

/// The packet a byte buffer decodes to, or the error it is rejected with.
/// Bytes past the last field of the recognized message are ignored.
pub open spec fn parse_packet(d: Seq<u8>) -> Result<PacketV, DecodeError> {
    if d.len() == 0 {
        Err(DecodeError::UnexpectedEnd)
    } else if d[0] == 0 {
        match parse_str_at(d, 1, "invalid"@) {
            Some((user, _)) => Ok(PacketV::Connection { user }),
            None => Err(DecodeError::UnexpectedEnd),
        }
    } else if d[0] == 1 {
        match parse_u64_at(d, 1) {
            None => Err(DecodeError::UnexpectedEnd),
            Some((delta_x, i)) => match parse_u64_at(d, i) {
                None => Err(DecodeError::UnexpectedEnd),
                Some((delta_y, j)) => match parse_u64_at(d, j) {
                    None => Err(DecodeError::UnexpectedEnd),
                    Some((delta_z, _)) => Ok(PacketV::Movement { delta_x, delta_y, delta_z }),
                },
            },
        }
    } else if d[0] == 2 {
        match parse_str_at(d, 1, "invalid"@) {
            Some((name, _)) => Ok(PacketV::PositionRequest { name }),
            None => Err(DecodeError::UnexpectedEnd),
        }
    } else if d[0] == 3 {
        match parse_u64_at(d, 1) {
            None => Err(DecodeError::UnexpectedEnd),
            Some((x, i)) => match parse_u64_at(d, i) {
                None => Err(DecodeError::UnexpectedEnd),
                Some((y, j)) => match parse_u64_at(d, j) {
                    None => Err(DecodeError::UnexpectedEnd),
                    Some((z, k)) => match parse_str_at(d, k, "Invalid"@) {
                        None => Err(DecodeError::UnexpectedEnd),
                        Some((name, _)) => Ok(PacketV::PlayerPosition { x, y, z, name }),
                    },
                },
            },
        }
    } else if d[0] == 4 {
        match parse_u64_at(d, 1) {
            None => Err(DecodeError::UnexpectedEnd),
            Some((count, i)) => match parse_players_at(d, i, count as nat) {
                None => Err(DecodeError::UnexpectedEnd),
                Some((players, _)) => Ok(PacketV::OnlinePlayers { players }),
            },
        }
    } else if d[0] == 5 {
        match parse_i64_at(d, 1) {
            None => Err(DecodeError::UnexpectedEnd),
            Some((x, i)) => match parse_i64_at(d, i) {
                None => Err(DecodeError::UnexpectedEnd),
                Some((y, _)) => Ok(PacketV::UnloadChunk { x, y }),
            },
        }
    } else if d[0] == 6 {
        match parse_i64_at(d, 1) {
            None => Err(DecodeError::UnexpectedEnd),
            Some((x, i)) => match parse_i64_at(d, i) {
                None => Err(DecodeError::UnexpectedEnd),
                Some((y, j)) => match parse_u64_at(d, j) {
                    None => Err(DecodeError::UnexpectedEnd),
                    Some((count, k)) => match parse_groups_at(d, k, count as nat) {
                        None => Err(DecodeError::UnexpectedEnd),
                        Some((groups, _)) => Ok(PacketV::Chunk { x, y, groups }),
                    },
                },
            },
        }
    } else {
        Err(DecodeError::InvalidPacket)
    }
}

/// Appends a length-prefixed string field.
fn push_string(out: &mut Vec<u8>, s: &str)
    ensures
        final(out)@ =~= old(out)@ + str_bytes(s@),
        wf_str(s@),
{
    let sb: Vec<u8> = s.as_bytes_vec();
    let len: usize = sb.len();
    push_u64_be(out, len as u64);
    out.extend_from_slice(sb.as_slice());
    proof {
        assert(final(out)@ =~= old(out)@ + str_bytes(s@));
    }
}

impl Packet {
    /// Encode a packet into bytes to send it over the network. Writing into
    /// memory cannot fail, so the bytes are returned directly.
    pub fn encode(&self) -> (r: Vec<u8>)
        ensures
            r@ == spec_encode(self@),
            wf_packet(self@),
    {
        let mut bytes: Vec<u8> = Vec::new();
        match self {
            Packet::Connection { user } => {
                bytes.push(0u8);
                push_string(&mut bytes, user.as_str());
                proof {
                    assert(bytes@ =~= spec_encode(self@));
                }
            },
            Packet::Movement { delta_x, delta_y, delta_z } => {
                bytes.push(1u8);
                push_u64_be(&mut bytes, *delta_x);
                push_u64_be(&mut bytes, *delta_y);
                push_u64_be(&mut bytes, *delta_z);
                proof {
                    assert(bytes@ =~= spec_encode(self@));
                }
            },
            Packet::PositionRequest { name } => {
                bytes.push(2u8);
                push_string(&mut bytes, name.as_str());
                proof {
                    assert(bytes@ =~= spec_encode(self@));
                }
            },
            Packet::PlayerPosition { x, y, z, name } => {
                bytes.push(3u8);
                push_u64_be(&mut bytes, *x);
                push_u64_be(&mut bytes, *y);
                push_u64_be(&mut bytes, *z);
                push_string(&mut bytes, name.as_str());
                proof {
                    assert(bytes@ =~= spec_encode(self@));
                }
            },
            Packet::OnlinePlayers { players } => {
                bytes.push(4u8);
                push_u64_be(&mut bytes, players.len() as u64);
                let ghost pv = players@.map_values(|p: OnlinePlayer| p@);
                let ghost head = seq![4u8] + be64(players@.len() as u64);
                let n: usize = players.len();
                let mut i: usize = 0;
                while i < n
                    invariant
                        n == players@.len(),
                        0 <= i <= n,
                        pv == players@.map_values(|p: OnlinePlayer| p@),
                        bytes@ =~= head + players_bytes(pv.take(i as int)),
                        forall|j: int| 0 <= j < i ==> wf_str((#[trigger] pv[j]).name),
                    decreases n - i,
                {
                    let p = &players[i];
                    push_string(&mut bytes, p.name.as_str());
                    push_u32_be(&mut bytes, p.x);
                    push_u32_be(&mut bytes, p.y);
                    push_u32_be(&mut bytes, p.z);
                    proof {
                        lemma_players_bytes_push(pv.take(i as int), pv[i as int]);
                        assert(pv.take(i as int + 1) =~= pv.take(i as int).push(pv[i as int]));
                        assert(bytes@ =~= head + players_bytes(pv.take(i as int + 1)));
                    }
                    i = i + 1;
                }
                proof {
                    assert(pv.take(n as int) =~= pv);
                    assert(bytes@ =~= spec_encode(self@));
                }
            },
            Packet::UnloadChunk { x, y } => {
                bytes.push(5u8);
                push_u64_be(&mut bytes, #[verifier::truncate] (*x as u64));
                push_u64_be(&mut bytes, #[verifier::truncate] (*y as u64));
                proof {
                    assert(bytes@ =~= spec_encode(self@));
                }
            },
            Packet::Chunk { x, y, groups } => {
                bytes.push(6u8);
                push_u64_be(&mut bytes, #[verifier::truncate] (*x as u64));
                push_u64_be(&mut bytes, #[verifier::truncate] (*y as u64));
                push_u64_be(&mut bytes, groups.len() as u64);
                let ghost gv = groups@.map_values(|g: BlockGroup| g@);
                let ghost head = seq![6u8] + be64(*x as u64) + be64(*y as u64) + be64(
                    groups@.len() as u64,
                );
                let n: usize = groups.len();
                let mut i: usize = 0;
                while i < n
                    invariant
                        n == groups@.len(),
                        0 <= i <= n,
                        gv == groups@.map_values(|g: BlockGroup| g@),
                        bytes@ =~= head + groups_bytes(gv.take(i as int)),
                        forall|j: int| 0 <= j < i ==> wf_str((#[trigger] gv[j]).id),
                    decreases n - i,
                {
                    let g = &groups[i];
                    push_string(&mut bytes, g.id.as_str());
                    push_u32_be(&mut bytes, g.count);
                    proof {
                        lemma_groups_bytes_push(gv.take(i as int), gv[i as int]);
                        assert(gv.take(i as int + 1) =~= gv.take(i as int).push(gv[i as int]));
                        assert(bytes@ =~= head + groups_bytes(gv.take(i as int + 1)));
                    }
                    i = i + 1;
                }
                proof {
                    assert(gv.take(n as int) =~= gv);
                    assert(bytes@ =~= spec_encode(self@));
                }
            },
        }
        bytes
    }
}

/// Appending one player extends the list image by that player's bytes.
pub proof fn lemma_players_bytes_push(a: Seq<OnlinePlayerV>, p: OnlinePlayerV)
    ensures
        players_bytes(a.push(p)) =~= players_bytes(a) + player_bytes(p),
{
    lemma_players_bytes_concat(a, seq![p]);
    assert(a.push(p) =~= a + seq![p]);
    assert(seq![p].drop_first() =~= Seq::<OnlinePlayerV>::empty());
    assert(players_bytes(Seq::<OnlinePlayerV>::empty()) =~= Seq::<u8>::empty());
    assert(seq![p][0] == p);
    assert(players_bytes(seq![p]) =~= player_bytes(p) + Seq::<u8>::empty());
    assert(players_bytes(seq![p]) =~= player_bytes(p));
}

/// Appending one group extends the list image by that group's bytes.
pub proof fn lemma_groups_bytes_push(a: Seq<BlockGroupV>, g: BlockGroupV)
    ensures
        groups_bytes(a.push(g)) =~= groups_bytes(a) + group_bytes(g),
{
    lemma_groups_bytes_concat(a, seq![g]);
    assert(a.push(g) =~= a + seq![g]);
    assert(seq![g].drop_first() =~= Seq::<BlockGroupV>::empty());
    assert(groups_bytes(Seq::<BlockGroupV>::empty()) =~= Seq::<u8>::empty());
    assert(seq![g][0] == g);
    assert(groups_bytes(seq![g]) =~= group_bytes(g) + Seq::<u8>::empty());
    assert(groups_bytes(seq![g]) =~= group_bytes(g));
}

/// The player list image distributes over concatenation.
pub proof fn lemma_players_bytes_concat(a: Seq<OnlinePlayerV>, b: Seq<OnlinePlayerV>)
    ensures
        players_bytes(a + b) =~= players_bytes(a) + players_bytes(b),
    decreases a.len(),
{
    if a.len() == 0 {
        assert(a + b =~= b);
    } else {
        assert((a + b).drop_first() =~= a.drop_first() + b);
        assert((a + b)[0] == a[0]);
        lemma_players_bytes_concat(a.drop_first(), b);
    }
}

/// The group list image distributes over concatenation.
pub proof fn lemma_groups_bytes_concat(a: Seq<BlockGroupV>, b: Seq<BlockGroupV>)
    ensures
        groups_bytes(a + b) =~= groups_bytes(a) + groups_bytes(b),
    decreases a.len(),
{
    if a.len() == 0 {
        assert(a + b =~= b);
    } else {
        assert((a + b).drop_first() =~= a.drop_first() + b);
        assert((a + b)[0] == a[0]);
        lemma_groups_bytes_concat(a.drop_first(), b);
    }
}

/// Relies on String::from_utf8: returns the string whose UTF-8 encoding is
/// `bytes` when `bytes` is valid UTF-8 (in the sense of vstd's UTF-8 model),
/// and the given fallback text otherwise.
#[verifier::external_body]
fn from_utf8_or(bytes: Vec<u8>, fallback: &str) -> (r: String)
    ensures
        valid_utf8(bytes@) ==> r@ == decode_utf8(bytes@),
        !valid_utf8(bytes@) ==> r@ == fallback@,
{
    match String::from_utf8(bytes) {
        Ok(s) => s,
        Err(_) => fallback.to_string(),
    }
}

/// Reads the 8-byte big-endian field at `i`, or reports a short buffer.
fn read_u64_field(data: &Vec<u8>, i: usize) -> (r: Result<(u64, usize), DecodeError>)
    requires
        i <= data@.len(),
    ensures
        match r {
            Ok(v) => parse_u64_at(data@, i as int) == Some((v.0, v.1 as int)) && v.1 == i + 8,
            Err(e) => parse_u64_at(data@, i as int) is None && e == DecodeError::UnexpectedEnd,
        },
{
    if data.len() - i < 8 {
        return Err(DecodeError::UnexpectedEnd);
    }
    let v: u64 = read_u64_be(data.as_slice(), i);
    Ok((v, i + 8))
}

/// Reads the 8-byte big-endian signed field at `i`.
fn read_i64_field(data: &Vec<u8>, i: usize) -> (r: Result<(i64, usize), DecodeError>)
    requires
        i <= data@.len(),
    ensures
        match r {
            Ok(v) => parse_i64_at(data@, i as int) == Some((v.0, v.1 as int)) && v.1 == i + 8,
            Err(e) => parse_i64_at(data@, i as int) is None && e == DecodeError::UnexpectedEnd,
        },
{
    match read_u64_field(data, i) {
        Ok((v, j)) => Ok((#[verifier::truncate] (v as i64), j)),
        Err(e) => Err(e),
    }
}

/// Reads the 4-byte big-endian field at `i`, or reports a short buffer.
fn read_u32_field(data: &Vec<u8>, i: usize) -> (r: Result<(u32, usize), DecodeError>)
    requires
        i <= data@.len(),
    ensures
        match r {
            Ok(v) => parse_u32_at(data@, i as int) == Some((v.0, v.1 as int)) && v.1 == i + 4,
            Err(e) => parse_u32_at(data@, i as int) is None && e == DecodeError::UnexpectedEnd,
        },
{
    if data.len() - i < 4 {
        return Err(DecodeError::UnexpectedEnd);
    }
    let v: u32 = read_u32_be(data.as_slice(), i);
    Ok((v, i + 4))
}

/// Reads a length-prefixed string field at `i`, substituting the fallback
/// text for invalid UTF-8 content.
fn read_string(data: &Vec<u8>, i: usize, fallback: &str) -> (r: Result<
    (String, usize),
    DecodeError,
>)
    requires
        i <= data@.len(),
    ensures
        match r {
            Ok(v) => parse_str_at(data@, i as int, fallback@) == Some((v.0@, v.1 as int)) && i
                <= v.1 <= data@.len(),
            Err(e) => parse_str_at(data@, i as int, fallback@) is None && e
                == DecodeError::UnexpectedEnd,
        },
{
    let (len64, j) = match read_u64_field(data, i) {
        Ok(v) => v,
        Err(e) => {
            return Err(e);
        },
    };
    let rem: usize = data.len() - j;
    if len64 > rem as u64 {
        return Err(DecodeError::UnexpectedEnd);
    }
    let len: usize = len64 as usize;
    let sub: &[u8] = slice_subrange(data.as_slice(), j, j + len);
    let bytes: Vec<u8> = slice_to_vec(sub);
    let s: String = from_utf8_or(bytes, fallback);
    Ok((s, j + len))
}

/// Reads one online player entry at `i`.
fn read_player(data: &Vec<u8>, i: usize) -> (r: Result<(OnlinePlayer, usize), DecodeError>)
    requires
        i <= data@.len(),
    ensures
        match r {
            Ok(v) => parse_player_at(data@, i as int) == Some((v.0@, v.1 as int)) && i <= v.1
                <= data@.len(),
            Err(e) => parse_player_at(data@, i as int) is None && e == DecodeError::UnexpectedEnd,
        },
{
    let (name, a) = match read_string(data, i, "Invalid") {
        Ok(v) => v,
        Err(e) => {
            return Err(e);
        },
    };
    let (x, b) = match read_u32_field(data, a) {
        Ok(v) => v,
        Err(e) => {
            return Err(e);
        },
    };
    let (y, c) = match read_u32_field(data, b) {
        Ok(v) => v,
        Err(e) => {
            return Err(e);
        },
    };
    let (z, end) = match read_u32_field(data, c) {
        Ok(v) => v,
        Err(e) => {
            return Err(e);
        },
    };
    Ok((OnlinePlayer { name, x, y, z }, end))
}

/// Reads one compressed block group at `i`.
fn read_group(data: &Vec<u8>, i: usize) -> (r: Result<(BlockGroup, usize), DecodeError>)
    requires
        i <= data@.len(),
    ensures
        match r {
            Ok(v) => parse_group_at(data@, i as int) == Some((v.0@, v.1 as int)) && i <= v.1
                <= data@.len(),
            Err(e) => parse_group_at(data@, i as int) is None && e == DecodeError::UnexpectedEnd,
        },
{
    let (id, a) = match read_string(data, i, "Invalid") {
        Ok(v) => v,
        Err(e) => {
            return Err(e);
        },
    };
    let (count, end) = match read_u32_field(data, a) {
        Ok(v) => v,
        Err(e) => {
            return Err(e);
        },
    };
    Ok((BlockGroup { id, count }, end))
}

/// Reads `count` online player entries starting at `start`.
fn read_players_list(data: &Vec<u8>, start: usize, count: u64) -> (r: Result<
    (Vec<OnlinePlayer>, usize),
    DecodeError,
>)
    requires
        start <= data@.len(),
    ensures
        match r {
            Ok(v) => parse_players_at(data@, start as int, count as nat) == Some(
                (v.0@.map_values(|p: OnlinePlayer| p@), v.1 as int),
            ) && v.1 <= data@.len(),
            Err(e) => parse_players_at(data@, start as int, count as nat) is None && e
                == DecodeError::UnexpectedEnd,
        },
{
    let mut players: Vec<OnlinePlayer> = Vec::new();
    let mut pos: usize = start;
    let mut k: u64 = 0;
    while k < count
        invariant
            k <= count,
            pos <= data@.len(),
            players@.len() == k,
            ({
                let full = parse_players_at(data@, start as int, count as nat);
                let rest = parse_players_at(data@, pos as int, (count - k) as nat);
                match rest {
                    None => full is None,
                    Some((ps, e)) => full == Some(
                        (players@.map_values(|p: OnlinePlayer| p@) + ps, e),
                    ),
                }
            }),
        decreases count - k,
    {
        match read_player(data, pos) {
            Err(e) => {
                proof {
                    assert(parse_players_at(data@, pos as int, (count - k) as nat) is None);
                }
                return Err(e);
            },
            Ok((p, j)) => {
                proof {
                    let pv = players@.map_values(|q: OnlinePlayer| q@);
                    let pv2 = players@.push(p).map_values(|q: OnlinePlayer| q@);
                    assert(pv2 =~= pv.push(p@));
                    let rest2 = parse_players_at(data@, j as int, (count - k - 1) as nat);
                    match rest2 {
                        None => {
                        },
                        Some((ps2, e2)) => {
                            assert(pv.push(p@) + ps2 =~= pv + (seq![p@] + ps2));
                        },
                    }
                }
                players.push(p);
                pos = j;
                k = k + 1;
            },
        }
    }
    proof {
        assert(parse_players_at(data@, pos as int, 0nat) == Some(
            (Seq::<OnlinePlayerV>::empty(), pos as int),
        ));
        assert(players@.map_values(|q: OnlinePlayer| q@) + Seq::<OnlinePlayerV>::empty()
            =~= players@.map_values(|q: OnlinePlayer| q@));
    }
    Ok((players, pos))
}

/// Reads `count` compressed block groups starting at `start`.
fn read_groups_list(data: &Vec<u8>, start: usize, count: u64) -> (r: Result<
    (Vec<BlockGroup>, usize),
    DecodeError,
>)
    requires
        start <= data@.len(),
    ensures
        match r {
            Ok(v) => parse_groups_at(data@, start as int, count as nat) == Some(
                (v.0@.map_values(|g: BlockGroup| g@), v.1 as int),
            ) && v.1 <= data@.len(),
            Err(e) => parse_groups_at(data@, start as int, count as nat) is None && e
                == DecodeError::UnexpectedEnd,
        },
{
    let mut groups: Vec<BlockGroup> = Vec::new();
    let mut pos: usize = start;
    let mut k: u64 = 0;
    while k < count
        invariant
            k <= count,
            pos <= data@.len(),
            groups@.len() == k,
            ({
                let full = parse_groups_at(data@, start as int, count as nat);
                let rest = parse_groups_at(data@, pos as int, (count - k) as nat);
                match rest {
                    None => full is None,
                    Some((gs, e)) => full == Some(
                        (groups@.map_values(|g: BlockGroup| g@) + gs, e),
                    ),
                }
            }),
        decreases count - k,
    {
        match read_group(data, pos) {
            Err(e) => {
                proof {
                    assert(parse_groups_at(data@, pos as int, (count - k) as nat) is None);
                }
                return Err(e);
            },
            Ok((g, j)) => {
                proof {
                    let gv = groups@.map_values(|h: BlockGroup| h@);
                    let gv2 = groups@.push(g).map_values(|h: BlockGroup| h@);
                    assert(gv2 =~= gv.push(g@));
                    let rest2 = parse_groups_at(data@, j as int, (count - k - 1) as nat);
                    match rest2 {
                        None => {
                        },
                        Some((gs2, e2)) => {
                            assert(gv.push(g@) + gs2 =~= gv + (seq![g@] + gs2));
                        },
                    }
                }
                groups.push(g);
                pos = j;
                k = k + 1;
            },
        }
    }
    proof {
        assert(parse_groups_at(data@, pos as int, 0nat) == Some(
            (Seq::<BlockGroupV>::empty(), pos as int),
        ));
        assert(groups@.map_values(|h: BlockGroup| h@) + Seq::<BlockGroupV>::empty()
            =~= groups@.map_values(|h: BlockGroup| h@));
    }
    Ok((groups, pos))
}

/// Decodes a Movement message after its tag byte.
fn decode_movement(data: &Vec<u8>) -> (r: Result<Packet, DecodeError>)
    requires
        data@.len() > 0,
        data@[0] == 1,
    ensures
        match r {
            Ok(p) => parse_packet(data@) == Ok::<PacketV, DecodeError>(p@),
            Err(e) => parse_packet(data@) == Err::<PacketV, DecodeError>(e),
        },
{
    let (delta_x, a) = match read_u64_field(data, 1) {
        Ok(v) => v,
        Err(e) => {
            return Err(e);
        },
    };
    let (delta_y, b) = match read_u64_field(data, a) {
        Ok(v) => v,
        Err(e) => {
            return Err(e);
        },
    };
    let (delta_z, _c) = match read_u64_field(data, b) {
        Ok(v) => v,
        Err(e) => {
            return Err(e);
        },
    };
    Ok(Packet::Movement { delta_x, delta_y, delta_z })
}

/// Decodes a PlayerPosition message after its tag byte.
fn decode_player_position(data: &Vec<u8>) -> (r: Result<Packet, DecodeError>)
    requires
        data@.len() > 0,
        data@[0] == 3,
    ensures
        match r {
            Ok(p) => parse_packet(data@) == Ok::<PacketV, DecodeError>(p@),
            Err(e) => parse_packet(data@) == Err::<PacketV, DecodeError>(e),
        },
{
    let (x, a) = match read_u64_field(data, 1) {
        Ok(v) => v,
        Err(e) => {
            return Err(e);
        },
    };
    let (y, b) = match read_u64_field(data, a) {
        Ok(v) => v,
        Err(e) => {
            return Err(e);
        },
    };
    let (z, c) = match read_u64_field(data, b) {
        Ok(v) => v,
        Err(e) => {
            return Err(e);
        },
    };
    let (name, _end) = match read_string(data, c, "Invalid") {
        Ok(v) => v,
        Err(e) => {
            return Err(e);
        },
    };
    Ok(Packet::PlayerPosition { x, y, z, name })
}

/// Decodes an OnlinePlayers message after its tag byte.
fn decode_online_players(data: &Vec<u8>) -> (r: Result<Packet, DecodeError>)
    requires
        data@.len() > 0,
        data@[0] == 4,
    ensures
        match r {
            Ok(p) => parse_packet(data@) == Ok::<PacketV, DecodeError>(p@),
            Err(e) => parse_packet(data@) == Err::<PacketV, DecodeError>(e),
        },
{
    let (count, start) = match read_u64_field(data, 1) {
        Ok(v) => v,
        Err(e) => {
            return Err(e);
        },
    };
    let (players, _end) = match read_players_list(data, start, count) {
        Ok(v) => v,
        Err(e) => {
            return Err(e);
        },
    };
    Ok(Packet::OnlinePlayers { players })
}

/// Decodes an UnloadChunk message after its tag byte.
fn decode_unload_chunk(data: &Vec<u8>) -> (r: Result<Packet, DecodeError>)
    requires
        data@.len() > 0,
        data@[0] == 5,
    ensures
        match r {
            Ok(p) => parse_packet(data@) == Ok::<PacketV, DecodeError>(p@),
            Err(e) => parse_packet(data@) == Err::<PacketV, DecodeError>(e),
        },
{
    let (x, a) = match read_i64_field(data, 1) {
        Ok(v) => v,
        Err(e) => {
            return Err(e);
        },
    };
    let (y, _b) = match read_i64_field(data, a) {
        Ok(v) => v,
        Err(e) => {
            return Err(e);
        },
    };
    Ok(Packet::UnloadChunk { x, y })
}

/// Decodes a Chunk message after its tag byte.
fn decode_chunk_message(data: &Vec<u8>) -> (r: Result<Packet, DecodeError>)
    requires
        data@.len() > 0,
        data@[0] == 6,
    ensures
        match r {
            Ok(p) => parse_packet(data@) == Ok::<PacketV, DecodeError>(p@),
            Err(e) => parse_packet(data@) == Err::<PacketV, DecodeError>(e),
        },
{
    let (x, a) = match read_i64_field(data, 1) {
        Ok(v) => v,
        Err(e) => {
            return Err(e);
        },
    };
    let (y, b) = match read_i64_field(data, a) {
        Ok(v) => v,
        Err(e) => {
            return Err(e);
        },
    };
    let (count, start) = match read_u64_field(data, b) {
        Ok(v) => v,
        Err(e) => {
            return Err(e);
        },
    };
    let (groups, _end) = match read_groups_list(data, start, count) {
        Ok(v) => v,
        Err(e) => {
            return Err(e);
        },
    };
    Ok(Packet::Chunk { x, y, groups })
}

/// The decoding work: returns exactly what [`parse_packet`] says for the
/// buffer.
fn decode_inner(data: &Vec<u8>) -> (r: Result<Packet, DecodeError>)
    ensures
        match r {
            Ok(p) => parse_packet(data@) == Ok::<PacketV, DecodeError>(p@),
            Err(e) => parse_packet(data@) == Err::<PacketV, DecodeError>(e),
        },
{
    if data.len() == 0 {
        return Err(DecodeError::UnexpectedEnd);
    }
    let tag: u8 = data[0];
    if tag == 0 {
        match read_string(data, 1, "invalid") {
            Ok((user, _end)) => Ok(Packet::Connection { user }),
            Err(e) => Err(e),
        }
    } else if tag == 1 {
        decode_movement(data)
    } else if tag == 2 {
        match read_string(data, 1, "invalid") {
            Ok((name, _end)) => Ok(Packet::PositionRequest { name }),
            Err(e) => Err(e),
        }
    } else if tag == 3 {
        decode_player_position(data)
    } else if tag == 4 {
        decode_online_players(data)
    } else if tag == 5 {
        decode_unload_chunk(data)
    } else if tag == 6 {
        decode_chunk_message(data)
    } else {
        Err(DecodeError::InvalidPacket)
    }
}

/// A prefix agrees with the buffer on every subrange it covers.
proof fn lemma_subrange_of_prefix(d: Seq<u8>, b: Seq<u8>, i: int, j: int)
    requires
        b.is_prefix_of(d),
        0 <= i <= j <= b.len(),
    ensures
        d.subrange(i, j) =~= b.subrange(i, j),
{
    assert(b =~= d.subrange(0, b.len() as int));
    assert forall|k: int| 0 <= k < j - i implies #[trigger] d.subrange(i, j)[k] == b.subrange(i, j)[k] by {
        assert(b[i + k] == d.subrange(0, b.len() as int)[i + k]);
    }
}

/// Parsing the big-endian image of a 64-bit integer yields the integer.
proof fn lemma_parse_u64_of_be64(d: Seq<u8>, i: int, x: u64)
    requires
        0 <= i,
        i + 8 <= d.len(),
        d.subrange(i, i + 8) =~= be64(x),
    ensures
        parse_u64_at(d, i) == Some((x, i + 8)),
{
    lemma_be64_value_of_be64(x);
}

/// Parsing the big-endian image of a signed 64-bit integer yields it back.
proof fn lemma_parse_i64_of_be64(d: Seq<u8>, i: int, x: i64)
    requires
        0 <= i,
        i + 8 <= d.len(),
        d.subrange(i, i + 8) =~= be64(x as u64),
    ensures
        parse_i64_at(d, i) == Some((x, i + 8)),
{
    lemma_parse_u64_of_be64(d, i, x as u64);
    crate::wire::lemma_i64_u64_round_trip(x);
}

/// Parsing the big-endian image of a 32-bit integer yields the integer.
proof fn lemma_parse_u32_of_be32(d: Seq<u8>, i: int, x: u32)
    requires
        0 <= i,
        i + 4 <= d.len(),
        d.subrange(i, i + 4) =~= be32(x),
    ensures
        parse_u32_at(d, i) == Some((x, i + 4)),
{
    lemma_be32_value_of_be32(x);
}

/// Parsing the wire image of a string field yields the original characters,
/// whatever fallback is in force.
proof fn lemma_parse_str_of_bytes(d: Seq<u8>, i: int, s: Seq<char>, fallback: Seq<char>)
    requires
        0 <= i,
        wf_str(s),
        i + str_bytes(s).len() <= d.len(),
        d.subrange(i, i + str_bytes(s).len() as int) =~= str_bytes(s),
    ensures
        parse_str_at(d, i, fallback) == Some((s, i + str_bytes(s).len() as int)),
{
    let eb = encode_utf8(s);
    let n = eb.len() as int;
    let sb = str_bytes(s);
    assert(sb.len() == 8 + n);
    assert(d.subrange(i, i + 8) =~= be64(eb.len() as u64)) by {
        assert forall|k: int| 0 <= k < 8 implies #[trigger] d.subrange(i, i + 8)[k] == be64(
            eb.len() as u64,
        )[k] by {
            assert(d.subrange(i, i + sb.len() as int)[k] == sb[k]);
        }
    }
    lemma_parse_u64_of_be64(d, i, eb.len() as u64);
    assert((eb.len() as u64) as int == n);
    assert(d.subrange(i + 8, i + 8 + n) =~= eb) by {
        assert forall|k: int| 0 <= k < n implies #[trigger] d.subrange(i + 8, i + 8 + n)[k] == eb[k] by {
            assert(d.subrange(i, i + sb.len() as int)[8 + k] == sb[8 + k]);
            assert(sb[8 + k] == eb[k]);
        }
    }
    vstd::utf8::encode_utf8_valid_utf8(s);
    vstd::utf8::encode_utf8_decode_utf8(s);
}

/// Parsing the wire image of one player entry yields the entry.
proof fn lemma_parse_player_of_bytes(d: Seq<u8>, i: int, p: OnlinePlayerV)
    requires
        0 <= i,
        wf_str(p.name),
        i + player_bytes(p).len() <= d.len(),
        d.subrange(i, i + player_bytes(p).len() as int) =~= player_bytes(p),
    ensures
        parse_player_at(d, i) == Some((p, i + player_bytes(p).len() as int)),
{
    let nb = str_bytes(p.name);
    let pb = player_bytes(p);
    let nl = nb.len() as int;
    assert(pb.len() == nl + 12);
    assert(forall|k: int| 0 <= k < pb.len() ==> d[i + k] == pb[k]) by {
        assert(forall|k: int|
            0 <= k < pb.len() ==> d.subrange(i, i + pb.len() as int)[k] == pb[k]);
    }
    assert(d.subrange(i, i + nl) =~= nb) by {
        assert forall|k: int| 0 <= k < nl implies #[trigger] d.subrange(i, i + nl)[k] == nb[k] by {
            assert(pb[k] == nb[k]);
        }
    }
    lemma_parse_str_of_bytes(d, i, p.name, "Invalid"@);
    let a = i + nl;
    assert(d.subrange(a, a + 4) =~= be32(p.x)) by {
        assert forall|k: int| 0 <= k < 4 implies #[trigger] d.subrange(a, a + 4)[k] == be32(p.x)[k] by {
            assert(pb[nl + k] == be32(p.x)[k]);
        }
    }
    lemma_parse_u32_of_be32(d, a, p.x);
    assert(d.subrange(a + 4, a + 8) =~= be32(p.y)) by {
        assert forall|k: int| 0 <= k < 4 implies #[trigger] d.subrange(a + 4, a + 8)[k] == be32(p.y)[k] by {
            assert(pb[nl + 4 + k] == be32(p.y)[k]);
        }
    }
    lemma_parse_u32_of_be32(d, a + 4, p.y);
    assert(d.subrange(a + 8, a + 12) =~= be32(p.z)) by {
        assert forall|k: int| 0 <= k < 4 implies #[trigger] d.subrange(a + 8, a + 12)[k] == be32(p.z)[k] by {
            assert(pb[nl + 8 + k] == be32(p.z)[k]);
        }
    }
    lemma_parse_u32_of_be32(d, a + 8, p.z);
}

/// Parsing the wire image of a player list yields the list.
proof fn lemma_parse_players_of_bytes(d: Seq<u8>, i: int, ps: Seq<OnlinePlayerV>)
    requires
        0 <= i,
        forall|k: int| 0 <= k < ps.len() ==> wf_str((#[trigger] ps[k]).name),
        i + players_bytes(ps).len() <= d.len(),
        d.subrange(i, i + players_bytes(ps).len() as int) =~= players_bytes(ps),
    ensures
        parse_players_at(d, i, ps.len() as nat) == Some(
            (ps, i + players_bytes(ps).len() as int),
        ),
    decreases ps.len(),
{
    if ps.len() == 0 {
    } else {
        let p0 = ps[0];
        let pb = player_bytes(p0);
        let rest = ps.drop_first();
        let lb = players_bytes(ps);
        let pl = pb.len() as int;
        assert(lb =~= pb + players_bytes(rest));
        assert(forall|k: int| 0 <= k < lb.len() ==> d[i + k] == lb[k]) by {
            assert(forall|k: int|
                0 <= k < lb.len() ==> d.subrange(i, i + lb.len() as int)[k] == lb[k]);
        }
        assert(d.subrange(i, i + pl) =~= pb) by {
            assert forall|k: int| 0 <= k < pl implies #[trigger] d.subrange(i, i + pl)[k] == pb[k] by {
                assert(lb[k] == pb[k]);
            }
        }
        lemma_parse_player_of_bytes(d, i, p0);
        let rl = players_bytes(rest).len() as int;
        assert(d.subrange(i + pl, i + pl + rl) =~= players_bytes(rest)) by {
            assert forall|k: int| 0 <= k < rl implies #[trigger] d.subrange(i + pl, i + pl + rl)[k]
                == players_bytes(rest)[k] by {
                assert(lb[pl + k] == players_bytes(rest)[k]);
            }
        }
        lemma_parse_players_of_bytes(d, i + pl, rest);
        assert(seq![p0] + rest =~= ps);
        assert(rest.len() == ps.len() - 1);
    }
}

/// Parsing the wire image of one block group yields the group.
proof fn lemma_parse_group_of_bytes(d: Seq<u8>, i: int, g: BlockGroupV)
    requires
        0 <= i,
        wf_str(g.id),
        i + group_bytes(g).len() <= d.len(),
        d.subrange(i, i + group_bytes(g).len() as int) =~= group_bytes(g),
    ensures
        parse_group_at(d, i) == Some((g, i + group_bytes(g).len() as int)),
{
    let nb = str_bytes(g.id);
    let gb = group_bytes(g);
    let nl = nb.len() as int;
    assert(gb.len() == nl + 4);
    assert(forall|k: int| 0 <= k < gb.len() ==> d[i + k] == gb[k]) by {
        assert(forall|k: int|
            0 <= k < gb.len() ==> d.subrange(i, i + gb.len() as int)[k] == gb[k]);
    }
    assert(d.subrange(i, i + nl) =~= nb) by {
        assert forall|k: int| 0 <= k < nl implies #[trigger] d.subrange(i, i + nl)[k] == nb[k] by {
            assert(gb[k] == nb[k]);
        }
    }
    lemma_parse_str_of_bytes(d, i, g.id, "Invalid"@);
    let a = i + nl;
    assert(d.subrange(a, a + 4) =~= be32(g.count)) by {
        assert forall|k: int| 0 <= k < 4 implies #[trigger] d.subrange(a, a + 4)[k] == be32(g.count)[k] by {
            assert(gb[nl + k] == be32(g.count)[k]);
        }
    }
    lemma_parse_u32_of_be32(d, a, g.count);
}

/// Parsing the wire image of a group list yields the list.
proof fn lemma_parse_groups_of_bytes(d: Seq<u8>, i: int, gs: Seq<BlockGroupV>)
    requires
        0 <= i,
        forall|k: int| 0 <= k < gs.len() ==> wf_str((#[trigger] gs[k]).id),
        i + groups_bytes(gs).len() <= d.len(),
        d.subrange(i, i + groups_bytes(gs).len() as int) =~= groups_bytes(gs),
    ensures
        parse_groups_at(d, i, gs.len() as nat) == Some((gs, i + groups_bytes(gs).len() as int)),
    decreases gs.len(),
{
    if gs.len() == 0 {
    } else {
        let g0 = gs[0];
        let gb = group_bytes(g0);
        let rest = gs.drop_first();
        let lb = groups_bytes(gs);
        let gl = gb.len() as int;
        assert(lb =~= gb + groups_bytes(rest));
        assert(forall|k: int| 0 <= k < lb.len() ==> d[i + k] == lb[k]) by {
            assert(forall|k: int|
                0 <= k < lb.len() ==> d.subrange(i, i + lb.len() as int)[k] == lb[k]);
        }
        assert(d.subrange(i, i + gl) =~= gb) by {
            assert forall|k: int| 0 <= k < gl implies #[trigger] d.subrange(i, i + gl)[k] == gb[k] by {
                assert(lb[k] == gb[k]);
            }
        }
        lemma_parse_group_of_bytes(d, i, g0);
        let rl = groups_bytes(rest).len() as int;
        assert(d.subrange(i + gl, i + gl + rl) =~= groups_bytes(rest)) by {
            assert forall|k: int| 0 <= k < rl implies #[trigger] d.subrange(i + gl, i + gl + rl)[k]
                == groups_bytes(rest)[k] by {
                assert(lb[gl + k] == groups_bytes(rest)[k]);
            }
        }
        lemma_parse_groups_of_bytes(d, i + gl, rest);
        assert(seq![g0] + rest =~= gs);
        assert(rest.len() == gs.len() - 1);
    }
}

proof fn lemma_parse_encode_connection(user: Seq<char>, d: Seq<u8>)
    requires
        wf_str(user),
        spec_encode(PacketV::Connection { user }).is_prefix_of(d),
    ensures
        parse_packet(d) == Ok::<PacketV, DecodeError>(PacketV::Connection { user }),
{
    let b = spec_encode(PacketV::Connection { user });
    let sb = str_bytes(user);
    assert(b =~= d.subrange(0, b.len() as int));
    assert(d[0] == b[0] && b[0] == 0u8);
    lemma_subrange_of_prefix(d, b, 1, b.len() as int);
    assert(b.subrange(1, b.len() as int) =~= sb);
    lemma_parse_str_of_bytes(d, 1, user, "invalid"@);
}

proof fn lemma_parse_encode_position_request(name: Seq<char>, d: Seq<u8>)
    requires
        wf_str(name),
        spec_encode(PacketV::PositionRequest { name }).is_prefix_of(d),
    ensures
        parse_packet(d) == Ok::<PacketV, DecodeError>(PacketV::PositionRequest { name }),
{
    let b = spec_encode(PacketV::PositionRequest { name });
    let sb = str_bytes(name);
    assert(b =~= d.subrange(0, b.len() as int));
    assert(d[0] == b[0] && b[0] == 2u8);
    lemma_subrange_of_prefix(d, b, 1, b.len() as int);
    assert(b.subrange(1, b.len() as int) =~= sb);
    lemma_parse_str_of_bytes(d, 1, name, "invalid"@);
}

proof fn lemma_parse_encode_movement(dx: u64, dy: u64, dz: u64, d: Seq<u8>)
    requires
        spec_encode(
            PacketV::Movement { delta_x: dx, delta_y: dy, delta_z: dz },
        ).is_prefix_of(d),
    ensures
        parse_packet(d) == Ok::<PacketV, DecodeError>(
            PacketV::Movement { delta_x: dx, delta_y: dy, delta_z: dz },
        ),
{
    let b = spec_encode(PacketV::Movement { delta_x: dx, delta_y: dy, delta_z: dz });
    assert(b.len() == 25);
    assert(b =~= d.subrange(0, 25));
    assert(d[0] == b[0] && b[0] == 1u8);
    lemma_subrange_of_prefix(d, b, 1, 9);
    assert(b.subrange(1, 9) =~= be64(dx));
    lemma_parse_u64_of_be64(d, 1, dx);
    lemma_subrange_of_prefix(d, b, 9, 17);
    assert(b.subrange(9, 17) =~= be64(dy));
    lemma_parse_u64_of_be64(d, 9, dy);
    lemma_subrange_of_prefix(d, b, 17, 25);
    assert(b.subrange(17, 25) =~= be64(dz));
    lemma_parse_u64_of_be64(d, 17, dz);
}

proof fn lemma_parse_encode_player_position(x: u64, y: u64, z: u64, name: Seq<char>, d: Seq<u8>)
    requires
        wf_str(name),
        spec_encode(PacketV::PlayerPosition { x, y, z, name }).is_prefix_of(d),
    ensures
        parse_packet(d) == Ok::<PacketV, DecodeError>(PacketV::PlayerPosition { x, y, z, name }),
{
    let b = spec_encode(PacketV::PlayerPosition { x, y, z, name });
    let sb = str_bytes(name);
    assert(b.len() == 25 + sb.len());
    assert(b =~= d.subrange(0, b.len() as int));
    assert(d[0] == b[0] && b[0] == 3u8);
    lemma_subrange_of_prefix(d, b, 1, 9);
    assert(b.subrange(1, 9) =~= be64(x));
    lemma_parse_u64_of_be64(d, 1, x);
    lemma_subrange_of_prefix(d, b, 9, 17);
    assert(b.subrange(9, 17) =~= be64(y));
    lemma_parse_u64_of_be64(d, 9, y);
    lemma_subrange_of_prefix(d, b, 17, 25);
    assert(b.subrange(17, 25) =~= be64(z));
    lemma_parse_u64_of_be64(d, 17, z);
    lemma_subrange_of_prefix(d, b, 25, b.len() as int);
    assert(b.subrange(25, b.len() as int) =~= sb);
    lemma_parse_str_of_bytes(d, 25, name, "Invalid"@);
}

proof fn lemma_parse_encode_online_players(players: Seq<OnlinePlayerV>, d: Seq<u8>)
    requires
        players.len() <= u64::MAX,
        forall|i: int| 0 <= i < players.len() ==> wf_str((#[trigger] players[i]).name),
        spec_encode(PacketV::OnlinePlayers { players }).is_prefix_of(d),
    ensures
        parse_packet(d) == Ok::<PacketV, DecodeError>(PacketV::OnlinePlayers { players }),
{
    let b = spec_encode(PacketV::OnlinePlayers { players });
    let lb = players_bytes(players);
    assert(b.len() == 9 + lb.len());
    assert(b =~= d.subrange(0, b.len() as int));
    assert(d[0] == b[0] && b[0] == 4u8);
    lemma_subrange_of_prefix(d, b, 1, 9);
    assert(b.subrange(1, 9) =~= be64(players.len() as u64));
    lemma_parse_u64_of_be64(d, 1, players.len() as u64);
    assert((players.len() as u64) as nat == players.len());
    lemma_subrange_of_prefix(d, b, 9, b.len() as int);
    assert(b.subrange(9, b.len() as int) =~= lb);
    lemma_parse_players_of_bytes(d, 9, players);
}

proof fn lemma_parse_encode_unload_chunk(x: i64, y: i64, d: Seq<u8>)
    requires
        spec_encode(PacketV::UnloadChunk { x, y }).is_prefix_of(d),
    ensures
        parse_packet(d) == Ok::<PacketV, DecodeError>(PacketV::UnloadChunk { x, y }),
{
    let b = spec_encode(PacketV::UnloadChunk { x, y });
    assert(b.len() == 17);
    assert(b =~= d.subrange(0, 17));
    assert(d[0] == b[0] && b[0] == 5u8);
    lemma_subrange_of_prefix(d, b, 1, 9);
    assert(b.subrange(1, 9) =~= be64(x as u64));
    lemma_parse_i64_of_be64(d, 1, x);
    lemma_subrange_of_prefix(d, b, 9, 17);
    assert(b.subrange(9, 17) =~= be64(y as u64));
    lemma_parse_i64_of_be64(d, 9, y);
}

proof fn lemma_parse_encode_chunk(x: i64, y: i64, groups: Seq<BlockGroupV>, d: Seq<u8>)
    requires
        groups.len() <= u64::MAX,
        forall|i: int| 0 <= i < groups.len() ==> wf_str((#[trigger] groups[i]).id),
        spec_encode(PacketV::Chunk { x, y, groups }).is_prefix_of(d),
    ensures
        parse_packet(d) == Ok::<PacketV, DecodeError>(PacketV::Chunk { x, y, groups }),
{
    let b = spec_encode(PacketV::Chunk { x, y, groups });
    let lb = groups_bytes(groups);
    assert(b.len() == 25 + lb.len());
    assert(b =~= d.subrange(0, b.len() as int));
    assert(d[0] == b[0] && b[0] == 6u8);
    lemma_subrange_of_prefix(d, b, 1, 9);
    assert(b.subrange(1, 9) =~= be64(x as u64));
    lemma_parse_i64_of_be64(d, 1, x);
    lemma_subrange_of_prefix(d, b, 9, 17);
    assert(b.subrange(9, 17) =~= be64(y as u64));
    lemma_parse_i64_of_be64(d, 9, y);
    lemma_subrange_of_prefix(d, b, 17, 25);
    assert(b.subrange(17, 25) =~= be64(groups.len() as u64));
    lemma_parse_u64_of_be64(d, 17, groups.len() as u64);
    assert((groups.len() as u64) as nat == groups.len());
    lemma_subrange_of_prefix(d, b, 25, b.len() as int);
    assert(b.subrange(25, b.len() as int) =~= lb);
    lemma_parse_groups_of_bytes(d, 25, groups);
}

/// Round trip of the packet format: a buffer that begins with the encoding of
/// a well-formed packet parses to exactly that packet, whatever bytes follow.
pub proof fn lemma_parse_encode(p: PacketV, d: Seq<u8>)
    requires
        wf_packet(p),
        spec_encode(p).is_prefix_of(d),
    ensures
        parse_packet(d) == Ok::<PacketV, DecodeError>(p),
{
    match p {
        PacketV::Connection { user } => lemma_parse_encode_connection(user, d),
        PacketV::Movement { delta_x, delta_y, delta_z } => lemma_parse_encode_movement(
            delta_x,
            delta_y,
            delta_z,
            d,
        ),
        PacketV::PositionRequest { name } => lemma_parse_encode_position_request(name, d),
        PacketV::PlayerPosition { x, y, z, name } => lemma_parse_encode_player_position(
            x,
            y,
            z,
            name,
            d,
        ),
        PacketV::OnlinePlayers { players } => lemma_parse_encode_online_players(players, d),
        PacketV::UnloadChunk { x, y } => lemma_parse_encode_unload_chunk(x, y, d),
        PacketV::Chunk { x, y, groups } => lemma_parse_encode_chunk(x, y, groups, d),
    }
}

impl Packet {
    /// Decode a received packet from bytes. The result is exactly what
    /// [`parse_packet`] says of the buffer: a buffer carrying the encoding of
    /// a well-formed packet decodes to that packet, an unknown kind tag is an
    /// invalid-packet error, and a field running past the end of the buffer
    /// is an unexpected-end error.
    pub fn decode(data: Vec<u8>) -> (r: Result<Packet, DecodeError>)
        ensures
            (r matches Ok(p)) <==> (parse_packet(data@) matches Ok(q)),
            r matches Ok(p) ==> parse_packet(data@) == Ok::<PacketV, DecodeError>(p@),
            r matches Err(e) ==> parse_packet(data@) == Err::<PacketV, DecodeError>(e),
            data@.len() == 0 ==> r == Err::<Packet, DecodeError>(DecodeError::UnexpectedEnd),
            data@.len() > 0 && 6 < data@[0] ==> r == Err::<Packet, DecodeError>(
                DecodeError::InvalidPacket,
            ),
            forall|p: PacketV|
                wf_packet(p) && (#[trigger] spec_encode(p)).is_prefix_of(data@) ==> (r matches Ok(
                q) && q@ == p),
    {
        let r = decode_inner(&data);
        proof {
            assert forall|p: PacketV|
                wf_packet(p) && (#[trigger] spec_encode(p)).is_prefix_of(data@) implies (r matches
            Ok(q) && q@ == p) by {
                lemma_parse_encode(p, data@);
            }
        }
        r
    }
}

} // verus!
