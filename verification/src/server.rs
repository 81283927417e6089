//! Server-side session state and the per-tick chunk lifecycle decisions.
//!
//! The functions here are pure decisions: they take the authoritative state
//! and one event or one tick's player positions, mutate the state, and return
//! the messages to transmit, each with the peer it is addressed to. The
//! embedding application owns the socket: it performs the sends, maps peer
//! addresses to the integer peer handles used here, and converts between
//! floating-point positions and the IEEE-754 bit patterns this module stores.

use vstd::prelude::*;

use crate::network::Packet;
use crate::world::Chunks;
use crate::world::chunk::{expand_groups, BlockGroup, Chunk};

verus! {

/// The display name of a connected player.
#[derive(Debug, Clone)]
pub struct PlayerName {
    pub name: String,
}

/// A player entity known to the server.
#[derive(Debug, Clone)]
pub struct Player {
    pub name: PlayerName,
}

/// A player's world position, as IEEE-754 64-bit bit patterns.
#[derive(Debug, Clone, Copy, PartialEq, Eq, Structural)]
pub struct Position {
    pub x: u64,
    pub y: u64,
    pub z: u64,
}

/// One connected client: its player entity, its position and the handle of
/// its peer address.
#[derive(Debug, Clone)]
pub struct ConnectedPlayer {
    pub player: Player,
    pub position: Position,
    pub peer: u64,
}

/// The chunk coordinate that contains a world coordinate: the floor of the
/// world coordinate divided by the chunk width of 16.
pub open spec fn chunk_coord(w: i64) -> int {
    (w as int) / 16
}

/// Floor division of a world coordinate by the chunk width.
fn floor_div_16(w: i64) -> (r: i64)
    ensures
        r == chunk_coord(w),
{
    if w >= 0 {
        let q: u64 = (w as u64) / 16;
        q as i64
    } else {
        let m: u64 = (-(w + 1)) as u64;
        let q: u64 = m / 16;
        proof {
            assert((w as int) / 16 == -1 - ((-(w as int) - 1) / 16)) by (nonlinear_arith)
                requires
                    w < 0,
            ;
        }
        -1 - (q as i64)
    }
}

/// The coordinate pairs of a chunk list, in order.
pub open spec fn coords_of(s: Seq<Chunk>) -> Seq<(i64, i64)> {
    s.map_values(|c: Chunk| (c.x, c.y))
}

/// True when some player stands in the chunk: a player's chunk coordinate
/// pair equals the chunk's coordinates.
pub open spec fn covered(c: Chunk, coords: Seq<(i64, i64)>) -> bool {
    coords.contains((c.x, c.y))
}

/// The chunks of `s` that some player coordinate covers, in order.
pub open spec fn kept_of(s: Seq<Chunk>, coords: Seq<(i64, i64)>) -> Seq<Chunk>
    decreases s.len(),
{
    if s.len() == 0 {
        Seq::empty()
    } else {
        let rest = kept_of(s.drop_last(), coords);
        if covered(s.last(), coords) {
            rest.push(s.last())
        } else {
            rest
        }
    }
}

/// The coordinates of the chunks of `s` that no player coordinate covers, in
/// order: the chunks a tick unloads.
pub open spec fn removed_of(s: Seq<Chunk>, coords: Seq<(i64, i64)>) -> Seq<(i64, i64)>
    decreases s.len(),
{
    if s.len() == 0 {
        Seq::empty()
    } else {
        let rest = removed_of(s.drop_last(), coords);
        if covered(s.last(), coords) {
            rest
        } else {
            rest.push((s.last().x, s.last().y))
        }
    }
}

/// The chunk coordinates a tick generates: the player coordinates, in order
/// of first occurrence, that are not already loaded. `have` accumulates what
/// is loaded so far.
pub open spec fn load_plan(coords: Seq<(i64, i64)>, have: Seq<(i64, i64)>) -> Seq<(i64, i64)>
    decreases coords.len(),
{
    if coords.len() == 0 {
        Seq::empty()
    } else {
        let c0 = coords[0];
        if have.contains(c0) {
            load_plan(coords.drop_first(), have)
        } else {
            seq![c0] + load_plan(coords.drop_first(), have.push(c0))
        }
    }
}

/// True when a player coordinate pair equals the given pair.
fn coords_member(coords: &Vec<(i64, i64)>, x: i64, y: i64) -> (r: bool)
    ensures
        r == coords@.contains((x, y)),
{
    let n: usize = coords.len();
    let mut i: usize = 0;
    while i < n
        invariant
            n == coords@.len(),
            0 <= i <= n,
            forall|j: int| 0 <= j < i ==> #[trigger] coords@[j] != (x, y),
        decreases n - i,
    {
        let c = coords[i];
        if c.0 == x && c.1 == y {
            proof {
                assert(coords@[i as int] == (x, y));
            }
            return true;
        }
        i = i + 1;
    }
    proof {
        assert(forall|j: int| 0 <= j < coords@.len() ==> #[trigger] coords@[j] != (x, y));
    }
    false
}

/// Membership in the coordinate list of a chunk list, in terms of the chunks.
proof fn lemma_coords_contains(s: Seq<Chunk>, x: i64, y: i64)
    ensures
        coords_of(s).contains((x, y)) <==> exists|i: int|
            0 <= i < s.len() && (#[trigger] s[i]).x == x && s[i].y == y,
{
    if coords_of(s).contains((x, y)) {
        let i = choose|i: int| 0 <= i < coords_of(s).len() && coords_of(s)[i] == (x, y);
        assert(s[i].x == x && s[i].y == y);
    }
    if exists|i: int| 0 <= i < s.len() && (#[trigger] s[i]).x == x && s[i].y == y {
        let i = choose|i: int| 0 <= i < s.len() && (#[trigger] s[i]).x == x && s[i].y == y;
        assert(coords_of(s)[i] == (x, y));
        assert(coords_of(s).contains((x, y)));
    }
}

/// The kept chunks of a coordinate-distinct chunk list are themselves
/// coordinate-distinct, and each is one of the original chunks.
proof fn lemma_kept_of_distinct(s: Seq<Chunk>, coords: Seq<(i64, i64)>)
    requires
        forall|i: int, j: int|
            0 <= i < j < s.len() ==> !((#[trigger] s[i]).x == (#[trigger] s[j]).x && s[i].y
                == s[j].y),
    ensures
        forall|m: int|
            0 <= m < kept_of(s, coords).len() ==> s.contains(#[trigger] kept_of(s, coords)[m]),
        forall|m: int, k: int|
            0 <= m < k < kept_of(s, coords).len() ==> !((#[trigger] kept_of(s, coords)[m]).x
                == (#[trigger] kept_of(s, coords)[k]).x && kept_of(s, coords)[m].y == kept_of(
                s,
                coords,
            )[k].y),
    decreases s.len(),
{
    if s.len() == 0 {
    } else {
        let front = s.drop_last();
        assert(forall|i: int| 0 <= i < front.len() ==> front[i] == #[trigger] s[i]);
        lemma_kept_of_distinct(front, coords);
        assert forall|m: int|
            0 <= m < kept_of(s, coords).len() implies s.contains(
            #[trigger] kept_of(s, coords)[m],
        ) by {
            if m < kept_of(front, coords).len() {
                assert(front.contains(kept_of(front, coords)[m]));
                let i = choose|i: int|
                    0 <= i < front.len() && front[i] == kept_of(front, coords)[m];
                assert(s[i] == kept_of(s, coords)[m]);
            } else {
                assert(kept_of(s, coords)[m] == s.last());
                assert(s[s.len() - 1] == s.last());
            }
        }
        assert forall|m: int, k: int|
            0 <= m < k < kept_of(s, coords).len() implies !((#[trigger] kept_of(s, coords)[m]).x
            == (#[trigger] kept_of(s, coords)[k]).x && kept_of(s, coords)[m].y == kept_of(
            s,
            coords,
        )[k].y) by {
            if k < kept_of(front, coords).len() {
            } else {
                // the later element is the last chunk of `s`; the earlier one
                // is some front element, and `s` keeps coordinates distinct
                assert(kept_of(s, coords)[k] == s.last());
                assert(front.contains(kept_of(front, coords)[m]));
                let i = choose|i: int|
                    0 <= i < front.len() && front[i] == kept_of(front, coords)[m];
                assert(s[i] == kept_of(s, coords)[m]);
                assert(!(s[i].x == s[s.len() - 1].x && s[i].y == s[s.len() - 1].y));
            }
        }
    }
}

/// The chunk lifecycle driver: what one server tick decides.
pub struct Game;

impl Game {
    /// One tick of the chunk lifecycle. Every loaded chunk in which no player
    /// stands is unloaded and an UnloadChunk message is emitted for it; then,
    /// for each player chunk coordinate that is not loaded, a chunk is
    /// generated, compressed and emitted as a Chunk message, and added to the
    /// loaded set. All unload messages precede all chunk messages, and every
    /// returned message is addressed to every connected peer by the caller.
    #[verifier::rlimit(60)]
    pub fn update_chunks(chunks: &mut Chunks, player_coords: &Vec<(i64, i64)>) -> (out: Vec<
        Packet,
    >)
        requires
            old(chunks).wf(),
        ensures
            final(chunks).wf(),
            ({
                let kept = kept_of(old(chunks).chunks@, player_coords@);
                let removed = removed_of(old(chunks).chunks@, player_coords@);
                let plan = load_plan(player_coords@, coords_of(kept));
                &&& final(chunks).chunks@.len() == kept.len() + plan.len()
                &&& (forall|j: int|
                    0 <= j < kept.len() ==> final(chunks).chunks@[j] == kept[j])
                &&& (forall|j: int|
                    0 <= j < plan.len() ==> ((#[trigger] final(chunks).chunks@[kept.len() + j]).x
                        == plan[j].0 && final(chunks).chunks@[kept.len() + j].y == plan[j].1
                        && final(chunks).chunks@[kept.len() + j].wf()))
                &&& out@.len() == removed.len() + plan.len()
                &&& (forall|j: int|
                    0 <= j < removed.len() ==> ((#[trigger] out@[j]) matches Packet::UnloadChunk {
                        x,
                        y,
                    } && x == removed[j].0 && y == removed[j].1))
                &&& (forall|j: int|
                    0 <= j < plan.len() ==> ((#[trigger] out@[removed.len() + j])
                        matches Packet::Chunk { x, y, groups } && x == plan[j].0 && y == plan[j].1
                        && groups@.len() == 1 && groups@[0].id@ == "base:stone"@
                        && groups@[0].count == 4096))
            }),
    {
        let ghost old0 = old(chunks).chunks@;
        let ghost pcs = player_coords@;
        let mut out: Vec<Packet> = Vec::new();

        let mut i: usize = 0;
        while i < chunks.chunks.len()
            invariant
                i + out@.len() <= old0.len(),
                pcs == player_coords@,
                ({
                    let k = i + out@.len() as int;
                    &&& chunks.chunks@ =~= kept_of(old0.take(k), pcs) + old0.skip(k)
                    &&& i == kept_of(old0.take(k), pcs).len()
                    &&& out@.len() == removed_of(old0.take(k), pcs).len()
                    &&& (forall|j: int|
                        0 <= j < out@.len() ==> ((#[trigger] out@[j])
                            matches Packet::UnloadChunk { x, y } && x == removed_of(
                            old0.take(k),
                            pcs,
                        )[j].0 && y == removed_of(old0.take(k), pcs)[j].1))
                }),
            decreases chunks.chunks@.len() - i,
        {
            let ghost k = i + out@.len() as int;
            proof {
                assert(old0.take(k + 1).drop_last() =~= old0.take(k));
                assert(old0.take(k + 1).last() == old0[k]);
                assert(chunks.chunks@[i as int] == old0.skip(k)[0]);
                assert(old0.skip(k)[0] == old0[k]);
            }
            let cx: i64 = chunks.chunks[i].x;
            let cy: i64 = chunks.chunks[i].y;
            if coords_member(player_coords, cx, cy) {
                proof {
                    assert(covered(old0[k], pcs));
                    assert(kept_of(old0.take(k + 1), pcs) =~= kept_of(old0.take(k), pcs).push(
                        old0[k],
                    ));
                    assert(chunks.chunks@ =~= kept_of(old0.take(k + 1), pcs) + old0.skip(k + 1));
                }
                i = i + 1;
            } else {
                proof {
                    assert(!covered(old0[k], pcs));
                }
                out.push(Packet::UnloadChunk { x: cx, y: cy });
                let _dropped = chunks.chunks.remove(i);
                proof {
                    assert(chunks.chunks@ =~= kept_of(old0.take(k + 1), pcs) + old0.skip(k + 1));
                    assert(removed_of(old0.take(k + 1), pcs) =~= removed_of(old0.take(k), pcs).push(
                        (old0[k].x, old0[k].y),
                    ));
                }
            }
        }
        proof {
            let k = i + out@.len() as int;
            assert(old0.skip(k).len() == 0);
            assert(k == old0.len());
            assert(old0.take(k) =~= old0);
            lemma_kept_of_distinct(old0, pcs);
            assert forall|a: int, b: int|
                0 <= a < b < chunks.chunks@.len() implies !((#[trigger] chunks.chunks@[a]).x
                == (#[trigger] chunks.chunks@[b]).x && chunks.chunks@[a].y
                == chunks.chunks@[b].y) by {
                assert(chunks.chunks@[a] == kept_of(old0, pcs)[a]);
                assert(chunks.chunks@[b] == kept_of(old0, pcs)[b]);
            }
        }

        let ghost kept = kept_of(old0, pcs);
        let ghost removed = removed_of(old0, pcs);
        let ghost base_len = chunks.chunks@.len() as int;
        let ghost plan = load_plan(pcs, coords_of(kept));
        proof {
            assert(coords_of(chunks.chunks@) =~= coords_of(kept));
            assert(pcs.skip(0) =~= pcs);
            assert(chunks.chunks@.skip(base_len) =~= Seq::<Chunk>::empty());
            assert(coords_of(Seq::<Chunk>::empty()) =~= Seq::<(i64, i64)>::empty());
            assert(Seq::<(i64, i64)>::empty() + load_plan(pcs, coords_of(chunks.chunks@))
                =~= load_plan(pcs, coords_of(chunks.chunks@)));
        }
        let nplayers: usize = player_coords.len();
        let mut j: usize = 0;
        while j < nplayers
            invariant
                chunks.wf(),
                nplayers == pcs.len(),
                pcs == player_coords@,
                0 <= j <= nplayers,
                base_len == kept.len(),
                chunks.chunks@.len() >= base_len,
                forall|m: int| 0 <= m < base_len ==> chunks.chunks@[m] == kept[m],
                plan =~= coords_of(chunks.chunks@.skip(base_len)) + load_plan(
                    pcs.skip(j as int),
                    coords_of(chunks.chunks@),
                ),
                forall|m: int|
                    base_len <= m < chunks.chunks@.len() ==> (#[trigger] chunks.chunks@[m]).wf(),
                out@.len() == removed.len() + chunks.chunks@.len() - base_len,
                forall|m: int|
                    0 <= m < removed.len() ==> ((#[trigger] out@[m]) matches Packet::UnloadChunk {
                        x,
                        y,
                    } && x == removed[m].0 && y == removed[m].1),
                forall|m: int|
                    0 <= m < chunks.chunks@.len() - base_len ==> ((#[trigger] out@[removed.len()
                        + m]) matches Packet::Chunk { x, y, groups } && x
                        == chunks.chunks@[base_len + m].x && y == chunks.chunks@[base_len + m].y
                        && groups@.len() == 1 && groups@[0].id@ == "base:stone"@
                        && groups@[0].count == 4096),
            decreases nplayers - j,
        {
            let pc: (i64, i64) = player_coords[j];
            let px: i64 = pc.0;
            let py: i64 = pc.1;
            proof {
                assert(pcs[j as int] == pc);
                assert(pc == (px, py));
                assert(pcs.skip(j as int)[0] == pcs[j as int]);
                assert(pcs.skip(j as int).drop_first() =~= pcs.skip(j as int + 1));
                lemma_coords_contains(chunks.chunks@, px, py);
            }
            let missing: bool = match chunks.get_chunk(px, py) {
                Some(_) => false,
                None => true,
            };
            if missing {
                let ghost pre = chunks.chunks@;
                let ghost have = coords_of(pre);
                let ghost done = coords_of(pre.skip(base_len));
                proof {
                    assert(!have.contains((px, py)));
                    assert(load_plan(pcs.skip(j as int), have) =~= seq![pcs[j as int]]
                        + load_plan(pcs.skip(j as int + 1), have.push(pcs[j as int])));
                }
                let c = Chunk::new(px, py);
                let groups: Vec<BlockGroup> = c.compress();
                proof {
                    crate::world::chunk::lemma_expand_len(groups@);
                    assert(forall|m: int|
                        0 <= m < 4096 ==> expand_groups(groups@)[m]
                            == #[trigger] crate::world::chunk::ids_of(c.blocks@)[m]);
                    assert(forall|m: int|
                        0 <= m < 4096 ==> #[trigger] crate::world::chunk::ids_of(c.blocks@)[m]
                            == c.blocks@[m].id@);
                    crate::world::chunk::lemma_uniform_groups(groups@, "base:stone"@, 4096);
                }
                out.push(Packet::Chunk { x: px, y: py, groups });
                chunks.chunks.push(c);
                proof {
                    assert(chunks.chunks@.drop_last() =~= pre);
                    assert(coords_of(chunks.chunks@) =~= have.push((px, py)));
                    assert(chunks.chunks@.skip(base_len).drop_last() =~= pre.skip(base_len));
                    assert(coords_of(chunks.chunks@.skip(base_len)) =~= done.push(
                        pcs[j as int],
                    ));
                    assert(done + (seq![pcs[j as int]] + load_plan(
                        pcs.skip(j as int + 1),
                        have.push(pcs[j as int]),
                    )) =~= done.push(pcs[j as int]) + load_plan(
                        pcs.skip(j as int + 1),
                        have.push(pcs[j as int]),
                    ));
                    assert(have.push(pcs[j as int]) == coords_of(chunks.chunks@));
                    assert(plan =~= coords_of(chunks.chunks@.skip(base_len)) + load_plan(
                        pcs.skip(j as int + 1),
                        coords_of(chunks.chunks@),
                    ));
                }
            }
            j = j + 1;
        }
        proof {
            assert(pcs.skip(nplayers as int).len() == 0);
            assert(load_plan(pcs.skip(nplayers as int), coords_of(chunks.chunks@))
                =~= Seq::<(i64, i64)>::empty());
            assert(plan =~= coords_of(chunks.chunks@.skip(base_len)));
            assert(forall|m: int|
                0 <= m < plan.len() ==> plan[m] == #[trigger] coords_of(
                    chunks.chunks@.skip(base_len),
                )[m]);
        }
        out
    }
}

/// The bit pattern of the 64-bit floating-point value 10: the height at
/// which a newly connected player spawns.
pub const SPAWN_Z_BITS: u64 = 0x4024000000000000;

/// The connected players whose display name equals `name`, in order.
pub open spec fn matching_players(s: Seq<ConnectedPlayer>, name: Seq<char>) -> Seq<
    ConnectedPlayer,
>
    decreases s.len(),
{
    if s.len() == 0 {
        Seq::empty()
    } else {
        let rest = matching_players(s.drop_last(), name);
        if s.last().player.name.name@ == name {
            rest.push(s.last())
        } else {
            rest
        }
    }
}

impl Game {
    /// The chunk coordinate pair containing a world position, one floor
    /// division by the chunk width per horizontal axis.
    pub fn world_to_chunk(x: i64, z: i64) -> (r: (i64, i64))
        ensures
            r.0 == chunk_coord(x),
            r.1 == chunk_coord(z),
    {
        (floor_div_16(x), floor_div_16(z))
    }

    /// Applies one decoded client message to the player list and returns the
    /// replies, each paired with the peer handle it is addressed to.
    ///
    /// A Connection message is forwarded to every existing player, the new
    /// peer receives the online player list, and the new player spawns at the
    /// origin at spawn height. A Movement message sets the position of every
    /// player connected from `peer`. A PositionRequest is answered with one
    /// PlayerPosition message per player carrying the requested name. Every
    /// other message kind is server-bound noise and is ignored.
    ///
    /// `narrowed` carries, per player, the current position narrowed to
    /// IEEE-754 32-bit bit patterns; the caller performs that one
    /// floating-point conversion, which cannot live in this library.
    pub fn handle_packet(
        players: &mut Vec<ConnectedPlayer>,
        packet: &Packet,
        peer: u64,
        narrowed: &Vec<(u32, u32, u32)>,
    ) -> (out: Vec<(u64, Packet)>)
        requires
            narrowed@.len() == old(players)@.len(),
        ensures
            match packet {
                Packet::Connection { user } => {
                    let n = old(players)@.len() as int;
                    &&& final(players)@.len() == n + 1
                    &&& (forall|i: int| 0 <= i < n ==> final(players)@[i] == old(players)@[i])
                    &&& final(players)@[n].player.name.name@ == user@
                    &&& final(players)@[n].position == (Position {
                        x: 0,
                        y: 0,
                        z: SPAWN_Z_BITS,
                    })
                    &&& final(players)@[n].peer == peer
                    &&& out@.len() == n + 1
                    &&& (forall|i: int|
                        0 <= i < n ==> (#[trigger] out@[i]).0 == old(players)@[i].peer)
                    &&& (forall|i: int|
                        0 <= i < n ==> ((#[trigger] out@[i]).1 matches Packet::Connection {
                            user: u,
                        } && u@ == user@))
                    &&& out@[n].0 == peer
                    &&& (out@[n].1 matches Packet::OnlinePlayers { players: ps } && ps@.len() == n
                        && (forall|i: int|
                        0 <= i < n ==> ((#[trigger] ps@[i]).name@
                            == old(players)@[i].player.name.name@ && ps@[i].x == narrowed@[i].0
                            && ps@[i].y == narrowed@[i].1 && ps@[i].z == narrowed@[i].2)))
                },
                Packet::Movement { delta_x, delta_y, delta_z } => {
                    &&& final(players)@.len() == old(players)@.len()
                    &&& (forall|i: int|
                        0 <= i < old(players)@.len() && old(players)@[i].peer == peer ==> (
                        #[trigger] final(players)@[i]).player == old(players)@[i].player && (#[trigger] final(players)@[i]).peer == old(players)@[i].peer && final(players)@[i].position == (
                        Position { x: *delta_x, y: *delta_y, z: *delta_z }))
                    &&& (forall|i: int|
                        0 <= i < old(players)@.len() && old(players)@[i].peer != peer ==> (
                        #[trigger] final(players)@[i]) == old(players)@[i])
                    &&& out@.len() == 0
                },
                Packet::PositionRequest { name } => {
                    let m = matching_players(old(players)@, name@);
                    &&& final(players)@ == old(players)@
                    &&& out@.len() == m.len()
                    &&& (forall|j: int| 0 <= j < m.len() ==> (#[trigger] out@[j]).0 == peer)
                    &&& (forall|j: int|
                        0 <= j < m.len() ==> ((#[trigger] out@[j]).1
                            matches Packet::PlayerPosition { x, y, z, name: n } && x
                            == m[j].position.x && y == m[j].position.y && z == m[j].position.z
                            && n@ == name@))
                },
                _ => final(players)@ == old(players)@ && out@.len() == 0,
            },
    {
        let mut out: Vec<(u64, Packet)> = Vec::new();
        match packet {
            Packet::Connection { user } => {
                let n: usize = players.len();
                let mut online: Vec<crate::network::OnlinePlayer> = Vec::new();
                let mut i: usize = 0;
                while i < n
                    invariant
                        n == players@.len(),
                        narrowed@.len() == n,
                        0 <= i <= n,
                        online@.len() == i,
                        out@.len() == i,
                        forall|j: int|
                            0 <= j < i ==> (#[trigger] out@[j]).0 == players@[j].peer,
                        forall|j: int|
                            0 <= j < i ==> ((#[trigger] out@[j]).1 matches Packet::Connection {
                                user: u,
                            } && u@ == user@),
                        forall|j: int|
                            0 <= j < i ==> ((#[trigger] online@[j]).name@
                                == players@[j].player.name.name@ && online@[j].x == narrowed@[j].0
                                && online@[j].y == narrowed@[j].1 && online@[j].z
                                == narrowed@[j].2),
                    decreases n - i,
                {
                    let target: u64 = players[i].peer;
                    out.push((target, Packet::Connection { user: user.clone() }));
                    let nar: (u32, u32, u32) = narrowed[i];
                    online.push(
                        crate::network::OnlinePlayer {
                            name: players[i].player.name.name.clone(),
                            x: nar.0,
                            y: nar.1,
                            z: nar.2,
                        },
                    );
                    i = i + 1;
                }
                out.push((peer, Packet::OnlinePlayers { players: online }));
                players.push(
                    ConnectedPlayer {
                        player: Player { name: PlayerName { name: user.clone() } },
                        position: Position { x: 0, y: 0, z: SPAWN_Z_BITS },
                        peer,
                    },
                );
                out
            },
            Packet::Movement { delta_x, delta_y, delta_z } => {
                let n: usize = players.len();
                let mut i: usize = 0;
                while i < n
                    invariant
                        n == players@.len(),
                        0 <= i <= n,
                        forall|j: int|
                            i <= j < n ==> (#[trigger] players@[j]) == old(players)@[j],
                        forall|j: int|
                            0 <= j < i && old(players)@[j].peer == peer ==> (
                            #[trigger] players@[j]).player == old(players)@[j].player
                                && players@[j].peer == old(players)@[j].peer
                                && players@[j].position == (Position {
                                x: *delta_x,
                                y: *delta_y,
                                z: *delta_z,
                            }),
                        forall|j: int|
                            0 <= j < i && old(players)@[j].peer != peer ==> (
                            #[trigger] players@[j]) == old(players)@[j],
                    decreases n - i,
                {
                    if players[i].peer == peer {
                        players[i].position = Position {
                            x: *delta_x,
                            y: *delta_y,
                            z: *delta_z,
                        };
                    }
                    i = i + 1;
                }
                out
            },
            Packet::PositionRequest { name } => {
                let n: usize = players.len();
                let mut i: usize = 0;
                while i < n
                    invariant
                        n == players@.len(),
                        0 <= i <= n,
                        players@ == old(players)@,
                        ({
                            let m = matching_players(players@.take(i as int), name@);
                            &&& out@.len() == m.len()
                            &&& (forall|j: int|
                                0 <= j < m.len() ==> (#[trigger] out@[j]).0 == peer)
                            &&& (forall|j: int|
                                0 <= j < m.len() ==> ((#[trigger] out@[j]).1
                                    matches Packet::PlayerPosition { x, y, z, name: nm } && x
                                    == m[j].position.x && y == m[j].position.y && z
                                    == m[j].position.z && nm@ == name@))
                        }),
                    decreases n - i,
                {
                    proof {
                        assert(players@.take(i as int + 1).drop_last() =~= players@.take(
                            i as int,
                        ));
                        assert(players@.take(i as int + 1).last() == players@[i as int]);
                    }
                    if players[i].player.name.name == *name {
                        let pos: Position = players[i].position;
                        out.push(
                            (
                                peer,
                                Packet::PlayerPosition {
                                    x: pos.x,
                                    y: pos.y,
                                    z: pos.z,
                                    name: name.clone(),
                                },
                            ),
                        );
                    }
                    i = i + 1;
                }
                proof {
                    assert(players@.take(n as int) =~= players@);
                }
                out
            },
            _ => { out },
        }
    }
}

} // verus!
