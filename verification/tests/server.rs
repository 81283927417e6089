use yave::network::Packet;
use yave::server::{ConnectedPlayer, Game, Player, PlayerName, Position, SPAWN_Z_BITS};
use yave::world::Chunks;

fn player(name: &str, peer: u64, x: f64, y: f64, z: f64) -> ConnectedPlayer {
    ConnectedPlayer {
        player: Player { name: PlayerName { name: String::from(name) } },
        position: Position { x: x.to_bits(), y: y.to_bits(), z: z.to_bits() },
        peer,
    }
}

#[test]
fn world_position_maps_to_chunk_coordinate() {
    // A player at world position (20, y, 5) stands in chunk (1, 0).
    assert_eq!(Game::world_to_chunk(20, 5), (1, 0));
    assert_eq!(Game::world_to_chunk(0, 15), (0, 0));
    assert_eq!(Game::world_to_chunk(16, 16), (1, 1));
    // Negative world coordinates floor toward the next chunk down.
    assert_eq!(Game::world_to_chunk(-1, -16), (-1, -1));
    assert_eq!(Game::world_to_chunk(-17, 31), (-2, 1));
}

#[test]
fn tick_generates_missing_chunk_once() {
    let mut chunks = Chunks::default();
    let coords = vec![Game::world_to_chunk(20, 5)];
    let out = Game::update_chunks(&mut chunks, &coords);

    // Exactly one Chunk message for the newly generated chunk.
    assert_eq!(out.len(), 1);
    match &out[0] {
        Packet::Chunk { x, y, groups } => {
            assert_eq!((*x, *y), (1, 0));
            assert_eq!(groups.len(), 1);
            assert_eq!(groups[0].id, "base:stone");
            assert_eq!(groups[0].count, 4096);
        }
        other => panic!("expected a Chunk message, got {:?}", other),
    }
    assert_eq!(chunks.chunks.len(), 1);
    assert_eq!((chunks.chunks[0].x, chunks.chunks[0].y), (1, 0));

    // A second tick with the same player finds the chunk loaded and is idle.
    let out = Game::update_chunks(&mut chunks, &coords);
    assert!(out.is_empty());
    assert_eq!(chunks.chunks.len(), 1);
}

#[test]
fn tick_unloads_abandoned_chunks_first() {
    let mut chunks = Chunks::default();
    let out = Game::update_chunks(&mut chunks, &vec![(5, 5)]);
    assert_eq!(out.len(), 1);

    // The player moves to another chunk: the old one is unloaded before the
    // new one is announced.
    let out = Game::update_chunks(&mut chunks, &vec![(0, 0)]);
    assert_eq!(out.len(), 2);
    assert_eq!(out[0], Packet::UnloadChunk { x: 5, y: 5 });
    match &out[1] {
        Packet::Chunk { x, y, .. } => assert_eq!((*x, *y), (0, 0)),
        other => panic!("expected a Chunk message, got {:?}", other),
    }
    assert_eq!(chunks.chunks.len(), 1);
    assert_eq!((chunks.chunks[0].x, chunks.chunks[0].y), (0, 0));
}

#[test]
fn tick_deduplicates_shared_player_chunks() {
    let mut chunks = Chunks::default();
    // Two players in the same chunk, one elsewhere.
    let coords = vec![(3, 3), (3, 3), (-1, 0)];
    let out = Game::update_chunks(&mut chunks, &coords);
    assert_eq!(out.len(), 2);
    assert_eq!(chunks.chunks.len(), 2);
}

#[test]
fn connection_notifies_and_spawns() {
    let mut players = vec![player("steve", 11, 1.0, 2.0, 3.0)];
    let narrowed = vec![((1.0f32).to_bits(), (2.0f32).to_bits(), (3.0f32).to_bits())];
    let packet = Packet::Connection { user: String::from("alex") };
    let out = Game::handle_packet(&mut players, &packet, 22, &narrowed);

    // The existing player hears of the connection.
    assert_eq!(out.len(), 2);
    assert_eq!(out[0].0, 11);
    assert_eq!(out[0].1, Packet::Connection { user: String::from("alex") });

    // The new peer receives the online player list.
    assert_eq!(out[1].0, 22);
    match &out[1].1 {
        Packet::OnlinePlayers { players: ps } => {
            assert_eq!(ps.len(), 1);
            assert_eq!(ps[0].name, "steve");
            assert_eq!(ps[0].x, (1.0f32).to_bits());
            assert_eq!(ps[0].z, (3.0f32).to_bits());
        }
        other => panic!("expected an OnlinePlayers message, got {:?}", other),
    }

    // The new player is spawned at the origin, at spawn height.
    assert_eq!(players.len(), 2);
    assert_eq!(players[1].player.name.name, "alex");
    assert_eq!(players[1].peer, 22);
    assert_eq!(players[1].position, Position { x: 0, y: 0, z: SPAWN_Z_BITS });
    assert_eq!(SPAWN_Z_BITS, (10.0f64).to_bits());
}

#[test]
fn movement_updates_matching_peer_only() {
    let mut players = vec![player("steve", 11, 0.0, 0.0, 0.0), player("alex", 22, 5.0, 5.0, 5.0)];
    let narrowed = vec![(0, 0, 0), (0, 0, 0)];
    let packet = Packet::Movement {
        delta_x: (20.0f64).to_bits(),
        delta_y: (64.0f64).to_bits(),
        delta_z: (5.0f64).to_bits(),
    };
    let out = Game::handle_packet(&mut players, &packet, 11, &narrowed);
    assert!(out.is_empty());
    assert_eq!(players[0].position.x, (20.0f64).to_bits());
    assert_eq!(players[0].position.y, (64.0f64).to_bits());
    assert_eq!(players[0].position.z, (5.0f64).to_bits());
    assert_eq!(players[1].position.x, (5.0f64).to_bits());
}

#[test]
fn position_request_answers_per_matching_name() {
    let mut players = vec![player("steve", 11, 7.0, 8.0, 9.0), player("alex", 22, 1.0, 1.0, 1.0)];
    let narrowed = vec![(0, 0, 0), (0, 0, 0)];
    let packet = Packet::PositionRequest { name: String::from("steve") };
    let out = Game::handle_packet(&mut players, &packet, 22, &narrowed);
    assert_eq!(out.len(), 1);
    assert_eq!(out[0].0, 22);
    assert_eq!(
        out[0].1,
        Packet::PlayerPosition {
            x: (7.0f64).to_bits(),
            y: (8.0f64).to_bits(),
            z: (9.0f64).to_bits(),
            name: String::from("steve"),
        }
    );

    let packet = Packet::PositionRequest { name: String::from("nobody") };
    let out = Game::handle_packet(&mut players, &packet, 22, &narrowed);
    assert!(out.is_empty());
}

#[test]
fn server_ignores_server_bound_noise() {
    let mut players = vec![player("steve", 11, 0.0, 0.0, 0.0)];
    let narrowed = vec![(0, 0, 0)];
    let packet = Packet::UnloadChunk { x: 1, y: 1 };
    let out = Game::handle_packet(&mut players, &packet, 11, &narrowed);
    assert!(out.is_empty());
    assert_eq!(players.len(), 1);
}

#[test]
fn connection_to_empty_server() {
    let mut players = Vec::new();
    let narrowed = Vec::new();
    let packet = Packet::Connection { user: String::from("first") };
    let out = Game::handle_packet(&mut players, &packet, 7, &narrowed);
    // No existing players to notify; only the (empty) online list goes back.
    assert_eq!(out.len(), 1);
    assert_eq!(out[0].0, 7);
    assert_eq!(out[0].1, Packet::OnlinePlayers { players: Vec::new() });
    assert_eq!(players.len(), 1);
}

#[test]
fn position_request_answers_every_matching_player() {
    let mut players = vec![
        player("twin", 1, 1.0, 0.0, 0.0),
        player("other", 2, 9.0, 9.0, 9.0),
        player("twin", 3, 2.0, 0.0, 0.0),
    ];
    let narrowed = vec![(0, 0, 0), (0, 0, 0), (0, 0, 0)];
    let packet = Packet::PositionRequest { name: String::from("twin") };
    let out = Game::handle_packet(&mut players, &packet, 5, &narrowed);
    assert_eq!(out.len(), 2);
    match (&out[0].1, &out[1].1) {
        (
            Packet::PlayerPosition { x: x0, .. },
            Packet::PlayerPosition { x: x1, .. },
        ) => {
            assert_eq!(f64::from_bits(*x0), 1.0);
            assert_eq!(f64::from_bits(*x1), 2.0);
        }
        other => panic!("expected two PlayerPosition messages, got {:?}", other),
    }
}

#[test]
fn tick_with_no_players_unloads_everything() {
    let mut chunks = Chunks::default();
    let _ = Game::update_chunks(&mut chunks, &vec![(0, 0), (1, 1)]);
    assert_eq!(chunks.chunks.len(), 2);

    let out = Game::update_chunks(&mut chunks, &Vec::new());
    assert_eq!(out.len(), 2);
    assert_eq!(out[0], Packet::UnloadChunk { x: 0, y: 0 });
    assert_eq!(out[1], Packet::UnloadChunk { x: 1, y: 1 });
    assert!(chunks.chunks.is_empty());
}
