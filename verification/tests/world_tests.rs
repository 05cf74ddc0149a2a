use gridgame::actor::{parse_command, process_message, ActorState, Command, ConnectionActor};
use gridgame::protocol::{MessagePacket, RawPacket};
use gridgame::registry::SlotRegistry;
use gridgame::store::{Mutation, StoreError, WorldInterface};
use gridgame::world::World;

#[test]
fn world_spawn_and_update_message() {
    let mut w = World::new();
    assert_eq!(w.update_message(), "update 0 ");
    w.add_player(7);
    assert_eq!(w.update_message(), "update 1 7 3 3");
    w.add_player(2);
    assert_eq!(w.update_message(), "update 2 7 3 3 2 3 3");
    w.remove_player(7);
    assert_eq!(w.update_message(), "update 1 2 3 3");
}

#[test]
fn world_move_clamps_to_grid() {
    let mut w = World::new();
    w.add_player(1);
    w.move_player(1, 100, -100);
    assert_eq!(w.update_message(), "update 1 1 7 0");
    w.move_player(1, i32::MAX, i32::MIN);
    assert_eq!(w.update_message(), "update 1 1 7 0");
    w.move_player(1, -3, 4);
    assert_eq!(w.update_message(), "update 1 1 4 4");
}

#[test]
fn world_move_at_lower_bound_stays_put() {
    let mut w = World::new();
    w.add_player(7);
    // Walk to (0, 3) first.
    w.move_player(7, -3, 0);
    assert_eq!(w.update_message(), "update 1 7 0 3");
    // Two further pushes against the wall change nothing.
    w.move_player(7, -1, 0);
    assert_eq!(w.update_message(), "update 1 7 0 3");
    w.move_player(7, -1, 0);
    assert_eq!(w.update_message(), "update 1 7 0 3");
}

#[test]
fn world_move_unknown_id_is_a_no_op() {
    let mut w = World::new();
    w.add_player(1);
    w.move_player(9, 1, 1);
    assert_eq!(w.update_message(), "update 1 1 3 3");
    w.remove_player(9);
    assert_eq!(w.update_message(), "update 1 1 3 3");
}

#[test]
fn registry_exhaust_then_reuse() {
    let mut reg = SlotRegistry::new(3);
    assert_eq!(reg.allocate(), Some(0));
    assert_eq!(reg.allocate(), Some(1));
    assert_eq!(reg.allocate(), Some(2));
    assert_eq!(reg.allocate(), None);
    reg.free(1);
    assert_eq!(reg.allocate(), Some(1));
    assert_eq!(reg.allocate(), None);
    // Freeing twice is harmless.
    reg.free(2);
    reg.free(2);
    assert_eq!(reg.allocate(), Some(2));
}

#[test]
fn store_applies_queued_mutations_in_order() {
    let mut store = WorldInterface::new(World::new(), 16);
    store.add_player(1).unwrap();
    store.add_player(2).unwrap();
    store.move_player(1, -9, 9).unwrap();
    store.remove_player(2).unwrap();
    // Nothing is visible before the consumer drains.
    assert_eq!(store.update_message(), "update 0 ");
    store.drain();
    assert_eq!(store.update_message(), "update 1 1 0 7");
}

#[test]
fn store_rejects_writes_beyond_capacity() {
    let mut store = WorldInterface::new(World::new(), 2);
    assert!(store.add_player(1).is_ok());
    assert!(store.move_player(1, 1, 0).is_ok());
    assert_eq!(store.move_player(1, 0, 1), Err(StoreError::QueueSaturated));
    store.drain();
    assert!(store.move_player(1, 0, 1).is_ok());
    store.drain();
    assert_eq!(store.update_message(), "update 1 1 4 4");
}

#[test]
fn concurrent_moves_each_apply_exactly_once() {
    // One mutation per connection, arriving in some arbitrary
    // interleaving: after the drain every move has taken effect once.
    let n = 8u32;
    let mut store = WorldInterface::new(World::new(), 64);
    for id in 0..n {
        store.add_player(id).unwrap();
    }
    for id in 0..n {
        store.move_player(id, id as i32, -(id as i32)).unwrap();
    }
    store.drain();
    let msg = store.update_message();
    let fields: Vec<&str> = msg.split(' ').collect();
    assert_eq!(fields[0], "update");
    assert_eq!(fields[1], "8");
    for id in 0..n as usize {
        let x: i32 = fields[2 + 3 * id + 1].parse().unwrap();
        let z: i32 = fields[2 + 3 * id + 2].parse().unwrap();
        assert_eq!(x, (3 + id as i32).min(7));
        assert_eq!(z, (3 - id as i32).max(0));
    }
}

#[test]
fn parse_command_cases() {
    assert_eq!(parse_command(b"ping"), Command::Ping);
    assert_eq!(parse_command(b"  ping  \n"), Command::Ping);
    assert_eq!(parse_command(b"update"), Command::Update);
    assert_eq!(parse_command(b"move 7 -1 0"), Command::Move { id: 7, dx: -1, dz: 0 });
    assert_eq!(parse_command(b"move\t3 +2 -2\r\n"), Command::Move { id: 3, dx: 2, dz: -2 });
    assert_eq!(parse_command(b"move 1 2"), Command::Malformed);
    assert_eq!(parse_command(b"move 1 2 3 4"), Command::Malformed);
    assert_eq!(parse_command(b"move a 2 3"), Command::Malformed);
    assert_eq!(parse_command(b"move 4294967296 0 0"), Command::Malformed);
    assert_eq!(parse_command(b"hello"), Command::Malformed);
    assert_eq!(parse_command(b""), Command::Malformed);
    assert_eq!(parse_command(b"   "), Command::Malformed);
}

#[test]
fn process_message_dispatch() {
    let mut store = WorldInterface::new(World::new(), 8);
    store.add_player(7).unwrap();
    store.drain();

    assert_eq!(process_message(&mut store, "ping"), Ok(Some("pong".to_string())));
    assert_eq!(process_message(&mut store, "update"), Ok(Some("update 1 7 3 3".to_string())));
    assert_eq!(process_message(&mut store, "move 7 -9 0"), Ok(None));
    assert_eq!(process_message(&mut store, "gibberish"), Ok(None));
    store.drain();
    assert_eq!(store.update_message(), "update 1 7 0 3");
}

#[test]
fn process_message_signals_saturation() {
    let mut store = WorldInterface::new(World::new(), 0);
    assert_eq!(
        process_message(&mut store, "move 1 0 0"),
        Err(StoreError::QueueSaturated)
    );
    // Reads still work when the queue is full.
    assert_eq!(process_message(&mut store, "ping"), Ok(Some("pong".to_string())));
}

#[test]
fn connection_lifecycle() {
    let mut store = WorldInterface::new(World::new(), 8);
    let mut actor = ConnectionActor::new(5);
    assert_eq!(actor.state(), ActorState::Handshaking);

    let greeting = actor.handshake(&mut store).unwrap();
    assert_eq!(greeting, "init 5");
    assert_eq!(actor.state(), ActorState::Active);
    store.drain();
    assert_eq!(store.update_message(), "update 1 5 3 3");

    // A ping frame is answered with a pong echoing the timestamp.
    let frame = MessagePacket::new(99, "ping").as_raw().as_bytes();
    let reply = actor.on_frame(&mut store, &frame).unwrap().unwrap();
    assert_eq!(reply.time, 99);
    assert_eq!(reply.msg, "pong");

    // A move frame yields no reply but reaches the world.
    let frame = MessagePacket::new(100, "move 5 4 4").as_raw().as_bytes();
    assert!(actor.on_frame(&mut store, &frame).unwrap().is_none());
    store.drain();

    // An update frame reports the committed state.
    let frame = MessagePacket::new(101, "update").as_raw().as_bytes();
    let reply = actor.on_frame(&mut store, &frame).unwrap().unwrap();
    assert_eq!(reply.time, 101);
    assert_eq!(reply.msg, "update 1 5 7 7");

    // A corrupt frame is dropped and the connection lives on.
    assert!(actor.on_frame(&mut store, &[1, 0]).unwrap().is_none());

    actor.on_disconnect(&mut store).unwrap();
    assert_eq!(actor.state(), ActorState::Closed);
    store.drain();
    assert_eq!(store.update_message(), "update 0 ");
}

#[test]
fn disconnect_retries_when_queue_is_full() {
    let mut store = WorldInterface::new(World::new(), 1);
    let mut actor = ConnectionActor::new(2);
    actor.handshake(&mut store).unwrap();

    // Fill the queue so the removal is rejected, then retried.
    assert_eq!(actor.on_disconnect(&mut store), Err(StoreError::QueueSaturated));
    assert_eq!(actor.state(), ActorState::Closing);
    store.drain();
    assert!(actor.on_disconnect(&mut store).is_ok());
    assert_eq!(actor.state(), ActorState::Closed);
    store.drain();
    assert_eq!(store.update_message(), "update 0 ");
}

#[test]
fn mutations_compare_by_fields() {
    assert_eq!(Mutation::AddPlayer(3), Mutation::AddPlayer(3));
    assert_ne!(Mutation::MovePlayer(1, 2, 3), Mutation::MovePlayer(1, 2, 4));
    let raw = RawPacket::new(gridgame::protocol::PacketType::raw(), &[]);
    assert_eq!(raw.data().len(), 0);
}
