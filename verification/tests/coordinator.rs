use click_battler::game::ClientMessage;
use click_battler::game::GameController;
use click_battler::game::GameUpdate;
use futures::channel::mpsc::channel;
use futures::channel::mpsc::Receiver;

fn next_frame(rx: &mut Receiver<String>) -> String {
    rx.try_next()
        .expect("channel is empty or closed")
        .expect("channel terminated")
}

fn no_frame(rx: &mut Receiver<String>) -> bool {
    match rx.try_next() {
        Ok(Some(_)) => false,
        _ => true,
    }
}

#[test]
fn scenario_a_attack() {
    let mut gc = GameController::new();
    let (tx1, mut rx1) = channel::<String>(8);
    let (p1, snap1) = gc.client_connected(tx1);
    assert_eq!(snap1, "{\"0\":{\"id\":0,\"health\":10}}");
    let (tx2, mut rx2) = channel::<String>(8);
    let (p2, snap2) = gc.client_connected(tx2);
    assert_eq!(
        snap2,
        "{\"0\":{\"id\":0,\"health\":10},\"1\":{\"id\":1,\"health\":10}}"
    );
    // The earlier client sees the join; the new client does not receive
    // its own join event.
    assert_eq!(
        next_frame(&mut rx1),
        "{\"type\":\"PlayerJoined\",\"player\":{\"id\":1,\"health\":10}}"
    );
    assert!(no_frame(&mut rx2));
    // The first player attacks the second.
    let updates = gc.client_message(p1, ClientMessage::AttackPlayer { target: p2 });
    assert_eq!(updates.len(), 1);
    match &updates[0] {
        GameUpdate::WorldUpdate { players } => {
            assert_eq!(players.len(), 2);
            assert_eq!(players[0].id, p1);
            assert_eq!(players[0].health, 10);
            assert_eq!(players[1].id, p2);
            assert_eq!(players[1].health, 9);
        }
        _ => panic!("expected a world update"),
    }
    let world =
        "{\"type\":\"WorldUpdate\",\"players\":{\"0\":{\"id\":0,\"health\":10},\"1\":{\"id\":1,\"health\":9}}}";
    assert_eq!(next_frame(&mut rx1), world);
    assert_eq!(next_frame(&mut rx2), world);
}

#[test]
fn scenario_b_tick_to_death() {
    let mut gc = GameController::new();
    let (tx1, mut rx1) = channel::<String>(64);
    let (_p1, snap) = gc.client_connected(tx1);
    assert_eq!(snap, "{\"0\":{\"id\":0,\"health\":10}}");
    for round in 0..9 {
        let updates = gc.tick_player_health();
        assert_eq!(updates.len(), 1, "no deaths expected in round {}", round);
    }
    while let Ok(Some(_)) = rx1.try_next() {}
    // Health is now 1; the next tick kills, announcing the death before
    // the (empty) world snapshot.
    let updates = gc.tick_player_health();
    assert_eq!(updates.len(), 2);
    assert!(matches!(updates[0], GameUpdate::PlayerDied { .. }));
    assert!(matches!(&updates[1], GameUpdate::WorldUpdate { players } if players.is_empty()));
    assert_eq!(next_frame(&mut rx1), "{\"type\":\"PlayerDied\",\"id\":0}");
    assert_eq!(
        next_frame(&mut rx1),
        "{\"type\":\"WorldUpdate\",\"players\":{}}"
    );
}

#[test]
fn scenario_c_stale_action_after_disconnect() {
    let mut gc = GameController::new();
    let (tx1, mut rx1) = channel::<String>(8);
    let (p1, _snap) = gc.client_connected(tx1);
    gc.client_disconnected(p1);
    // A stray action racing with the disconnect: no mutation, no
    // broadcast, no panic.
    let updates = gc.client_message(p1, ClientMessage::HealSelf);
    assert!(updates.is_empty());
    assert!(no_frame(&mut rx1));
}

#[test]
fn scenario_d_closed_channel_does_not_block_others() {
    let mut gc = GameController::new();
    let (tx1, mut rx1) = channel::<String>(8);
    let (p1, _s1) = gc.client_connected(tx1);
    let (tx2, rx2) = channel::<String>(8);
    let (_p2, _s2) = gc.client_connected(tx2);
    // The second client's channel is closed before the broadcast.
    drop(rx2);
    let updates = gc.client_message(p1, ClientMessage::HealSelf);
    assert_eq!(updates.len(), 1);
    // The first client still receives the join and then the update.
    assert_eq!(
        next_frame(&mut rx1),
        "{\"type\":\"PlayerJoined\",\"player\":{\"id\":1,\"health\":10}}"
    );
    assert_eq!(
        next_frame(&mut rx1),
        "{\"type\":\"WorldUpdate\",\"players\":{\"0\":{\"id\":0,\"health\":11},\"1\":{\"id\":1,\"health\":10}}}"
    );
}

#[test]
fn scenario_d_full_channel_drops_frame_for_that_client_only() {
    let mut gc = GameController::new();
    let (tx1, mut rx1) = channel::<String>(64);
    let (p1, _s1) = gc.client_connected(tx1);
    // A tiny buffer for the second client; it never drains it.
    let (tx2, mut rx2) = channel::<String>(0);
    let (_p2, _s2) = gc.client_connected(tx2);
    while let Ok(Some(_)) = rx1.try_next() {}
    let first = gc.client_message(p1, ClientMessage::HealSelf);
    assert_eq!(first.len(), 1);
    let second = gc.client_message(p1, ClientMessage::HealSelf);
    assert_eq!(second.len(), 1);
    // The first client got both world updates; the stalled client's
    // extra frames were dropped, not queued without bound.
    assert_eq!(
        next_frame(&mut rx1),
        "{\"type\":\"WorldUpdate\",\"players\":{\"0\":{\"id\":0,\"health\":11},\"1\":{\"id\":1,\"health\":10}}}"
    );
    assert_eq!(
        next_frame(&mut rx1),
        "{\"type\":\"WorldUpdate\",\"players\":{\"0\":{\"id\":0,\"health\":12},\"1\":{\"id\":1,\"health\":10}}}"
    );
    let mut delivered = 0;
    while let Ok(Some(_)) = rx2.try_next() {
        delivered += 1;
    }
    assert!(delivered >= 1);
    assert!(delivered < 2);
}

#[test]
fn disconnect_twice_has_the_effect_of_once() {
    let mut gc = GameController::new();
    let (tx1, mut rx1) = channel::<String>(8);
    let (p1, _s1) = gc.client_connected(tx1);
    let (tx2, _rx2) = channel::<String>(8);
    let (p2, _s2) = gc.client_connected(tx2);
    gc.client_disconnected(p2);
    gc.client_disconnected(p2);
    // The remaining player still works and the registry holds only it.
    let updates = gc.client_message(p1, ClientMessage::HealSelf);
    assert_eq!(updates.len(), 1);
    match &updates[0] {
        GameUpdate::WorldUpdate { players } => {
            assert_eq!(players.len(), 1);
            assert_eq!(players[0].id, p1);
            assert_eq!(players[0].health, 11);
        }
        _ => panic!("expected a world update"),
    }
    while let Ok(Some(_)) = rx1.try_next() {}
}

#[test]
fn tick_decrements_every_live_player_by_one() {
    let mut gc = GameController::new();
    let (tx1, _rx1) = channel::<String>(64);
    let (_p1, _s1) = gc.client_connected(tx1);
    let (tx2, _rx2) = channel::<String>(64);
    let (p2, _s2) = gc.client_connected(tx2);
    for _ in 0..3 {
        gc.client_message(p2, ClientMessage::HealSelf);
    }
    let updates = gc.tick_player_health();
    assert_eq!(updates.len(), 1);
    match &updates[0] {
        GameUpdate::WorldUpdate { players } => {
            assert_eq!(players.len(), 2);
            assert_eq!(players[0].health, 9);
            assert_eq!(players[1].health, 12);
        }
        _ => panic!("expected a world update"),
    }
}

#[test]
fn identifiers_are_never_reused() {
    let mut gc = GameController::new();
    let (tx1, _rx1) = channel::<String>(8);
    let (p1, _s1) = gc.client_connected(tx1);
    let (tx2, _rx2) = channel::<String>(8);
    let (p2, _s2) = gc.client_connected(tx2);
    gc.client_disconnected(p1);
    gc.client_disconnected(p2);
    let (tx3, _rx3) = channel::<String>(8);
    let (p3, snap3) = gc.client_connected(tx3);
    assert_ne!(p3, p1);
    assert_ne!(p3, p2);
    assert_eq!(snap3, "{\"2\":{\"id\":2,\"health\":10}}");
}

#[test]
fn attack_kill_announces_death_before_world() {
    let mut gc = GameController::new();
    let (tx1, mut rx1) = channel::<String>(64);
    let (p1, _s1) = gc.client_connected(tx1);
    let (tx2, _rx2) = channel::<String>(64);
    let (p2, _s2) = gc.client_connected(tx2);
    // Wear the target down to health 1, then land the killing blow.
    for _ in 0..9 {
        gc.client_message(p1, ClientMessage::AttackPlayer { target: p2 });
    }
    while let Ok(Some(_)) = rx1.try_next() {}
    let updates = gc.client_message(p1, ClientMessage::AttackPlayer { target: p2 });
    assert_eq!(updates.len(), 2);
    assert!(matches!(&updates[0], GameUpdate::PlayerDied { id } if *id == p2));
    assert!(matches!(&updates[1], GameUpdate::WorldUpdate { players } if players.len() == 1));
    assert_eq!(next_frame(&mut rx1), "{\"type\":\"PlayerDied\",\"id\":1}");
    assert_eq!(
        next_frame(&mut rx1),
        "{\"type\":\"WorldUpdate\",\"players\":{\"0\":{\"id\":0,\"health\":10}}}"
    );
}

#[test]
fn attack_on_a_dead_target_still_broadcasts_the_world() {
    let mut gc = GameController::new();
    let (tx1, _rx1) = channel::<String>(64);
    let (p1, _s1) = gc.client_connected(tx1);
    let (tx2, _rx2) = channel::<String>(64);
    let (p2, _s2) = gc.client_connected(tx2);
    for _ in 0..10 {
        gc.client_message(p1, ClientMessage::AttackPlayer { target: p2 });
    }
    // The target is gone; the attack does nothing but the action still
    // ends in one world broadcast, since the actor is live.
    let updates = gc.client_message(p1, ClientMessage::AttackPlayer { target: p2 });
    assert_eq!(updates.len(), 1);
    assert!(matches!(&updates[0], GameUpdate::WorldUpdate { players } if players.len() == 1));
}

#[test]
fn tick_with_no_players_broadcasts_an_empty_world() {
    let mut gc = GameController::new();
    let updates = gc.tick_player_health();
    assert_eq!(updates.len(), 1);
    assert!(matches!(&updates[0], GameUpdate::WorldUpdate { players } if players.is_empty()));
}

#[test]
fn default_controller_is_empty() {
    let mut gc = GameController::default();
    let (tx1, _rx1) = channel::<String>(8);
    let (_p1, snap) = gc.client_connected(tx1);
    assert_eq!(snap, "{\"0\":{\"id\":0,\"health\":10}}");
}
