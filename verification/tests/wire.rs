use click_battler::game::ClientMessage;
use click_battler::game::GameController;
use click_battler::game::GameUpdate;
use click_battler::game::Player;
use click_battler::wire::encode_update;
use click_battler::wire::encode_world;
use click_battler::wire::parse_client_message;
use futures::channel::mpsc::channel;

#[test]
fn parses_heal() {
    assert_eq!(
        parse_client_message("{\"type\":\"HealSelf\"}"),
        Some(ClientMessage::HealSelf)
    );
}

#[test]
fn parses_attack_target() {
    match parse_client_message("{\"type\":\"AttackPlayer\",\"target\":7}") {
        Some(ClientMessage::AttackPlayer { target }) => assert_eq!(target.value(), 7),
        other => panic!("unexpected parse: {:?}", other),
    }
    match parse_client_message("{\"type\":\"AttackPlayer\",\"target\":0}") {
        Some(ClientMessage::AttackPlayer { target }) => assert_eq!(target.value(), 0),
        other => panic!("unexpected parse: {:?}", other),
    }
    match parse_client_message("{\"type\":\"AttackPlayer\",\"target\":18446744073709551615}") {
        Some(ClientMessage::AttackPlayer { target }) => assert_eq!(target.value(), u64::MAX),
        other => panic!("unexpected parse: {:?}", other),
    }
}

#[test]
fn drops_malformed_frames() {
    for frame in [
        "",
        "{}",
        "not json at all",
        "{\"type\":\"HealSelf\"} ",
        " {\"type\":\"HealSelf\"}",
        "{\"type\":\"healself\"}",
        "{\"type\":\"AttackPlayer\",\"target\":}",
        "{\"type\":\"AttackPlayer\",\"target\":01}",
        "{\"type\":\"AttackPlayer\",\"target\":-1}",
        "{\"type\":\"AttackPlayer\",\"target\":1x}",
        "{\"type\":\"AttackPlayer\",\"target\":1",
        "{\"type\":\"AttackPlayer\",\"target\":18446744073709551616}",
        "{\"type\":\"AttackPlayer\",\"target\":99999999999999999999999}",
    ] {
        assert_eq!(parse_client_message(frame), None, "frame: {:?}", frame);
    }
}

#[test]
fn parsed_attack_reaches_the_right_player() {
    let mut gc = GameController::new();
    let (tx1, _rx1) = channel::<String>(8);
    let (p1, _s1) = gc.client_connected(tx1);
    let (tx2, _rx2) = channel::<String>(8);
    let (p2, _s2) = gc.client_connected(tx2);
    let msg = parse_client_message("{\"type\":\"AttackPlayer\",\"target\":1}")
        .expect("a well-formed frame");
    let updates = gc.client_message(p1, msg);
    match &updates[0] {
        GameUpdate::WorldUpdate { players } => {
            assert_eq!(players[0].id, p1);
            assert_eq!(players[0].health, 10);
            assert_eq!(players[1].id, p2);
            assert_eq!(players[1].health, 9);
        }
        _ => panic!("expected a world update"),
    }
}

#[test]
fn encodes_updates_exactly() {
    let mut gc = GameController::new();
    let (tx1, _rx1) = channel::<String>(8);
    let (p1, _s1) = gc.client_connected(tx1);
    assert_eq!(
        encode_update(&GameUpdate::PlayerDied { id: p1 }),
        "{\"type\":\"PlayerDied\",\"id\":0}"
    );
    assert_eq!(
        encode_update(&GameUpdate::PlayerJoined {
            player: Player { id: p1, health: 3 }
        }),
        "{\"type\":\"PlayerJoined\",\"player\":{\"id\":0,\"health\":3}}"
    );
    assert_eq!(
        encode_update(&GameUpdate::WorldUpdate {
            players: vec![Player { id: p1, health: 10 }]
        }),
        "{\"type\":\"WorldUpdate\",\"players\":{\"0\":{\"id\":0,\"health\":10}}}"
    );
    assert_eq!(
        encode_update(&GameUpdate::WorldUpdate { players: vec![] }),
        "{\"type\":\"WorldUpdate\",\"players\":{}}"
    );
}

#[test]
fn encodes_multi_digit_numbers() {
    // A large identifier travels in through the parser and back out
    // through the encoder unchanged.
    let msg = parse_client_message("{\"type\":\"AttackPlayer\",\"target\":18446744073709551615}")
        .expect("a well-formed frame");
    let target = match msg {
        ClientMessage::AttackPlayer { target } => target,
        other => panic!("unexpected parse: {:?}", other),
    };
    assert_eq!(
        encode_update(&GameUpdate::PlayerDied { id: target }),
        "{\"type\":\"PlayerDied\",\"id\":18446744073709551615}"
    );
    let msg = parse_client_message("{\"type\":\"AttackPlayer\",\"target\":1024}")
        .expect("a well-formed frame");
    let target = match msg {
        ClientMessage::AttackPlayer { target } => target,
        other => panic!("unexpected parse: {:?}", other),
    };
    assert_eq!(
        encode_update(&GameUpdate::PlayerDied { id: target }),
        "{\"type\":\"PlayerDied\",\"id\":1024}"
    );
}

#[test]
fn encoded_world_is_well_formed_json() {
    let mut gc = GameController::new();
    let (tx1, _rx1) = channel::<String>(8);
    let (_p1, snap1) = gc.client_connected(tx1);
    let (tx2, _rx2) = channel::<String>(8);
    let (_p2, snap2) = gc.client_connected(tx2);
    for snap in [snap1, snap2] {
        let value: serde_json::Value = serde_json::from_str(&snap).expect("valid JSON");
        let object = value.as_object().expect("a JSON object");
        for (key, entry) in object {
            let id = entry.get("id").and_then(|v| v.as_u64()).expect("an id");
            assert_eq!(key, &id.to_string());
            let health = entry
                .get("health")
                .and_then(|v| v.as_u64())
                .expect("a health");
            assert_eq!(health, 10);
        }
    }
    let world = encode_world(&vec![]);
    assert_eq!(world, "{}");
}
