use rusted_cube::protocol::messages::{EditText, PoseText};
use rusted_cube::protocol::numbers::{edit_from_text, id_from_text, Reading};
use rusted_cube::protocol::Edit;
use rusted_cube::session::{multiplayer_url, ServerUpdate, Session, SessionStep};

fn pose(x: &str) -> PoseText {
    PoseText {
        x: x.to_string(),
        y: "20".to_string(),
        z: "0".to_string(),
        yaw: "0".to_string(),
        pitch: "0".to_string(),
    }
}

fn edit_text(x: &str, y: &str, z: &str, block: &str) -> EditText {
    EditText {
        x: x.to_string(),
        y: y.to_string(),
        z: z.to_string(),
        block: block.to_string(),
    }
}

fn sorted(mut ids: Vec<u32>) -> Vec<u32> {
    ids.sort();
    ids
}

#[test]
fn a_welcome_sets_the_id_and_seed_and_asks_for_a_rebuild() {
    let mut session = Session::new(1337);
    assert_eq!(session.id(), None);
    assert_eq!(session.seed(), 1337);
    let edit = Edit { position: [0, 20, 0], block: 3 };
    let step = session.on_message(ServerUpdate::Welcome {
        id: 5,
        seed: 42,
        edits: vec![edit],
        players: vec![(2, pose("1")), (3, pose("2")), (2, pose("3"))],
    });
    assert_eq!(session.id(), Some(5));
    assert_eq!(session.seed(), 42);
    assert_eq!(sorted(session.remote_players()), vec![2, 3]);
    match step {
        SessionStep::Rebuild { seed, edits, players } => {
            assert_eq!(seed, 42);
            assert_eq!(edits, vec![edit]);
            assert_eq!(players.len(), 3);
            assert_eq!(players[2].1.x, "3");
        }
        _ => panic!("a welcome rebuilds the world"),
    }
}

#[test]
fn players_come_move_and_go() {
    let mut session = Session::new(1);
    match session.on_message(ServerUpdate::PlayerJoined { id: 7, pose: pose("4") }) {
        SessionStep::Spawn(id, p) => {
            assert_eq!(id, 7);
            assert_eq!(p.x, "4");
        }
        _ => panic!("a newcomer is shown"),
    }
    match session.on_message(ServerUpdate::PlayerMoved { id: 8, pose: pose("5") }) {
        SessionStep::Follow(id, p) => {
            assert_eq!(id, 8);
            assert_eq!(p.x, "5");
        }
        _ => panic!("a move is followed"),
    }
    assert_eq!(sorted(session.remote_players()), vec![7, 8]);
    session.on_message(ServerUpdate::PlayerMoved { id: 7, pose: pose("6") });
    assert_eq!(sorted(session.remote_players()), vec![7, 8]);
    match session.on_message(ServerUpdate::PlayerLeft { id: 7 }) {
        SessionStep::Despawn(id) => assert_eq!(id, 7),
        _ => panic!("a leaver is dropped"),
    }
    assert_eq!(session.remote_players(), vec![8]);
    session.on_message(ServerUpdate::PlayerLeft { id: 99 });
    assert_eq!(session.remote_players(), vec![8]);
}

#[test]
fn block_changes_are_applied_and_a_closed_socket_shows_nobody() {
    let mut session = Session::new(1);
    session.on_message(ServerUpdate::PlayerJoined { id: 3, pose: pose("0") });
    let edit = Edit { position: [1, 2, 3], block: 4 };
    match session.on_message(ServerUpdate::BlockChanged { edit }) {
        SessionStep::Apply(e) => assert_eq!(e, edit),
        _ => panic!("a block change is applied"),
    }
    assert_eq!(session.remote_players(), vec![3]);
    session.on_closed();
    assert!(session.remote_players().is_empty());
    assert_eq!(session.seed(), 1);
}

#[test]
fn multiplayer_needs_the_page_marker() {
    assert_eq!(
        multiplayer_url(Some("1"), "http:", "192.168.1.4:8118"),
        Some("ws://192.168.1.4:8118/ws".to_string())
    );
    assert_eq!(
        multiplayer_url(Some("1"), "https:", "cube.example"),
        Some("wss://cube.example/ws".to_string())
    );
    assert_eq!(multiplayer_url(Some("0"), "http:", "localhost"), None);
    assert_eq!(multiplayer_url(Some("1 "), "http:", "localhost"), None);
    assert_eq!(multiplayer_url(None, "https:", "localhost"), None);
}

#[test]
fn ids_are_whole_numbers_within_u32() {
    assert!(matches!(id_from_text("42"), Reading::Whole(Some(42))));
    assert!(matches!(id_from_text("-0"), Reading::Whole(Some(0))));
    assert!(matches!(id_from_text("4294967295"), Reading::Whole(Some(4294967295))));
    assert!(matches!(id_from_text("4294967296"), Reading::Whole(None)));
    assert!(matches!(id_from_text("-1"), Reading::Whole(None)));
    assert!(matches!(id_from_text("123456789012345678901234567890"), Reading::Whole(None)));
    assert!(matches!(id_from_text("1.5"), Reading::NotWhole));
    assert!(matches!(id_from_text("1e3"), Reading::NotWhole));
    assert!(matches!(id_from_text("-"), Reading::NotWhole));
    assert!(matches!(id_from_text(""), Reading::NotWhole));
}

#[test]
fn edits_read_their_whole_numbers() {
    match edit_from_text(&edit_text("-3", "20", "7", "4")) {
        Reading::Whole(Some(edit)) => assert_eq!(edit, Edit { position: [-3, 20, 7], block: 4 }),
        _ => panic!("a written edit reads back"),
    }
    match edit_from_text(&edit_text("99999999999", "-99999999999", "0", "255")) {
        Reading::Whole(Some(edit)) => {
            assert_eq!(edit, Edit { position: [i32::MAX, i32::MIN, 0], block: 255 })
        }
        _ => panic!("coordinates saturate"),
    }
    assert!(matches!(edit_from_text(&edit_text("0", "0", "0", "256")), Reading::Whole(None)));
    assert!(matches!(edit_from_text(&edit_text("0", "0", "0", "-1")), Reading::Whole(None)));
    assert!(matches!(edit_from_text(&edit_text("0.5", "0", "0", "1")), Reading::NotWhole));
}
