use rusted_cube::protocol::messages::PoseText;
use rusted_cube::protocol::Edit;
use rusted_cube::server::{Action, Event, Lobby};

#[test]
fn players_get_fresh_ids_in_order() {
    let mut lobby = Lobby::new(1337);
    assert_eq!(lobby.seed(), 1337);
    assert_eq!(lobby.join(), 1);
    assert_eq!(lobby.join(), 2);
    assert_eq!(lobby.join(), 3);
    assert_eq!(lobby.member_ids(), vec![1, 2, 3]);
    assert_eq!(lobby.others(2), vec![1, 3]);
    assert!(lobby.leave(2));
    assert!(!lobby.leave(2));
    assert!(!lobby.is_member(2));
    assert_eq!(lobby.join(), 4);
    assert_eq!(lobby.member_ids(), vec![1, 3, 4]);
    assert_eq!(lobby.next_id(), 5);
}

#[test]
fn the_latest_edit_per_cell_is_replayed() {
    let mut lobby = Lobby::new(9);
    assert!(lobby.snapshot().is_empty());
    lobby.record(Edit { position: [1, 2, 3], block: 4 });
    lobby.record(Edit { position: [-5, 6, -7], block: 0 });
    lobby.record(Edit { position: [1, 2, 3], block: 2 });
    let mut edits = lobby.snapshot();
    edits.sort_by_key(|edit| edit.position);
    assert_eq!(
        edits,
        vec![
            Edit { position: [-5, 6, -7], block: 0 },
            Edit { position: [1, 2, 3], block: 2 },
        ]
    );
}

#[test]
fn events_from_a_player_are_answered() {
    let mut lobby = Lobby::new(5);
    let a = lobby.join();
    let b = lobby.join();
    let c = lobby.join();
    match lobby.on_event(b, Event::Move(pose("1.5", "-2", "3"))) {
        Action::Broadcast(to) => assert_eq!(to, vec![a, c]),
        _ => panic!("a move goes to the others"),
    }
    let edit = Edit { position: [1, 2, 3], block: 5 };
    match lobby.on_event(a, Event::SetBlock(edit)) {
        Action::Broadcast(to) => assert_eq!(to, vec![b, c]),
        _ => panic!("an edit goes to the others"),
    }
    assert_eq!(lobby.snapshot(), vec![edit]);
    match lobby.on_event(c, Event::Ping(vec![7, 8])) {
        Action::Pong(payload) => assert_eq!(payload, vec![7, 8]),
        _ => panic!("a ping is answered"),
    }
    assert!(matches!(lobby.on_event(c, Event::Other), Action::Continue));
    assert!(matches!(lobby.on_event(c, Event::Close), Action::Stop));
    lobby.leave(c);
    assert!(matches!(lobby.on_event(c, Event::Move(pose("0", "0", "0"))), Action::Stop));
    assert!(matches!(
        lobby.on_event(c, Event::SetBlock(Edit { position: [0, 0, 0], block: 1 })),
        Action::Stop
    ));
    assert_eq!(lobby.snapshot(), vec![edit]);
}

fn pose(x: &str, y: &str, z: &str) -> PoseText {
    PoseText {
        x: x.to_string(),
        y: y.to_string(),
        z: z.to_string(),
        yaw: "0.25".to_string(),
        pitch: "-0.5".to_string(),
    }
}

fn texts(p: &PoseText) -> Vec<&str> {
    vec![p.x.as_str(), p.y.as_str(), p.z.as_str(), p.yaw.as_str(), p.pitch.as_str()]
}

#[test]
fn players_start_at_the_origin_and_keep_their_last_pose() {
    let mut lobby = Lobby::new(1);
    let a = lobby.join();
    let b = lobby.join();
    let listed = lobby.players_with_poses();
    assert_eq!(listed.len(), 2);
    assert_eq!((listed[0].0, listed[1].0), (a, b));
    assert_eq!(texts(&listed[1].1), vec!["0", "0", "0", "0", "0"]);
    lobby.on_event(b, Event::Move(pose("4.5", "20", "-7")));
    lobby.on_event(b, Event::Move(pose("5", "21", "-8")));
    let listed = lobby.players_with_poses();
    assert_eq!(texts(&listed[1].1), vec!["5", "21", "-8", "0.25", "-0.5"]);
    assert_eq!(texts(&listed[0].1), vec!["0", "0", "0", "0", "0"]);
    lobby.leave(a);
    let listed = lobby.players_with_poses();
    assert_eq!(listed.len(), 1);
    assert_eq!(listed[0].0, b);
}
