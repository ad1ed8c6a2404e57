use rusted_cube::protocol::messages::{decode_client, decode_server, ClientMessageText, ServerMessageText};
use rusted_cube::protocol::{write_edit, Edit, Json, DEFAULT_PORT};

#[test]
fn parser_handles_whitespace_and_escapes() {
    let value = Json::parse(" { \"a\" : [ 1 , 2.5 ] , \"b\" : \"x\\ny\" } ").expect("parses");
    assert_eq!(value.get("a").and_then(Json::as_array).map(Vec::len), Some(2));
    assert_eq!(value.get("b").and_then(Json::as_str), Some("x\ny"));
}

#[test]
fn numbers_keep_their_text() {
    let value = Json::parse("[-7, 2.5e3, 0]").expect("parses");
    let items = value.as_array().expect("array");
    assert_eq!(items[0].as_number(), Some("-7"));
    assert_eq!(items[1].as_number(), Some("2.5e3"));
    assert_eq!(items[2].as_number(), Some("0"));
    assert_eq!(items[0].as_str(), None);
}

#[test]
fn the_first_member_of_a_name_wins() {
    let value = Json::parse("{\"id\":1,\"id\":2}").expect("parses");
    assert_eq!(value.get("id").and_then(Json::as_number), Some("1"));
    assert!(value.get("missing").is_none());
    assert!(Json::parse("[1]").expect("parses").get("id").is_none());
}

#[test]
fn malformed_text_is_rejected() {
    for text in ["", "{", "[]x", "nul", "{\"a\" 1}", "[1,]", "1e", "1.2.3", "--1", "\"open", "{\"a\":1} trailing"] {
        assert!(Json::parse(text).is_none(), "should reject {text:?}");
    }
    for text in ["01", "+5", ".5", "5.", "1E+5", " null "] {
        assert!(Json::parse(text).is_some(), "should accept {text:?}");
    }
    assert!(Json::parse("true").is_some());
}

#[test]
fn edits_are_written_as_json() {
    let mut out = String::from(">");
    write_edit(&mut out, &Edit { position: [-5, 6, -7], block: 0 });
    assert_eq!(out, ">{\"position\":[-5,6,-7],\"block\":0}");
    let parsed = Json::parse(&out[1..]).expect("written edits parse");
    assert_eq!(parsed.get("block").and_then(Json::as_number), Some("0"));
    assert_eq!(DEFAULT_PORT, 8118);
}

#[test]
fn a_written_edit_reads_back_as_its_numbers() {
    let mut out = String::new();
    write_edit(&mut out, &Edit { position: [-2147483648, 0, 2147483647], block: 255 });
    let parsed = Json::parse(&out).expect("written edits parse");
    let position = parsed
        .get("position")
        .and_then(Json::as_array)
        .expect("a position array");
    let texts: Vec<&str> = position.iter().filter_map(Json::as_number).collect();
    assert_eq!(texts, vec!["-2147483648", "0", "2147483647"]);
    assert_eq!(parsed.get("block").and_then(Json::as_number), Some("255"));
    assert!(parsed.get("type").is_none());
}

#[test]
fn client_messages_are_read_as_text_numbers() {
    match decode_client(r#"{"type":"Move","pose":{"position":[1.5,-2,3e1],"yaw":0.75,"pitch":-0.5}}"#) {
        Some(ClientMessageText::Move(pose)) => {
            assert_eq!((pose.x.as_str(), pose.y.as_str(), pose.z.as_str()), ("1.5", "-2", "3e1"));
            assert_eq!((pose.yaw.as_str(), pose.pitch.as_str()), ("0.75", "-0.5"));
        }
        _ => panic!("expected a move"),
    }
    match decode_client(r#" {"edit":{"block":4,"position":[7,8,9]},"type":"SetBlock"} "#) {
        Some(ClientMessageText::SetBlock(edit)) => {
            assert_eq!((edit.x.as_str(), edit.y.as_str(), edit.z.as_str()), ("7", "8", "9"));
            assert_eq!(edit.block.as_str(), "4");
        }
        _ => panic!("expected an edit"),
    }
    for text in [
        "",
        "null",
        r#"{"type":"Nope"}"#,
        r#"{"type":"Move"}"#,
        r#"{"type":"Move","pose":{"position":[1,2],"yaw":0,"pitch":0}}"#,
        r#"{"type":"Move","pose":{"position":[1,2,"3"],"yaw":0,"pitch":0}}"#,
        r#"{"type":"SetBlock","edit":{"position":[1,2,3]}}"#,
        r#"{"type":"SetBlock","edit":{"position":[1,2,3],"block":1}} x"#,
    ] {
        assert!(decode_client(text).is_none(), "should reject {text:?}");
    }
}

#[test]
fn server_messages_are_read_as_text_numbers() {
    let welcome = r#"{"type":"Welcome","id":7,"seed":1337,"edits":[{"position":[1,2,3],"block":4},{"position":[-5,6,-7],"block":0}],"players":[{"id":9,"pose":{"position":[1.5,-2.25,3],"yaw":0.75,"pitch":-0.5}}]}"#;
    match decode_server(welcome) {
        Some(ServerMessageText::Welcome { id, seed, edits, players }) => {
            assert_eq!((id.as_str(), seed.as_str()), ("7", "1337"));
            assert_eq!(edits.len(), 2);
            assert_eq!((edits[1].x.as_str(), edits[1].z.as_str(), edits[1].block.as_str()), ("-5", "-7", "0"));
            assert_eq!(players.len(), 1);
            assert_eq!(players[0].0.as_str(), "9");
            assert_eq!(players[0].1.y.as_str(), "-2.25");
        }
        _ => panic!("expected a welcome"),
    }
    assert!(matches!(
        decode_server(r#"{"type":"Welcome","id":1,"seed":42,"edits":[],"players":[]}"#),
        Some(ServerMessageText::Welcome { .. })
    ));
    assert!(matches!(
        decode_server(r#"{"type":"PlayerLeft","id":3}"#),
        Some(ServerMessageText::PlayerLeft { .. })
    ));
    for text in [
        "",
        "{",
        "[]",
        "null",
        r#"{"type":"Nope"}"#,
        r#"{"type":"PlayerLeft"}"#,
        r#"{"type":"PlayerLeft","id":"three"}"#,
        r#"{"type":"BlockChanged","edit":{"position":[1,2],"block":1}}"#,
        r#"{"type":"PlayerMoved","id":1,"pose":{"position":[1,2,3],"yaw":0}}"#,
        r#"{"type":"Welcome","id":1,"seed":2,"edits":[{"position":[1,2,3]}],"players":[]}"#,
        r#"{"type":"PlayerLeft","id":1} trailing"#,
    ] {
        assert!(decode_server(text).is_none(), "should reject {text:?}");
    }
}
