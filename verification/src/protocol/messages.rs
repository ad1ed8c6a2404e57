//! The messages of the wire format, read off the JSON: what a client may
//! send (a move with its pose, or a block edit) and what the server sends
//! (the welcome, players joining, moving and leaving, block changes).
//! Numbers stay the text they were written as; what they mean as ids,
//! coordinates and angles is decided by whoever reads the message.

use vstd::prelude::*;

use crate::protocol::{item_views, lookup, Json, JsonValue, spec_parse};
use crate::text::{chars_of, same_chars, string_of};

verus! {

/// A pose as written: the three coordinates, then the two angles.
pub struct PoseText {
    pub x: String,
    pub y: String,
    pub z: String,
    pub yaw: String,
    pub pitch: String,
}

/// A block edit as written: the three coordinates and the block number.
pub struct EditText {
    pub x: String,
    pub y: String,
    pub z: String,
    pub block: String,
}

/// A message from a client.
pub enum ClientMessageText {
    Move(PoseText),
    SetBlock(EditText),
}

pub struct PoseView {
    pub x: Seq<char>,
    pub y: Seq<char>,
    pub z: Seq<char>,
    pub yaw: Seq<char>,
    pub pitch: Seq<char>,
}

pub struct EditView {
    pub x: Seq<char>,
    pub y: Seq<char>,
    pub z: Seq<char>,
    pub block: Seq<char>,
}

pub enum ClientView {
    Move(PoseView),
    SetBlock(EditView),
}

impl View for PoseText {
    type V = PoseView;

    open spec fn view(&self) -> PoseView {
        PoseView { x: self.x@, y: self.y@, z: self.z@, yaw: self.yaw@, pitch: self.pitch@ }
    }
}

impl View for EditText {
    type V = EditView;

    open spec fn view(&self) -> EditView {
        EditView { x: self.x@, y: self.y@, z: self.z@, block: self.block@ }
    }
}

impl View for ClientMessageText {
    type V = ClientView;

    open spec fn view(&self) -> ClientView {
        match self {
            ClientMessageText::Move(p) => ClientView::Move(p@),
            ClientMessageText::SetBlock(e) => ClientView::SetBlock(e@),
        }
    }
}

/// The member `key` of an object value.
pub open spec fn member(v: JsonValue, key: Seq<char>) -> Option<JsonValue> {
    match v {
        JsonValue::Object(members) => lookup(members, key, 0),
        _ => None,
    }
}

/// The text of a number value.
pub open spec fn number_text(v: Option<JsonValue>) -> Option<Seq<char>> {
    match v {
        Some(JsonValue::Number(t)) => Some(t),
        _ => None,
    }
}

/// An array of exactly three numbers, as their texts.
pub open spec fn number_triple(v: Option<JsonValue>) -> Option<(Seq<char>, Seq<char>, Seq<char>)> {
    match v {
        Some(JsonValue::Array(items)) => if items.len() == 3 && items[0] is Number && items[1] is Number
            && items[2] is Number {
            Some((items[0]->Number_0, items[1]->Number_0, items[2]->Number_0))
        } else {
            None
        },
        _ => None,
    }
}

/// A pose object: `position` three numbers, `yaw` and `pitch` numbers.
pub open spec fn pose_of(v: Option<JsonValue>) -> Option<PoseView> {
    match v {
        Some(p) => match (
            number_triple(member(p, "position"@)),
            number_text(member(p, "yaw"@)),
            number_text(member(p, "pitch"@)),
        ) {
            (Some(t), Some(yaw), Some(pitch)) => Some(
                PoseView { x: t.0, y: t.1, z: t.2, yaw, pitch },
            ),
            _ => None,
        },
        None => None,
    }
}

/// An edit object: `position` three numbers, `block` a number.
pub open spec fn edit_of(v: Option<JsonValue>) -> Option<EditView> {
    match v {
        Some(e) => match (number_triple(member(e, "position"@)), number_text(member(e, "block"@))) {
            (Some(t), Some(block)) => Some(EditView { x: t.0, y: t.1, z: t.2, block }),
            _ => None,
        },
        None => None,
    }
}

/// The client message `text` holds: a JSON object whose `type` is `"Move"`
/// with a `pose`, or `"SetBlock"` with an `edit`.
pub open spec fn spec_decode_client(text: Seq<char>) -> Option<ClientView> {
    match spec_parse(text) {
        Some(v) => match member(v, "type"@) {
            Some(JsonValue::Text(kind)) => if kind == "Move"@ {
                match pose_of(member(v, "pose"@)) {
                    Some(p) => Some(ClientView::Move(p)),
                    None => None,
                }
            } else if kind == "SetBlock"@ {
                match edit_of(member(v, "edit"@)) {
                    Some(e) => Some(ClientView::SetBlock(e)),
                    None => None,
                }
            } else {
                None
            },
            _ => None,
        },
        None => None,
    }
}

/// The pose a player starts in: at the origin, looking along yaw 0 and
/// pitch 0, each number written `0`.
pub open spec fn origin_pose_view() -> PoseView {
    PoseView { x: "0"@, y: "0"@, z: "0"@, yaw: "0"@, pitch: "0"@ }
}

pub fn origin_pose() -> (p: PoseText)
    ensures
        p@ == origin_pose_view(),
{
    PoseText { x: own("0"), y: own("0"), z: own("0"), yaw: own("0"), pitch: own("0") }
}

/// A copy of `p`.
pub fn copy_pose(p: &PoseText) -> (q: PoseText)
    ensures
        q@ == p@,
{
    PoseText {
        x: own(p.x.as_str()),
        y: own(p.y.as_str()),
        z: own(p.z.as_str()),
        yaw: own(p.yaw.as_str()),
        pitch: own(p.pitch.as_str()),
    }
}

fn own(s: &str) -> (out: String)
    ensures
        out@ == s@,
{
    string_of(&chars_of(s))
}

fn number_of(v: Option<&Json>) -> (r: Option<String>)
    ensures
        match number_text(
            match v {
                Some(j) => Some(j@),
                None => None,
            },
        ) {
            Some(t) => r matches Some(s) && s@ == t,
            None => r is None,
        },
{
    match v {
        Some(j) => match j.as_number() {
            Some(t) => Some(own(t)),
            None => None,
        },
        None => None,
    }
}

fn triple_of(v: Option<&Json>) -> (r: Option<(String, String, String)>)
    ensures
        match number_triple(
            match v {
                Some(j) => Some(j@),
                None => None,
            },
        ) {
            Some(t) => r matches Some(s) && s.0@ == t.0 && s.1@ == t.1 && s.2@ == t.2,
            None => r is None,
        },
{
    let items = match v {
        Some(j) => match j.as_array() {
            Some(items) => items,
            None => return None,
        },
        None => return None,
    };
    if items.len() != 3 {
        return None;
    }
    proof {
        assert(crate::protocol::item_views(items@)[0] == items@[0]@);
        assert(crate::protocol::item_views(items@)[1] == items@[1]@);
        assert(crate::protocol::item_views(items@)[2] == items@[2]@);
    }
    let x = match items[0].as_number() {
        Some(t) => own(t),
        None => return None,
    };
    let y = match items[1].as_number() {
        Some(t) => own(t),
        None => return None,
    };
    let z = match items[2].as_number() {
        Some(t) => own(t),
        None => return None,
    };
    Some((x, y, z))
}

fn pose_from(v: Option<&Json>) -> (r: Option<PoseText>)
    ensures
        match pose_of(
            match v {
                Some(j) => Some(j@),
                None => None,
            },
        ) {
            Some(p) => r matches Some(q) && q@ == p,
            None => r is None,
        },
{
    let p = match v {
        Some(p) => p,
        None => return None,
    };
    let position = triple_of(p.get("position"));
    let yaw = number_of(p.get("yaw"));
    let pitch = number_of(p.get("pitch"));
    match (position, yaw, pitch) {
        (Some(t), Some(yaw), Some(pitch)) => Some(PoseText { x: t.0, y: t.1, z: t.2, yaw, pitch }),
        _ => None,
    }
}

fn edit_from(v: Option<&Json>) -> (r: Option<EditText>)
    ensures
        match edit_of(
            match v {
                Some(j) => Some(j@),
                None => None,
            },
        ) {
            Some(e) => r matches Some(q) && q@ == e,
            None => r is None,
        },
{
    let e = match v {
        Some(e) => e,
        None => return None,
    };
    let position = triple_of(e.get("position"));
    let block = number_of(e.get("block"));
    match (position, block) {
        (Some(t), Some(block)) => Some(EditText { x: t.0, y: t.1, z: t.2, block }),
        _ => None,
    }
}

/// Reads a client message: `None` for anything that is not one.
pub fn decode_client(text: &str) -> (r: Option<ClientMessageText>)
    ensures
        match spec_decode_client(text@) {
            Some(m) => r matches Some(x) && x@ == m,
            None => r is None,
        },
{
    let value = match Json::parse(text) {
        Some(value) => value,
        None => return None,
    };
    let kind = match value.get("type") {
        Some(k) => match k.as_str() {
            Some(kind) => kind,
            None => return None,
        },
        None => return None,
    };
    let kind = chars_of(kind);
    if same_chars(&kind, &chars_of("Move")) {
        match pose_from(value.get("pose")) {
            Some(p) => Some(ClientMessageText::Move(p)),
            None => None,
        }
    } else if same_chars(&kind, &chars_of("SetBlock")) {
        match edit_from(value.get("edit")) {
            Some(e) => Some(ClientMessageText::SetBlock(e)),
            None => None,
        }
    } else {
        None
    }
}


// ---------------------------------------------------------------- server messages

/// A message from the server.
pub enum ServerMessageText {
    /// Sent once on connect: the player's id, the seed, every recorded edit
    /// and the players already there.
    Welcome { id: String, seed: String, edits: Vec<EditText>, players: Vec<(String, PoseText)> },
    PlayerJoined { id: String, pose: PoseText },
    PlayerLeft { id: String },
    PlayerMoved { id: String, pose: PoseText },
    BlockChanged { edit: EditText },
}

pub enum ServerView {
    Welcome {
        id: Seq<char>,
        seed: Seq<char>,
        edits: Seq<EditView>,
        players: Seq<(Seq<char>, PoseView)>,
    },
    PlayerJoined { id: Seq<char>, pose: PoseView },
    PlayerLeft { id: Seq<char> },
    PlayerMoved { id: Seq<char>, pose: PoseView },
    BlockChanged { edit: EditView },
}

pub open spec fn edit_views(v: Seq<EditText>) -> Seq<EditView> {
    v.map_values(|e: EditText| e@)
}

pub open spec fn player_views(v: Seq<(String, PoseText)>) -> Seq<(Seq<char>, PoseView)> {
    v.map_values(|p: (String, PoseText)| (p.0@, p.1@))
}

impl View for ServerMessageText {
    type V = ServerView;

    open spec fn view(&self) -> ServerView {
        match self {
            ServerMessageText::Welcome { id, seed, edits, players } => ServerView::Welcome {
                id: id@,
                seed: seed@,
                edits: edit_views(edits@),
                players: player_views(players@),
            },
            ServerMessageText::PlayerJoined { id, pose } => ServerView::PlayerJoined {
                id: id@,
                pose: pose@,
            },
            ServerMessageText::PlayerLeft { id } => ServerView::PlayerLeft { id: id@ },
            ServerMessageText::PlayerMoved { id, pose } => ServerView::PlayerMoved {
                id: id@,
                pose: pose@,
            },
            ServerMessageText::BlockChanged { edit } => ServerView::BlockChanged { edit: edit@ },
        }
    }
}

/// Every item an edit, in order.
pub open spec fn edits_of(items: Seq<JsonValue>) -> Option<Seq<EditView>>
    decreases items.len(),
{
    if items.len() == 0 {
        Some(Seq::empty())
    } else {
        match (edits_of(items.drop_last()), edit_of(Some(items.last()))) {
            (Some(before), Some(e)) => Some(before.push(e)),
            _ => None,
        }
    }
}

/// An object with an `id` number and a `pose`.
pub open spec fn player_of(item: JsonValue) -> Option<(Seq<char>, PoseView)> {
    match (number_text(member(item, "id"@)), pose_of(member(item, "pose"@))) {
        (Some(id), Some(pose)) => Some((id, pose)),
        _ => None,
    }
}

/// Every item a player, in order.
pub open spec fn players_of(items: Seq<JsonValue>) -> Option<Seq<(Seq<char>, PoseView)>>
    decreases items.len(),
{
    if items.len() == 0 {
        Some(Seq::empty())
    } else {
        match (players_of(items.drop_last()), player_of(items.last())) {
            (Some(before), Some(p)) => Some(before.push(p)),
            _ => None,
        }
    }
}

/// The items of an array value.
pub open spec fn array_items(v: Option<JsonValue>) -> Option<Seq<JsonValue>> {
    match v {
        Some(JsonValue::Array(items)) => Some(items),
        _ => None,
    }
}

/// The server message an object value holds, by its `type`.
pub open spec fn server_message_of(v: JsonValue) -> Option<ServerView> {
    let id = number_text(member(v, "id"@));
    match member(v, "type"@) {
        Some(JsonValue::Text(kind)) => if kind == "Welcome"@ {
            match (
                array_items(member(v, "edits"@)),
                array_items(member(v, "players"@)),
                id,
                number_text(member(v, "seed"@)),
            ) {
                (Some(e), Some(p), Some(id), Some(seed)) => match (edits_of(e), players_of(p)) {
                    (Some(edits), Some(players)) => Some(ServerView::Welcome { id, seed, edits, players }),
                    _ => None,
                },
                _ => None,
            }
        } else if kind == "PlayerJoined"@ {
            match (id, pose_of(member(v, "pose"@))) {
                (Some(id), Some(pose)) => Some(ServerView::PlayerJoined { id, pose }),
                _ => None,
            }
        } else if kind == "PlayerLeft"@ {
            match id {
                Some(id) => Some(ServerView::PlayerLeft { id }),
                None => None,
            }
        } else if kind == "PlayerMoved"@ {
            match (id, pose_of(member(v, "pose"@))) {
                (Some(id), Some(pose)) => Some(ServerView::PlayerMoved { id, pose }),
                _ => None,
            }
        } else if kind == "BlockChanged"@ {
            match edit_of(member(v, "edit"@)) {
                Some(edit) => Some(ServerView::BlockChanged { edit }),
                None => None,
            }
        } else {
            None
        },
        _ => None,
    }
}

/// The server message `text` holds.
pub open spec fn spec_decode_server(text: Seq<char>) -> Option<ServerView> {
    match spec_parse(text) {
        Some(v) => server_message_of(v),
        None => None,
    }
}

fn edits_from(items: &Vec<Json>) -> (r: Option<Vec<EditText>>)
    ensures
        match edits_of(item_views(items@)) {
            Some(es) => r matches Some(v) && edit_views(v@) == es,
            None => r is None,
        },
{
    let ghost all = item_views(items@);
    let mut out: Vec<EditText> = Vec::new();
    let mut i: usize = 0;
    assert(all.take(0) =~= Seq::<JsonValue>::empty());
    while i < items.len()
        invariant
            i <= items@.len(),
            all == item_views(items@),
            edits_of(all.take(i as int)) == Some(edit_views(out@)),
        decreases items.len() - i,
    {
        assert(all.take(i + 1).drop_last() =~= all.take(i as int));
        assert(all.take(i + 1).last() == items@[i as int]@);
        match edit_from(Some(&items[i])) {
            Some(e) => {
                let ghost before = out@;
                out.push(e);
                assert(edit_views(out@) =~= edit_views(before).push(e@));
            },
            None => {
                proof {
                    lemma_edits_prefix(all, i as int + 1);
                }
                return None;
            },
        }
        i = i + 1;
    }
    assert(all.take(i as int) =~= all);
    Some(out)
}

/// A failing prefix makes the whole list fail.
proof fn lemma_edits_prefix(all: Seq<JsonValue>, k: int)
    requires
        0 <= k <= all.len(),
        edits_of(all.take(k)) is None,
    ensures
        edits_of(all) is None,
    decreases all.len() - k,
{
    if k < all.len() {
        assert(all.take(k + 1).drop_last() =~= all.take(k));
        lemma_edits_prefix(all, k + 1);
    } else {
        assert(all.take(k) =~= all);
    }
}

/// A failing prefix makes the whole list fail.
proof fn lemma_players_prefix(all: Seq<JsonValue>, k: int)
    requires
        0 <= k <= all.len(),
        players_of(all.take(k)) is None,
    ensures
        players_of(all) is None,
    decreases all.len() - k,
{
    if k < all.len() {
        assert(all.take(k + 1).drop_last() =~= all.take(k));
        lemma_players_prefix(all, k + 1);
    } else {
        assert(all.take(k) =~= all);
    }
}

fn player_from(item: &Json) -> (r: Option<(String, PoseText)>)
    ensures
        match player_of(item@) {
            Some(p) => r matches Some(q) && q.0@ == p.0 && q.1@ == p.1,
            None => r is None,
        },
{
    let id = number_of(item.get("id"));
    let pose = pose_from(item.get("pose"));
    match (id, pose) {
        (Some(id), Some(pose)) => Some((id, pose)),
        _ => None,
    }
}

fn players_from(items: &Vec<Json>) -> (r: Option<Vec<(String, PoseText)>>)
    ensures
        match players_of(item_views(items@)) {
            Some(ps) => r matches Some(v) && player_views(v@) == ps,
            None => r is None,
        },
{
    let ghost all = item_views(items@);
    let mut out: Vec<(String, PoseText)> = Vec::new();
    let mut i: usize = 0;
    assert(all.take(0) =~= Seq::<JsonValue>::empty());
    while i < items.len()
        invariant
            i <= items@.len(),
            all == item_views(items@),
            players_of(all.take(i as int)) == Some(player_views(out@)),
        decreases items.len() - i,
    {
        assert(all.take(i + 1).drop_last() =~= all.take(i as int));
        assert(all.take(i + 1).last() == items@[i as int]@);
        match player_from(&items[i]) {
            Some(p) => {
                let ghost before = out@;
                out.push(p);
                assert(player_views(out@) =~= player_views(before).push((p.0@, p.1@)));
            },
            None => {
                proof {
                    lemma_players_prefix(all, i as int + 1);
                }
                return None;
            },
        }
        i = i + 1;
    }
    assert(all.take(i as int) =~= all);
    Some(out)
}

fn array_of(v: Option<&Json>) -> (r: Option<&Vec<Json>>)
    ensures
        match array_items(
            match v {
                Some(j) => Some(j@),
                None => None,
            },
        ) {
            Some(items) => r matches Some(a) && item_views(a@) == items,
            None => r is None,
        },
{
    match v {
        Some(j) => j.as_array(),
        None => None,
    }
}

/// Reads a server message: `None` for anything that is not one.
pub fn decode_server(text: &str) -> (r: Option<ServerMessageText>)
    ensures
        match spec_decode_server(text@) {
            Some(m) => r matches Some(x) && x@ == m,
            None => r is None,
        },
{
    let value = match Json::parse(text) {
        Some(value) => value,
        None => return None,
    };
    let kind = match value.get("type") {
        Some(k) => match k.as_str() {
            Some(kind) => chars_of(kind),
            None => return None,
        },
        None => return None,
    };
    let id = number_of(value.get("id"));
    if same_chars(&kind, &chars_of("Welcome")) {
        let edits = match array_of(value.get("edits")) {
            Some(items) => edits_from(items),
            None => return None,
        };
        let players = match array_of(value.get("players")) {
            Some(items) => players_from(items),
            None => return None,
        };
        let seed = number_of(value.get("seed"));
        match (edits, players, id, seed) {
            (Some(edits), Some(players), Some(id), Some(seed)) => Some(
                ServerMessageText::Welcome { id, seed, edits, players },
            ),
            _ => None,
        }
    } else if same_chars(&kind, &chars_of("PlayerJoined")) {
        match (id, pose_from(value.get("pose"))) {
            (Some(id), Some(pose)) => Some(ServerMessageText::PlayerJoined { id, pose }),
            _ => None,
        }
    } else if same_chars(&kind, &chars_of("PlayerLeft")) {
        match id {
            Some(id) => Some(ServerMessageText::PlayerLeft { id }),
            None => None,
        }
    } else if same_chars(&kind, &chars_of("PlayerMoved")) {
        match (id, pose_from(value.get("pose"))) {
            (Some(id), Some(pose)) => Some(ServerMessageText::PlayerMoved { id, pose }),
            _ => None,
        }
    } else if same_chars(&kind, &chars_of("BlockChanged")) {
        match edit_from(value.get("edit")) {
            Some(edit) => Some(ServerMessageText::BlockChanged { edit }),
            None => None,
        }
    } else {
        None
    }
}

/// The kind of a server message, as its `type` member names it.
pub open spec fn server_kind(m: ServerView) -> Seq<char> {
    match m {
        ServerView::Welcome { .. } => "Welcome"@,
        ServerView::PlayerJoined { .. } => "PlayerJoined"@,
        ServerView::PlayerLeft { .. } => "PlayerLeft"@,
        ServerView::PlayerMoved { .. } => "PlayerMoved"@,
        ServerView::BlockChanged { .. } => "BlockChanged"@,
    }
}

/// Decoding a server message keeps the kind its `type` member names, and
/// takes each field from the member of that name.
pub proof fn lemma_server_decoding_keeps_the_kind(text: Seq<char>)
    ensures
        spec_decode_server(text) matches Some(m) ==> {
            &&& spec_parse(text) matches Some(v)
            &&& member(v, "type"@) == Some(JsonValue::Text(server_kind(m)))
            &&& match m {
                ServerView::Welcome { id, seed, .. } => {
                    &&& member(v, "id"@) == Some(JsonValue::Number(id))
                    &&& member(v, "seed"@) == Some(JsonValue::Number(seed))
                },
                ServerView::PlayerJoined { id, pose } => {
                    &&& member(v, "id"@) == Some(JsonValue::Number(id))
                    &&& pose_of(member(v, "pose"@)) == Some(pose)
                },
                ServerView::PlayerLeft { id } => member(v, "id"@) == Some(JsonValue::Number(id)),
                ServerView::PlayerMoved { id, pose } => {
                    &&& member(v, "id"@) == Some(JsonValue::Number(id))
                    &&& pose_of(member(v, "pose"@)) == Some(pose)
                },
                ServerView::BlockChanged { edit } => edit_of(member(v, "edit"@)) == Some(edit),
            }
        },
{
}

/// The kind of a client message, as its `type` member names it.
pub open spec fn client_kind(m: ClientView) -> Seq<char> {
    match m {
        ClientView::Move(_) => "Move"@,
        ClientView::SetBlock(_) => "SetBlock"@,
    }
}

/// Decoding a client message keeps the kind its `type` member names, and
/// takes the pose or the edit from the member of that name.
pub proof fn lemma_client_decoding_keeps_the_kind(text: Seq<char>)
    ensures
        spec_decode_client(text) matches Some(m) ==> {
            &&& spec_parse(text) matches Some(v)
            &&& member(v, "type"@) == Some(JsonValue::Text(client_kind(m)))
            &&& match m {
                ClientView::Move(pose) => pose_of(member(v, "pose"@)) == Some(pose),
                ClientView::SetBlock(edit) => edit_of(member(v, "edit"@)) == Some(edit),
            }
        },
{
}

} // verus!
