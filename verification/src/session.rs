//! The game's side of a LAN session: what each message from the server does
//! to what the game knows (its own id, the seed, which other players are
//! around) and the step the game then takes on its world and its view of
//! the other players. Poses stay the text they were written as; moving a
//! player's model towards one is the game's own floating point business.

use vstd::prelude::*;

use crate::protocol::messages::PoseText;
use crate::protocol::{Edit, PlayerId};
use crate::text::{chars_of, push_str, same_chars};

verus! {

/// A message from the server, its ids and edits read.
pub enum ServerUpdate {
    /// Sent once on connect: the player's id, the seed, every recorded edit
    /// and the players already there.
    Welcome { id: PlayerId, seed: u32, edits: Vec<Edit>, players: Vec<(PlayerId, PoseText)> },
    PlayerJoined { id: PlayerId, pose: PoseText },
    PlayerLeft { id: PlayerId },
    PlayerMoved { id: PlayerId, pose: PoseText },
    BlockChanged { edit: Edit },
}

/// What the game does after a message.
pub enum SessionStep {
    /// Generate the world afresh from `seed`, replay `edits` in order, and
    /// show exactly `players` (the later of two entries for one id wins).
    Rebuild { seed: u32, edits: Vec<Edit>, players: Vec<(PlayerId, PoseText)> },
    /// Apply an edit made by another player.
    Apply(Edit),
    /// Show player `id` afresh at the pose.
    Spawn(PlayerId, PoseText),
    /// Player `id` moved to the pose; shown afresh there when not yet shown.
    Follow(PlayerId, PoseText),
    /// Stop showing player `id`.
    Despawn(PlayerId),
}

/// The ids among `players`.
pub open spec fn player_ids(players: Seq<(PlayerId, PoseText)>) -> Set<PlayerId> {
    players.map_values(|p: (PlayerId, PoseText)| p.0).to_set()
}

/// What the game knows of the session.
pub struct Session {
    id: Option<PlayerId>,
    seed: u32,
    remote: Vec<PlayerId>,
}

/// Whether `v` holds `id`.
fn holds(v: &Vec<PlayerId>, id: PlayerId) -> (r: bool)
    ensures
        r == v@.contains(id),
{
    let mut i: usize = 0;
    while i < v.len()
        invariant
            i <= v@.len(),
            forall|k: int| 0 <= k < i ==> v@[k] != id,
        decreases v.len() - i,
    {
        if v[i] == id {
            assert(v@[i as int] == id);
            return true;
        }
        i = i + 1;
    }
    false
}

impl Session {
    pub closed spec fn wf(&self) -> bool {
        self.remote@.no_duplicates()
    }

    /// The id the server gave this player, once welcomed.
    pub closed spec fn own_id(&self) -> Option<PlayerId> {
        self.id
    }

    /// The seed the world is generated from.
    pub closed spec fn seed_value(&self) -> u32 {
        self.seed
    }

    /// The other players around.
    pub closed spec fn remote_ids(&self) -> Set<PlayerId> {
        self.remote@.to_set()
    }

    /// A session not yet welcomed, on a world generated from `seed`.
    pub fn new(seed: u32) -> (session: Session)
        ensures
            session.wf(),
            session.own_id() is None,
            session.seed_value() == seed,
            session.remote_ids() == Set::<PlayerId>::empty(),
    {
        let session = Session { id: None, seed, remote: Vec::new() };
        assert(session.remote@.to_set() =~= Set::<PlayerId>::empty());
        session
    }

    pub fn id(&self) -> (r: Option<PlayerId>)
        ensures
            r == self.own_id(),
    {
        self.id
    }

    pub fn seed(&self) -> (r: u32)
        ensures
            r == self.seed_value(),
    {
        self.seed
    }

    /// The other players around, each once.
    pub fn remote_players(&self) -> (r: Vec<PlayerId>)
        requires
            self.wf(),
        ensures
            r@.to_set() == self.remote_ids(),
            r@.no_duplicates(),
    {
        self.remote.clone()
    }

    /// Adds `id` to the players around.
    fn add_remote(&mut self, id: PlayerId)
        requires
            old(self).wf(),
        ensures
            final(self).wf(),
            final(self).remote_ids() == old(self).remote_ids().insert(id),
            final(self).own_id() == old(self).own_id(),
            final(self).seed_value() == old(self).seed_value(),
    {
        if !holds(&self.remote, id) {
            let ghost before = self.remote@;
            self.remote.push(id);
            proof {
                assert forall|a: int, b: int|
                    0 <= a < self.remote@.len() && 0 <= b < self.remote@.len() && a != b implies self.remote@[a]
                    != self.remote@[b] by {
                    if a == before.len() {
                        assert(before.contains(self.remote@[b]));
                    } else if b == before.len() {
                        assert(before.contains(self.remote@[a]));
                    }
                }
                assert(self.remote@.to_set() =~= before.to_set().insert(id)) by {
                    assert forall|q: PlayerId| self.remote@.contains(q) implies before.contains(q) || q == id by {
                        let k = choose|k: int| 0 <= k < self.remote@.len() && self.remote@[k] == q;
                        if k < before.len() {
                            assert(before[k] == q);
                        }
                    }
                    assert forall|q: PlayerId| before.contains(q) implies self.remote@.contains(q) by {
                        let k = choose|k: int| 0 <= k < before.len() && before[k] == q;
                        assert(self.remote@[k] == q);
                    }
                    assert(self.remote@[before.len() as int] == id);
                }
            }
        } else {
            assert(self.remote@.to_set() =~= self.remote@.to_set().insert(id));
        }
    }

    /// Drops `id` from the players around.
    fn drop_remote(&mut self, id: PlayerId)
        requires
            old(self).wf(),
        ensures
            final(self).wf(),
            final(self).remote_ids() == old(self).remote_ids().remove(id),
            final(self).own_id() == old(self).own_id(),
            final(self).seed_value() == old(self).seed_value(),
    {
        let ghost before = self.remote@;
        let mut kept: Vec<PlayerId> = Vec::new();
        let mut i: usize = 0;
        while i < self.remote.len()
            invariant
                self.remote@ == before,
                before.no_duplicates(),
                i <= before.len(),
                kept@.no_duplicates(),
                forall|q: PlayerId| #[trigger] kept@.contains(q) <==> (before.take(i as int).contains(q) && q != id),
            decreases before.len() - i,
        {
            let p = self.remote[i];
            proof {
                assert(before.take(i + 1) =~= before.take(i as int).push(p));
                assert forall|q: PlayerId|
                    #[trigger] before.take(i + 1).contains(q) <==> (before.take(i as int).contains(q) || q == p) by {
                    if before.take(i + 1).contains(q) {
                        let k = choose|k: int| 0 <= k < i + 1 && #[trigger] before.take(i + 1)[k] == q;
                        if k < i {
                            assert(before.take(i as int)[k] == q);
                        }
                    }
                    if before.take(i as int).contains(q) {
                        let k = choose|k: int| 0 <= k < i && #[trigger] before.take(i as int)[k] == q;
                        assert(before.take(i + 1)[k] == q);
                    }
                    assert(before.take(i + 1)[i as int] == p);
                }
                assert(!before.take(i as int).contains(p)) by {
                    if before.take(i as int).contains(p) {
                        let j = choose|j: int| 0 <= j < i && before.take(i as int)[j] == p;
                        assert(before[j] == before[i as int]);
                    }
                }
            }
            if p != id {
                let ghost prev = kept@;
                kept.push(p);
                proof {
                    assert forall|a: int, b: int|
                        0 <= a < kept@.len() && 0 <= b < kept@.len() && a != b implies kept@[a] != kept@[b] by {
                        if a == prev.len() {
                            assert(prev.contains(kept@[b]));
                        } else if b == prev.len() {
                            assert(prev.contains(kept@[a]));
                        }
                    }
                    assert forall|q: PlayerId| #[trigger] kept@.contains(q) <==> (before.take(i + 1).contains(q) && q != id) by {
                        if kept@.contains(q) {
                            let k = choose|k: int| 0 <= k < kept@.len() && kept@[k] == q;
                            if k < prev.len() {
                                assert(prev[k] == q);
                                assert(prev.contains(q));
                            }
                        }
                        if q == p {
                            assert(kept@[prev.len() as int] == p);
                        } else if prev.contains(q) {
                            let k = choose|k: int| 0 <= k < prev.len() && prev[k] == q;
                            assert(kept@[k] == q);
                        }
                    }
                }
            }
            i = i + 1;
        }
        proof {
            assert(before.take(before.len() as int) =~= before);
            assert(kept@.to_set() =~= before.to_set().remove(id));
        }
        self.remote = kept;
    }

    /// Takes one message from the server.
    pub fn on_message(&mut self, message: ServerUpdate) -> (step: SessionStep)
        requires
            old(self).wf(),
        ensures
            final(self).wf(),
            match message {
                ServerUpdate::Welcome { id, seed, edits, players } => {
                    &&& final(self).own_id() == Some(id)
                    &&& final(self).seed_value() == seed
                    &&& final(self).remote_ids() == player_ids(players@)
                    &&& step matches SessionStep::Rebuild { seed: s, edits: e, players: p }
                    &&& s == seed
                    &&& e@ == edits@
                    &&& p@ == players@
                },
                ServerUpdate::PlayerJoined { id, pose } => {
                    &&& final(self).own_id() == old(self).own_id()
                    &&& final(self).seed_value() == old(self).seed_value()
                    &&& final(self).remote_ids() == old(self).remote_ids().insert(id)
                    &&& step matches SessionStep::Spawn(i, p)
                    &&& i == id
                    &&& p@ == pose@
                },
                ServerUpdate::PlayerMoved { id, pose } => {
                    &&& final(self).own_id() == old(self).own_id()
                    &&& final(self).seed_value() == old(self).seed_value()
                    &&& final(self).remote_ids() == old(self).remote_ids().insert(id)
                    &&& step matches SessionStep::Follow(i, p)
                    &&& i == id
                    &&& p@ == pose@
                },
                ServerUpdate::PlayerLeft { id } => {
                    &&& final(self).own_id() == old(self).own_id()
                    &&& final(self).seed_value() == old(self).seed_value()
                    &&& final(self).remote_ids() == old(self).remote_ids().remove(id)
                    &&& step == SessionStep::Despawn(id)
                },
                ServerUpdate::BlockChanged { edit } => {
                    &&& final(self).own_id() == old(self).own_id()
                    &&& final(self).seed_value() == old(self).seed_value()
                    &&& final(self).remote_ids() == old(self).remote_ids()
                    &&& step == SessionStep::Apply(edit)
                },
            },
    {
        match message {
            ServerUpdate::Welcome { id, seed, edits, players } => {
                self.id = Some(id);
                self.seed = seed;
                self.remote = Vec::new();
                let ghost ids = players@.map_values(|p: (PlayerId, PoseText)| p.0);
                proof {
                    assert(self.remote@.to_set() =~= ids.take(0).to_set());
                }
                let mut i: usize = 0;
                while i < players.len()
                    invariant
                        self.wf(),
                        self.id == Some(id),
                        self.seed == seed,
                        i <= players@.len(),
                        ids == players@.map_values(|p: (PlayerId, PoseText)| p.0),
                        self.remote_ids() == ids.take(i as int).to_set(),
                    decreases players@.len() - i,
                {
                    let player = players[i].0;
                    self.add_remote(player);
                    proof {
                        assert(ids[i as int] == player);
                        assert(ids.take(i + 1) =~= ids.take(i as int).push(player));
                        assert(ids.take(i + 1).to_set() =~= ids.take(i as int).to_set().insert(player)) by {
                            assert forall|q: PlayerId| ids.take(i + 1).contains(q) implies ids.take(i as int).contains(q) || q == player by {
                                let k = choose|k: int| 0 <= k < i + 1 && #[trigger] ids.take(i + 1)[k] == q;
                                if k < i {
                                    assert(ids.take(i as int)[k] == q);
                                }
                            }
                            assert forall|q: PlayerId| ids.take(i as int).contains(q) implies ids.take(i + 1).contains(q) by {
                                let k = choose|k: int| 0 <= k < i && ids.take(i as int)[k] == q;
                                assert(ids.take(i + 1)[k] == q);
                            }
                            assert(ids.take(i + 1)[i as int] == player);
                        }
                    }
                    i = i + 1;
                }
                proof {
                    assert(ids.take(players@.len() as int) =~= ids);
                }
                SessionStep::Rebuild { seed, edits, players }
            },
            ServerUpdate::PlayerJoined { id, pose } => {
                self.add_remote(id);
                SessionStep::Spawn(id, pose)
            },
            ServerUpdate::PlayerMoved { id, pose } => {
                self.add_remote(id);
                SessionStep::Follow(id, pose)
            },
            ServerUpdate::PlayerLeft { id } => {
                self.drop_remote(id);
                SessionStep::Despawn(id)
            },
            ServerUpdate::BlockChanged { edit } => SessionStep::Apply(edit),
        }
    }

    /// The connection closed: no other player is shown any more.
    pub fn on_closed(&mut self)
        requires
            old(self).wf(),
        ensures
            final(self).wf(),
            final(self).remote_ids() == Set::<PlayerId>::empty(),
            final(self).own_id() == old(self).own_id(),
            final(self).seed_value() == old(self).seed_value(),
    {
        self.remote = Vec::new();
        assert(self.remote@.to_set() =~= Set::<PlayerId>::empty());
    }
}

/// The scheme a page served over `protocol` opens its socket with.
pub open spec fn socket_scheme(protocol: Seq<char>) -> Seq<char> {
    if protocol == "https:"@ {
        "wss"@
    } else {
        "ws"@
    }
}

/// The address of the server's socket for a page whose root carries the
/// multiplayer marker `flag`, served over `protocol` from `host`: none
/// unless the marker is exactly `"1"`.
pub open spec fn spec_multiplayer_url(flag: Option<Seq<char>>, protocol: Seq<char>, host: Seq<char>) -> Option<
    Seq<char>,
> {
    if flag == Some("1"@) {
        Some(socket_scheme(protocol) + "://"@ + host + "/ws"@)
    } else {
        None
    }
}

/// Where the game connects to, if the page says the server plays along.
pub fn multiplayer_url(flag: Option<&str>, protocol: &str, host: &str) -> (r: Option<String>)
    ensures
        match r {
            Some(url) => spec_multiplayer_url(
                match flag {
                    Some(f) => Some(f@),
                    None => None,
                },
                protocol@,
                host@,
            ) == Some(url@),
            None => spec_multiplayer_url(
                match flag {
                    Some(f) => Some(f@),
                    None => None,
                },
                protocol@,
                host@,
            ) is None,
        },
{
    let on = match flag {
        Some(f) => same_chars(&chars_of(f), &chars_of("1")),
        None => false,
    };
    if !on {
        return None;
    }
    let secure = same_chars(&chars_of(protocol), &chars_of("https:"));
    let mut url = String::new();
    if secure {
        push_str(&mut url, "wss");
    } else {
        push_str(&mut url, "ws");
    }
    push_str(&mut url, "://");
    push_str(&mut url, host);
    push_str(&mut url, "/ws");
    Some(url)
}

} // verus!
