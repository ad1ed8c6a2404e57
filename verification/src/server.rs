//! What the LAN server keeps between messages: the seed, every block edit
//! (the latest one per cell, replayed to newcomers), and who is connected.
//! Sockets, threads and player poses stay with the program around it.

use std::collections::HashMap;

use vstd::prelude::*;
use vstd::std_specs::hash::spec_hash_map_iter;
use vstd::std_specs::iter::IteratorSpec;

use crate::protocol::messages::{copy_pose, origin_pose, origin_pose_view, PoseText, PoseView};
use crate::protocol::{Edit, PlayerId};

verus! {

broadcast use vstd::std_specs::hash::group_hash_axioms;

/// The key an edit is stored under: the three coordinates' bits side by side.
pub open spec fn cell_key(x: i32, y: i32, z: i32) -> u128 {
    ((x as u32 as u128) << 64u128) | ((y as u32 as u128) << 32u128) | (z as u32 as u128)
}

/// Distinct cells have distinct keys.
pub proof fn lemma_cell_key_injective(a: (i32, i32, i32), b: (i32, i32, i32))
    ensures
        cell_key(a.0, a.1, a.2) == cell_key(b.0, b.1, b.2) ==> a == b,
{
    let (ax, ay, az, bx, by, bz) = (a.0, a.1, a.2, b.0, b.1, b.2);
    assert(((ax as u32 as u128) << 64u128) | ((ay as u32 as u128) << 32u128) | (az as u32 as u128) == ((
    bx as u32 as u128) << 64u128) | ((by as u32 as u128) << 32u128) | (bz as u32 as u128) ==> ax == bx
        && ay == by && az == bz) by (bit_vector);
}

fn key_of(edit: &Edit) -> (k: u128)
    ensures
        k == cell_key(edit.position[0], edit.position[1], edit.position[2]),
{
    let x = edit.position[0];
    let y = edit.position[1];
    let z = edit.position[2];
    ((x as u32 as u128) << 64u128) | ((y as u32 as u128) << 32u128) | (z as u32 as u128)
}

/// Filtering one more element of a sequence.
pub proof fn lemma_filter_step(s: Seq<PlayerId>, i: int, p: spec_fn(PlayerId) -> bool)
    requires
        0 <= i < s.len(),
    ensures
        s.take(i + 1).filter(p) == if p(s[i]) {
            s.take(i).filter(p).push(s[i])
        } else {
            s.take(i).filter(p)
        },
{
    reveal(Seq::filter);
    assert(s.take(i + 1).drop_last() =~= s.take(i));
}

/// The cell an edit is about.
pub open spec fn edit_cell(edit: Edit) -> (i32, i32, i32) {
    (edit.position[0], edit.position[1], edit.position[2])
}

/// `r` is what a newcomer is sent of the edited cells `edits`: every edit in
/// it puts the block its cell holds, every edited cell is in it, and no cell
/// twice.
pub open spec fn replays(edits: Map<(i32, i32, i32), u8>, r: Seq<Edit>) -> bool {
    &&& forall|i: int|
        0 <= i < r.len() ==> #[trigger] edits.contains_key(edit_cell(r[i])) && edits[edit_cell(r[i])]
            == r[i].block
    &&& forall|c: (i32, i32, i32)|
        #[trigger] edits.contains_key(c) ==> exists|i: int| 0 <= i < r.len() && edit_cell(r[i]) == c
    &&& forall|i: int, j: int|
        0 <= i < r.len() && 0 <= j < r.len() && i != j ==> edit_cell(#[trigger] r[i]) != edit_cell(
            #[trigger] r[j],
        )
}

/// The last edit recorded at a cell reaches every player who joins after
/// it: the replay holds that cell exactly once, with that edit's block.
pub proof fn lemma_last_edit_is_replayed(edits: Map<(i32, i32, i32), u8>, edit: Edit, r: Seq<Edit>)
    requires
        replays(edits.insert(edit_cell(edit), edit.block), r),
    ensures
        exists|i: int| 0 <= i < r.len() && edit_cell(r[i]) == edit_cell(edit) && r[i].block == edit.block,
        forall|i: int, j: int|
            0 <= i < r.len() && 0 <= j < r.len() && edit_cell(#[trigger] r[i]) == edit_cell(edit)
                && edit_cell(#[trigger] r[j]) == edit_cell(edit) ==> i == j,
{
    let after = edits.insert(edit_cell(edit), edit.block);
    assert(after.contains_key(edit_cell(edit)));
    let i = choose|i: int| 0 <= i < r.len() && edit_cell(r[i]) == edit_cell(edit);
    assert(after.contains_key(edit_cell(r[i])));
}

/// The server's shared state.
pub struct Lobby {
    seed: u32,
    edits: HashMap<u128, Edit>,
    players: Vec<PlayerId>,
    poses: HashMap<PlayerId, PoseText>,
    next_id: PlayerId,
}

impl Lobby {
    /// Each cell's edit is stored under that cell's key; players are listed
    /// once each, and every id handed out is below the next one.
    pub closed spec fn wf(&self) -> bool {
        &&& forall|k: u128| #[trigger]
            self.edits@.contains_key(k) ==> cell_key(
                self.edits@[k].position[0],
                self.edits@[k].position[1],
                self.edits@[k].position[2],
            ) == k
        &&& self.players@.no_duplicates()
        &&& forall|i: int| 0 <= i < self.players@.len() ==> 1 <= #[trigger] self.players@[i] < self.next_id
        &&& self.next_id >= 1
        &&& forall|k: PlayerId| #[trigger] self.poses@.contains_key(k) == self.players@.contains(k)
    }

    /// The pose each connected player last reported.
    pub closed spec fn poses(&self) -> Map<PlayerId, PoseView> {
        Map::new(|k: PlayerId| self.poses@.contains_key(k), |k: PlayerId| self.poses@[k]@)
    }

    pub closed spec fn seed_value(&self) -> u32 {
        self.seed
    }

    /// The block last put at each edited cell.
    pub closed spec fn edit_map(&self) -> Map<(i32, i32, i32), u8> {
        Map::new(
            |c: (i32, i32, i32)| self.edits@.contains_key(cell_key(c.0, c.1, c.2)),
            |c: (i32, i32, i32)| self.edits@[cell_key(c.0, c.1, c.2)].block,
        )
    }

    /// The connected players, in the order they joined.
    pub closed spec fn members(&self) -> Seq<PlayerId> {
        self.players@
    }

    /// The id the next player gets.
    pub closed spec fn next(&self) -> PlayerId {
        self.next_id
    }

    /// A server for `seed` with no edits and nobody connected; ids start at 1.
    pub fn new(seed: u32) -> (lobby: Lobby)
        ensures
            lobby.wf(),
            lobby.seed_value() == seed,
            lobby.edit_map() == Map::<(i32, i32, i32), u8>::empty(),
            lobby.members() == Seq::<PlayerId>::empty(),
            lobby.next() == 1,
            lobby.poses() == Map::<PlayerId, PoseView>::empty(),
    {
        let lobby = Lobby {
            seed,
            edits: HashMap::new(),
            players: Vec::new(),
            poses: HashMap::new(),
            next_id: 1,
        };
        assert(lobby.edit_map() =~= Map::<(i32, i32, i32), u8>::empty());
        assert(lobby.poses() =~= Map::<PlayerId, PoseView>::empty());
        lobby
    }

    pub fn seed(&self) -> (r: u32)
        ensures
            r == self.seed_value(),
    {
        self.seed
    }

    pub fn next_id(&self) -> (r: PlayerId)
        ensures
            r == self.next(),
    {
        self.next_id
    }

    /// Registers a new player under the next id, standing at the origin.
    pub fn join(&mut self) -> (id: PlayerId)
        requires
            old(self).wf(),
            old(self).next() < u32::MAX,
        ensures
            final(self).wf(),
            id == old(self).next(),
            !old(self).members().contains(id),
            final(self).next() == id + 1,
            final(self).members() == old(self).members().push(id),
            final(self).edit_map() == old(self).edit_map(),
            final(self).seed_value() == old(self).seed_value(),
            final(self).poses() == old(self).poses().insert(id, origin_pose_view()),
    {
        let id = self.next_id;
        self.next_id = self.next_id + 1;
        let ghost before = self.players@;
        let ghost old_poses = self.poses();
        self.players.push(id);
        self.poses.insert(id, origin_pose());
        proof {
            assert(!before.contains(id));
            assert forall|k: PlayerId| #[trigger] self.poses@.contains_key(k) == self.players@.contains(k) by {
                if before.contains(k) {
                    let j = choose|j: int| 0 <= j < before.len() && before[j] == k;
                    assert(self.players@[j] == k);
                }
                if self.players@.contains(k) && k != id {
                    let j = choose|j: int| 0 <= j < self.players@.len() && self.players@[j] == k;
                    assert(before[j] == k);
                }
                assert(self.players@[before.len() as int] == id);
            }
            assert(self.poses() =~= old_poses.insert(id, origin_pose_view()));
            assert forall|i: int, j: int|
                0 <= i < self.players@.len() && 0 <= j < self.players@.len() && i != j implies self.players@[i]
                != self.players@[j] by {
                if i == before.len() {
                    assert(before[j] < id);
                } else if j == before.len() {
                    assert(before[i] < id);
                }
            }
        }
        id
    }

    /// Whether `id` is connected.
    pub fn is_member(&self, id: PlayerId) -> (r: bool)
        ensures
            r == self.members().contains(id),
    {
        let mut i: usize = 0;
        while i < self.players.len()
            invariant
                i <= self.players@.len(),
                forall|j: int| 0 <= j < i ==> self.players@[j] != id,
            decreases self.players@.len() - i,
        {
            if self.players[i] == id {
                return true;
            }
            i = i + 1;
        }
        false
    }

    /// Disconnects `id`; false when it was not connected.
    pub fn leave(&mut self, id: PlayerId) -> (r: bool)
        requires
            old(self).wf(),
        ensures
            final(self).wf(),
            r == old(self).members().contains(id),
            final(self).members() == old(self).members().filter(|p: PlayerId| p != id),
            final(self).edit_map() == old(self).edit_map(),
            final(self).next() == old(self).next(),
            final(self).seed_value() == old(self).seed_value(),
            final(self).poses() == old(self).poses().remove(id),
    {
        let ghost before = self.players@;
        let ghost old_poses = self.poses();
        let ghost keep = |q: PlayerId| q != id;
        let mut kept: Vec<PlayerId> = Vec::new();
        let mut found = false;
        let mut i: usize = 0;
        while i < self.players.len()
            invariant
                self.players@ == before,
                before.no_duplicates(),
                forall|j: int| 0 <= j < before.len() ==> 1 <= #[trigger] before[j] < self.next_id,
                keep == (|q: PlayerId| q != id),
                i <= before.len(),
                kept@ == before.take(i as int).filter(keep),
                kept@.no_duplicates(),
                forall|q: PlayerId| #[trigger] kept@.contains(q) ==> before.take(i as int).contains(q),
                found == before.take(i as int).contains(id),
            decreases before.len() - i,
        {
            let p = self.players[i];
            proof {
                lemma_filter_step(before, i as int, keep);
                assert(before.take(i + 1) =~= before.take(i as int).push(p));
                assert(!before.take(i as int).contains(p)) by {
                    if before.take(i as int).contains(p) {
                        let j = choose|j: int| 0 <= j < i && before.take(i as int)[j] == p;
                        assert(before[j] == before[i as int]);
                    }
                }
            }
            if p == id {
                found = true;
            } else {
                let ghost prev = kept@;
                kept.push(p);
                proof {
                    assert forall|a: int, b: int|
                        0 <= a < kept@.len() && 0 <= b < kept@.len() && a != b implies kept@[a] != kept@[b] by {
                        if a == prev.len() {
                            assert(prev.contains(kept@[b]));
                        } else if b == prev.len() {
                            assert(prev.contains(kept@[a]));
                        }
                    }
                    assert forall|q: PlayerId| #[trigger] kept@.contains(q) implies before.take(i + 1).contains(q) by {
                        if q == p {
                            assert(before.take(i + 1)[i as int] == p);
                        } else {
                            let j = choose|j: int| 0 <= j < kept@.len() && kept@[j] == q;
                            assert(prev[j] == q);
                            assert(prev.contains(q));
                            let k = choose|k: int| 0 <= k < i && before.take(i as int)[k] == q;
                            assert(before.take(i + 1)[k] == q);
                        }
                    }
                }
            }
            proof {
                assert forall|q: PlayerId| #[trigger] kept@.contains(q) implies before.take(i + 1).contains(q) by {
                    if before.take(i as int).contains(q) {
                        let k = choose|k: int| 0 <= k < i && before.take(i as int)[k] == q;
                        assert(before.take(i + 1)[k] == q);
                    }
                }
                assert(found == before.take(i + 1).contains(id)) by {
                    if p == id {
                        assert(before.take(i + 1)[i as int] == id);
                    }
                    if before.take(i as int).contains(id) {
                        let j = choose|j: int| 0 <= j < i && before.take(i as int)[j] == id;
                        assert(before.take(i + 1)[j] == id);
                    }
                    if before.take(i + 1).contains(id) && p != id {
                        let j = choose|j: int| 0 <= j < i + 1 && #[trigger] before.take(i + 1)[j] == id;
                        assert(before.take(i as int)[j] == id);
                    }
                }
            }
            i = i + 1;
        }
        proof {
            assert(before.take(before.len() as int) =~= before);
            assert forall|a: int| 0 <= a < kept@.len() implies 1 <= #[trigger] kept@[a] < self.next_id by {
                assert(kept@.contains(kept@[a]));
                let k = choose|k: int| 0 <= k < before.len() && before[k] == kept@[a];
            }
        }
        self.players = kept;
        self.poses.remove(&id);
        proof {
            assert forall|k: PlayerId| #[trigger] self.poses@.contains_key(k) == self.players@.contains(k) by {
                if self.players@.contains(k) {
                    before.lemma_filter_contains_rev(keep, k);
                    let j = choose|j: int| 0 <= j < self.players@.len() && self.players@[j] == k;
                    before.lemma_filter_pred(keep, j);
                }
                if before.contains(k) && k != id {
                    let j = choose|j: int| 0 <= j < before.len() && before[j] == k;
                    before.lemma_filter_contains(keep, j);
                }
            }
            assert(self.poses() =~= old_poses.remove(id));
        }
        found
    }

    /// Every connected player but `origin`, in the order they joined: who a
    /// message from `origin` goes to.
    pub fn others(&self, origin: PlayerId) -> (r: Vec<PlayerId>)
        ensures
            r@ == self.members().filter(|p: PlayerId| p != origin),
    {
        let mut out: Vec<PlayerId> = Vec::new();
        let mut i: usize = 0;
        while i < self.players.len()
            invariant
                i <= self.players@.len(),
                out@ == self.players@.take(i as int).filter(|p: PlayerId| p != origin),
            decreases self.players@.len() - i,
        {
            let p = self.players[i];
            proof {
                lemma_filter_step(self.players@, i as int, |q: PlayerId| q != origin);
            }
            if p != origin {
                out.push(p);
            }
            i = i + 1;
        }
        proof {
            assert(self.players@.take(self.players@.len() as int) =~= self.players@);
        }
        out
    }

    /// Every connected player, in the order they joined.
    pub fn member_ids(&self) -> (r: Vec<PlayerId>)
        ensures
            r@ == self.members(),
    {
        self.players.clone()
    }

    /// Every connected player with their pose, in the order they joined:
    /// what a newcomer is told of who is there.
    pub fn players_with_poses(&self) -> (r: Vec<(PlayerId, PoseText)>)
        requires
            self.wf(),
        ensures
            r@.len() == self.members().len(),
            forall|i: int|
                0 <= i < r@.len() ==> (#[trigger] r@[i]).0 == self.members()[i] && self.poses().contains_key(
                    r@[i].0,
                ) && r@[i].1@ == self.poses()[r@[i].0],
    {
        let mut out: Vec<(PlayerId, PoseText)> = Vec::new();
        let mut i: usize = 0;
        while i < self.players.len()
            invariant
                self.wf(),
                i <= self.players@.len(),
                out@.len() == i,
                forall|j: int|
                    0 <= j < i ==> (#[trigger] out@[j]).0 == self.players@[j] && self.poses@.contains_key(
                        out@[j].0,
                    ) && out@[j].1@ == self.poses@[out@[j].0]@,
            decreases self.players@.len() - i,
        {
            let id = self.players[i];
            assert(self.players@.contains(id));
            assert(self.poses@.contains_key(id));
            match self.poses.get(&id) {
                Some(pose) => {
                    out.push((id, copy_pose(pose)));
                },
                None => {
                    assert(false);
                },
            }
            i = i + 1;
        }
        out
    }

    /// Records a block edit: the cell now holds `edit.block`, whatever it
    /// held before.
    pub fn record(&mut self, edit: Edit)
        requires
            old(self).wf(),
        ensures
            final(self).wf(),
            final(self).edit_map() == old(self).edit_map().insert(edit_cell(edit), edit.block),
            final(self).members() == old(self).members(),
            final(self).poses() == old(self).poses(),
            final(self).next() == old(self).next(),
            final(self).seed_value() == old(self).seed_value(),
    {
        let ghost before = *self;
        let key = key_of(&edit);
        self.edits.insert(key, edit);
        proof {
            let c = edit_cell(edit);
            assert forall|d: (i32, i32, i32)| #![auto]
                self.edits@.contains_key(cell_key(d.0, d.1, d.2)) == (before.edits@.contains_key(
                    cell_key(d.0, d.1, d.2),
                ) || d == c) by {
                lemma_cell_key_injective(d, c);
            }
            assert(self.edit_map() =~= before.edit_map().insert(c, edit.block)) by {
                assert forall|d: (i32, i32, i32)| #[trigger] self.edit_map().contains_key(d) implies self.edit_map()[d]
                    == before.edit_map().insert(c, edit.block)[d] by {
                    lemma_cell_key_injective(d, c);
                }
            }
        }
    }

    /// Every recorded edit, once per cell: what a newcomer is sent.
    pub fn snapshot(&self) -> (r: Vec<Edit>)
        requires
            self.wf(),
        ensures
            replays(self.edit_map(), r@),
    {
        let mut out: Vec<Edit> = Vec::new();
        let ghost v = spec_hash_map_iter(&self.edits).remaining();
        for entry in it: self.edits.iter()
            invariant
                self.wf(),
                it.seq() == v,
                out@.len() == it.index(),
                forall|i: int| 0 <= i < it.index() ==> out@[i] == *(#[trigger] v[i]).1,
        {
            let (_, edit) = entry;
            out.push(*edit);
        }
        proof {
            assert(v.no_duplicates());
            assert(out@.len() == v.len());
            assert forall|i: int|
                0 <= i < out@.len() implies #[trigger] self.edit_map().contains_key(edit_cell(out@[i]))
                && self.edit_map()[edit_cell(out@[i])] == out@[i].block by {
                let k = *v[i].0;
                assert(self.edits@.contains_key(k) && self.edits@[k] == *v[i].1);
            }
            assert forall|c: (i32, i32, i32)| #[trigger] self.edit_map().contains_key(c) implies exists|i: int|
                0 <= i < out@.len() && edit_cell(out@[i]) == c by {
                let k = cell_key(c.0, c.1, c.2);
                assert(self.edits@.contains_key(k));
                let e = self.edits@[k];
                assert(v.contains((&k, &e)));
                let i = choose|i: int| 0 <= i < v.len() && v[i] == (&k, &e);
                lemma_cell_key_injective(edit_cell(e), c);
                assert(edit_cell(out@[i]) == c);
            }
            assert forall|i: int, j: int|
                0 <= i < out@.len() && 0 <= j < out@.len() && i != j implies edit_cell(#[trigger] out@[i])
                != edit_cell(#[trigger] out@[j]) by {
                let ki = *v[i].0;
                let kj = *v[j].0;
                assert(self.edits@.contains_key(ki) && self.edits@[ki] == *v[i].1);
                assert(self.edits@.contains_key(kj) && self.edits@[kj] == *v[j].1);
                if edit_cell(out@[i]) == edit_cell(out@[j]) {
                    assert(ki == kj);
                    assert(v[i] == v[j]);
                }
            }
        }
        out
    }
}


/// What a connected player's socket brought: a decoded message (a move
/// to a new pose, or a block edit), a ping, a close, or anything else,
/// undecodable text included.
pub enum Event {
    Move(PoseText),
    SetBlock(Edit),
    Ping(Vec<u8>),
    Close,
    Other,
}

/// What the program does next for that player: stop serving them, send the
/// message the event calls for to `Broadcast`'s players, answer a ping, or
/// read on.
pub enum Action {
    Stop,
    Broadcast(Vec<PlayerId>),
    Pong(Vec<u8>),
    Continue,
}

impl Lobby {
    /// One step of serving player `id`: a close, or any message from a
    /// player no longer connected, stops; a move becomes the player's pose
    /// and goes to everyone else; an
    /// edit is recorded and goes to everyone else; a ping is answered with
    /// its payload; anything else is passed over.
    pub fn on_event(&mut self, id: PlayerId, event: Event) -> (action: Action)
        requires
            old(self).wf(),
        ensures
            final(self).wf(),
            final(self).members() == old(self).members(),
            final(self).next() == old(self).next(),
            final(self).seed_value() == old(self).seed_value(),
            final(self).poses() == match event {
                Event::Move(pose) => if old(self).members().contains(id) {
                    old(self).poses().insert(id, pose@)
                } else {
                    old(self).poses()
                },
                _ => old(self).poses(),
            },
            final(self).edit_map() == match event {
                Event::SetBlock(edit) => if old(self).members().contains(id) {
                    old(self).edit_map().insert(edit_cell(edit), edit.block)
                } else {
                    old(self).edit_map()
                },
                _ => old(self).edit_map(),
            },
            match event {
                Event::Close => action is Stop,
                Event::Other => action is Continue,
                Event::Ping(payload) => if old(self).members().contains(id) {
                    action matches Action::Pong(p) && p@ == payload@
                } else {
                    action is Stop
                },
                _ => if old(self).members().contains(id) {
                    action matches Action::Broadcast(to) && to@ == old(self).members().filter(
                        |p: PlayerId| p != id,
                    )
                } else {
                    action is Stop
                },
            },
    {
        match event {
            Event::Close => Action::Stop,
            Event::Other => Action::Continue,
            Event::Ping(payload) => {
                if self.is_member(id) {
                    Action::Pong(payload)
                } else {
                    Action::Stop
                }
            },
            Event::Move(pose) => {
                if self.is_member(id) {
                    let ghost old_poses = self.poses();
                    self.poses.insert(id, pose);
                    proof {
                        assert forall|k: PlayerId| #[trigger] self.poses@.contains_key(k)
                            == self.players@.contains(k) by {}
                        assert(self.poses() =~= old_poses.insert(id, pose@));
                    }
                    Action::Broadcast(self.others(id))
                } else {
                    Action::Stop
                }
            },
            Event::SetBlock(edit) => {
                if self.is_member(id) {
                    self.record(edit);
                    Action::Broadcast(self.others(id))
                } else {
                    Action::Stop
                }
            },
        }
    }
}

} // verus!
