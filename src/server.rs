use std::collections::HashMap;
use vstd::prelude::*;

use crate::client::{Client, ClientCommand, Delivery};
use crate::room::Room;

verus! {

broadcast use vstd::std_specs::hash::group_hash_axioms;

/// The dispatcher's whole state: rooms, the id index, and removals due after the current event.
pub struct Server {
    pub rooms: Vec<Room>,
    pub id_to_room: HashMap<u16, String>,
    pub to_remove: Vec<(String, u16)>,
    /// Every item handed to a delivery channel, in order, and whether the channel took it.
    pub sent_log: Ghost<Seq<Delivery>>,
}

/// Every record in `s1`, but those of participant `id`, stood in the same room of `s0`.
pub open spec fn kept_except(s0: Server, s1: Server, id: u16) -> bool {
    forall|r: int, c: Client|
        0 <= r < s1.rooms@.len() && #[trigger] s1.rooms@[r].clients@.contains(c) && c.id != id ==> r
            < s0.rooms@.len() && s0.rooms@[r].clients@.contains(c)
}

/// Records kept from `s0` to `s1` and from `s1` to `s2` are kept from `s0` to `s2`.
pub proof fn lemma_kept_trans(s0: Server, s1: Server, s2: Server, id: u16)
    requires
        kept_except(s0, s1, id),
        kept_except(s1, s2, id),
    ensures
        kept_except(s0, s2, id),
{
    assert forall|r: int, c: Client|
        0 <= r < s2.rooms@.len() && #[trigger] s2.rooms@[r].clients@.contains(c) && c.id != id implies
        r < s0.rooms@.len() && s0.rooms@[r].clients@.contains(c) by {
        assert(s1.rooms@[r].clients@.contains(c));
    }
}

impl Server {
    /// The index as a map from client id to room name.
    pub open spec fn placement(&self) -> Map<u16, Seq<char>> {
        self.id_to_room@.map_values(|s: String| s@)
    }

    /// Some room of this name has the participant as a member.
    pub open spec fn in_room(&self, id: u16, name: Seq<char>) -> bool {
        exists|r: int|
            0 <= r < self.rooms@.len() && #[trigger] self.rooms@[r].name@ == name && self.rooms@[r].has(
                id,
            )
    }

    /// Some room carries this name.
    pub open spec fn has_room(&self, name: Seq<char>) -> bool {
        exists|r: int| 0 <= r < self.rooms@.len() && #[trigger] self.rooms@[r].name@ == name
    }

    /// Rooms well formed with distinct names, and the index agrees with membership both ways.
    pub open spec fn wf(&self) -> bool {
        &&& forall|r: int| 0 <= r < self.rooms@.len() ==> #[trigger] self.rooms@[r].wf()
        &&& forall|a: int, b: int|
            0 <= a < b < self.rooms@.len() ==> #[trigger] self.rooms@[a].name@
                != #[trigger] self.rooms@[b].name@
        &&& forall|r: int, i: int|
            0 <= r < self.rooms@.len() && 0 <= i < self.rooms@[r].clients@.len() ==> {
                let id = #[trigger] self.rooms@[r].clients@[i].id;
                self.id_to_room@.contains_key(id) && self.id_to_room@[id]@ == self.rooms@[r].name@
            }
        &&& forall|id: u16| #[trigger] self.id_to_room@.contains_key(id) ==> self.in_room(id, self.id_to_room@[id]@)
    }

    pub fn new() -> (s: Server)
        ensures
            s.wf(),
            s.rooms@ == Seq::<Room>::empty(),
            s.placement() == Map::<u16, Seq<char>>::empty(),
            s.to_remove@ == Seq::<(String, u16)>::empty(),
            s.sent_log@ == Seq::<Delivery>::empty(),
    {
        let s = Server {
            rooms: Vec::new(),
            id_to_room: HashMap::new(),
            to_remove: Vec::new(),
            sent_log: Ghost(Seq::empty()),
        };
        assert(s.placement() =~= Map::<u16, Seq<char>>::empty());
        s
    }

    /// Where the room of this name stands, if there is one.
    pub fn find_room(&self, name: &String) -> (r: Option<usize>)
        ensures
            match r {
                Some(i) => i < self.rooms@.len() && self.rooms@[i as int].name@ == name@,
                None => !self.has_room(name@),
            },
    {
        let mut i: usize = 0;
        while i < self.rooms.len()
            invariant
                i <= self.rooms@.len(),
                forall|k: int| 0 <= k < i ==> #[trigger] self.rooms@[k].name@ != name@,
            decreases self.rooms@.len() - i,
        {
            if self.rooms[i].name == *name {
                return Some(i);
            }
            i = i + 1;
        }
        None
    }
    /// Takes the participant out of its room and out of the index.
    pub fn detach(&mut self, id: u16) -> (r: Option<Client>)
        requires
            old(self).wf(),
        ensures
            final(self).wf(),
            final(self).sent_log == old(self).sent_log,
            final(self).placement() == old(self).placement().remove(id),
            final(self).rooms@.len() == old(self).rooms@.len(),
            forall|k: int| 0 <= k < old(self).rooms@.len() ==> {
                &&& (#[trigger] final(self).rooms@[k]).name == old(self).rooms@[k].name
                &&& final(self).rooms@[k].history == old(self).rooms@[k].history
            },
            final(self).to_remove == old(self).to_remove,
            kept_except(*old(self), *final(self), id),
            match r {
                Some(c) => {
                    &&& c.id == id && old(self).placement().contains_key(id)
                    &&& c.room@ == old(self).placement()[id]
                    &&& forall|r: int, i: int| #[trigger] old(self).member_at(id, r, i) ==> old(self).rooms@[r].clients@[i] == c
                },
                None => !old(self).placement().contains_key(id) && *final(self) == *old(self),
            },
    {
        let name = match self.id_to_room.get(&id) {
            None => {
                assert(old(self).placement().remove(id) =~= old(self).placement());
                return None;
            },
            Some(n) => n.clone(),
        };
        let ghost old_rooms = self.rooms@;
        proof {
            assert(self.in_room(id, name@));
        }
        let ri = match self.find_room(&name) {
            Some(ri) => ri,
            None => {
                return None;
            },
        };
        proof {
            let w = choose|w: int| 0 <= w < old_rooms.len() && #[trigger] old_rooms[w].name@ == name@
                && old_rooms[w].has(id);
            if w != ri {
                if w < ri {
                    assert(old_rooms[w].name@ != old_rooms[ri as int].name@);
                } else {
                    assert(old_rooms[ri as int].name@ != old_rooms[w].name@);
                }
            }
        }
        let removed = self.rooms[ri].remove_client(id);
        let _ = self.id_to_room.remove(&id);
        proof {
            assert forall|r: int, i: int| #[trigger] old(self).member_at(id, r, i) implies old_rooms[r].clients@[i] == removed.unwrap() by {
                let p = choose|p: int| 0 <= p < old_rooms[ri as int].clients@.len() && #[trigger] old_rooms[ri as int].clients@[p].id == id;
                assert(old(self).member_at(id, ri as int, p));
                old(self).lemma_member_unique(id, r, i, ri as int, p);
            }
            let rooms = self.rooms@;
            assert(self.placement() =~= old(self).placement().remove(id));
            assert forall|r: int| 0 <= r < rooms.len() implies #[trigger] rooms[r].wf() by {
                if r != ri {
                    assert(rooms[r] == old_rooms[r]);
                }
            }
            assert forall|a: int, b: int| 0 <= a < b < rooms.len() implies #[trigger] rooms[a].name@
                != #[trigger] rooms[b].name@ by {
                assert(old_rooms[a].name@ != old_rooms[b].name@);
            }
            assert forall|r: int, i: int| 0 <= r < rooms.len() && 0 <= i < rooms[r].clients@.len() implies {
                let x = #[trigger] rooms[r].clients@[i].id;
                self.id_to_room@.contains_key(x) && self.id_to_room@[x]@ == rooms[r].name@
            } by {
                let c = rooms[r].clients@[i];
                if r == ri {
                    assert(rooms[r].clients@.contains(c));
                    let j = choose|j: int| 0 <= j < old_rooms[r].clients@.len() && old_rooms[r].clients@[j] == c;
                    assert(old_rooms[r].clients@[j].id == c.id);
                    assert(c.id != id) by {
                        assert(rooms[r].clients@[i].id == c.id);
                    }
                } else {
                    assert(rooms[r] == old_rooms[r]);
                    assert(old_rooms[r].clients@[i].id == c.id);
                    if c.id == id {
                        let w = choose|w: int| 0 <= w < old_rooms.len() && #[trigger] old_rooms[w].name@ == name@
                            && old_rooms[w].has(id);
                        assert(old(self).id_to_room@[id]@ == old_rooms[r].name@);
                        assert(old_rooms[r].name@ == old_rooms[ri as int].name@);
                        if r < ri {
                            assert(old_rooms[r].name@ != old_rooms[ri as int].name@);
                        } else {
                            assert(old_rooms[ri as int].name@ != old_rooms[r].name@);
                        }
                    }
                }
            }
            assert forall|x: u16| #[trigger] self.id_to_room@.contains_key(x) implies self.in_room(x, self.id_to_room@[x]@) by {
                assert(old(self).id_to_room@.contains_key(x));
                assert(old(self).in_room(x, old(self).id_to_room@[x]@));
                let w = choose|w: int| 0 <= w < old_rooms.len() && #[trigger] old_rooms[w].name@ == old(self).id_to_room@[x]@
                    && old_rooms[w].has(x);
                if w == ri {
                    assert(rooms[w].has(x));
                } else {
                    assert(rooms[w] == old_rooms[w]);
                }
                assert(rooms[w].name@ == self.id_to_room@[x]@);
            }
        }
        proof {
            assert forall|r: int, c: Client|
                0 <= r < self.rooms@.len() && #[trigger] self.rooms@[r].clients@.contains(c) && c.id != id implies
                r < old_rooms.len() && old_rooms[r].clients@.contains(c) by {
                if r != ri {
                    assert(self.rooms@[r] == old_rooms[r]);
                }
            }
        }
        removed
    }
    /// Puts a participant that is in no room into the room at `ri`, and indexes it there.
    pub fn attach(&mut self, ri: usize, c: Client)
        requires
            old(self).wf(),
            ri < old(self).rooms@.len(),
            !old(self).placement().contains_key(c.id),
            c.room@ == old(self).rooms@[ri as int].name@,
        ensures
            final(self).wf(),
            final(self).sent_log == old(self).sent_log,
            final(self).placement() == old(self).placement().insert(c.id, c.room@),
            final(self).rooms@.len() == old(self).rooms@.len(),
            final(self).rooms@[ri as int].clients@ == old(self).rooms@[ri as int].clients@.push(c),
            kept_except(*old(self), *final(self), c.id),
            forall|k: int| 0 <= k < old(self).rooms@.len() ==> {
                &&& (#[trigger] final(self).rooms@[k]).name == old(self).rooms@[k].name
                &&& final(self).rooms@[k].history == old(self).rooms@[k].history
                &&& k != ri ==> final(self).rooms@[k] == old(self).rooms@[k]
            },
            final(self).to_remove == old(self).to_remove,
    {
        let ghost old_rooms = self.rooms@;
        let cid = c.id;
        proof {
            assert(!old_rooms[ri as int].has(cid)) by {
                if old_rooms[ri as int].has(cid) {
                    let j = choose|j: int| 0 <= j < old_rooms[ri as int].clients@.len()
                        && #[trigger] old_rooms[ri as int].clients@[j].id == cid;
                    assert(self.id_to_room@.contains_key(old_rooms[ri as int].clients@[j].id));
                }
            }
        }
        let name = c.room.clone();
        self.rooms[ri].insert_client(c);
        let _ = self.id_to_room.insert(cid, name);
        proof {
            let rooms = self.rooms@;
            assert(self.placement() =~= old(self).placement().insert(cid, name@));
            assert forall|r: int| 0 <= r < rooms.len() implies #[trigger] rooms[r].wf() by {
                if r != ri {
                    assert(rooms[r] == old_rooms[r]);
                }
            }
            assert forall|a: int, b: int| 0 <= a < b < rooms.len() implies #[trigger] rooms[a].name@
                != #[trigger] rooms[b].name@ by {
                assert(old_rooms[a].name@ != old_rooms[b].name@);
            }
            assert forall|r: int, i: int| 0 <= r < rooms.len() && 0 <= i < rooms[r].clients@.len() implies {
                let x = #[trigger] rooms[r].clients@[i].id;
                self.id_to_room@.contains_key(x) && self.id_to_room@[x]@ == rooms[r].name@
            } by {
                let x = rooms[r].clients@[i].id;
                if r == ri && i == old_rooms[r].clients@.len() {
                } else {
                    assert(rooms[r].clients@[i] == old_rooms[r].clients@[i]);
                    assert(old(self).id_to_room@.contains_key(x));
                }
            }
            assert forall|x: u16| #[trigger] self.id_to_room@.contains_key(x) implies self.in_room(x, self.id_to_room@[x]@) by {
                if x == cid {
                    assert(rooms[ri as int].has(cid));
                    assert(rooms[ri as int].name@ == self.id_to_room@[x]@);
                } else {
                    assert(old(self).id_to_room@.contains_key(x));
                    let w = choose|w: int| 0 <= w < old_rooms.len() && #[trigger] old_rooms[w].name@ == old(self).id_to_room@[x]@
                        && old_rooms[w].has(x);
                    if w != ri {
                        assert(rooms[w] == old_rooms[w]);
                    }
                    assert(rooms[w].has(x));
                    assert(rooms[w].name@ == self.id_to_room@[x]@);
                }
            }
            assert forall|r: int, d: Client|
                0 <= r < rooms.len() && #[trigger] rooms[r].clients@.contains(d) && d.id != cid implies
                r < old_rooms.len() && old_rooms[r].clients@.contains(d) by {
                if r != ri {
                    assert(rooms[r] == old_rooms[r]);
                } else {
                    let j = choose|j: int| 0 <= j < rooms[r].clients@.len() && rooms[r].clients@[j] == d;
                    assert(j < old_rooms[r].clients@.len());
                    assert(old_rooms[r].clients@[j] == d);
                }
            }
        }
    }

    /// The room of this name, created empty if there was none.
    pub fn ensure_room(&mut self, name: String) -> (r: usize)
        requires
            old(self).wf(),
        ensures
            final(self).wf(),
            final(self).sent_log == old(self).sent_log,
            r < final(self).rooms@.len(),
            final(self).rooms@[r as int].name@ == name@,
            final(self).placement() == old(self).placement(),
            final(self).id_to_room == old(self).id_to_room,
            final(self).to_remove == old(self).to_remove,
            final(self).rooms@.subrange(0, old(self).rooms@.len() as int) == old(self).rooms@,
            old(self).has_room(name@) ==> final(self).rooms@ == old(self).rooms@,
            forall|x: u16| kept_except(*old(self), *final(self), x),
            !old(self).has_room(name@) ==> {
                &&& final(self).rooms@.len() == old(self).rooms@.len() + 1
                &&& final(self).rooms@[r as int].history@ == Seq::<String>::empty()
                &&& final(self).rooms@[r as int].clients@ == Seq::<Client>::empty()
            },
    {
        match self.find_room(&name) {
            Some(i) => i,
            None => {
                let ghost old_rooms = self.rooms@;
                self.rooms.push(Room::new(name));
                proof {
                    let rooms = self.rooms@;
                    let n = old_rooms.len() as int;
                    assert(rooms.subrange(0, n) =~= old_rooms);
                    assert forall|a: int, b: int| 0 <= a < b < rooms.len() implies #[trigger] rooms[a].name@
                        != #[trigger] rooms[b].name@ by {
                        if b == n {
                            assert(old_rooms[a].name@ != rooms[n].name@);
                        } else {
                            assert(old_rooms[a].name@ != old_rooms[b].name@);
                        }
                    }
                    assert forall|r: int, i: int| 0 <= r < rooms.len() && 0 <= i < rooms[r].clients@.len() implies {
                        let x = #[trigger] rooms[r].clients@[i].id;
                        self.id_to_room@.contains_key(x) && self.id_to_room@[x]@ == rooms[r].name@
                    } by {
                        assert(rooms[r] == old_rooms[r]);
                    }
                    assert forall|x: u16| #[trigger] self.id_to_room@.contains_key(x) implies self.in_room(x, self.id_to_room@[x]@) by {
                        let w = choose|w: int| 0 <= w < old_rooms.len() && #[trigger] old_rooms[w].name@ == old(self).id_to_room@[x]@
                            && old_rooms[w].has(x);
                        assert(rooms[w] == old_rooms[w]);
                    }
                    assert forall|x: u16| kept_except(*old(self), *self, x) by {
                        assert forall|r: int, d: Client|
                            0 <= r < rooms.len() && #[trigger] rooms[r].clients@.contains(d) && d.id != x implies
                            r < old_rooms.len() && old_rooms[r].clients@.contains(d) by {
                            if r == n {
                                assert(rooms[r].clients@.len() == 0);
                            } else {
                                assert(rooms[r] == old_rooms[r]);
                            }
                        }
                    }
                }
                self.rooms.len() - 1
            },
        }
    }
    /// The member list of room `r` holds the participant `id` at position `i`.
    pub open spec fn member_at(&self, id: u16, r: int, i: int) -> bool {
        &&& 0 <= r < self.rooms@.len()
        &&& 0 <= i < self.rooms@[r].clients@.len()
        &&& self.rooms@[r].clients@[i].id == id
    }

    /// A participant is recorded in one place at most.
    pub proof fn lemma_member_unique(&self, id: u16, r1: int, i1: int, r2: int, i2: int)
        requires
            self.wf(),
            self.member_at(id, r1, i1),
            self.member_at(id, r2, i2),
        ensures
            r1 == r2,
            i1 == i2,
    {
        assert(self.rooms@[r1].clients@[i1].id == id);
        assert(self.rooms@[r2].clients@[i2].id == id);
        if r1 < r2 {
            assert(self.rooms@[r1].name@ != self.rooms@[r2].name@);
        } else if r2 < r1 {
            assert(self.rooms@[r2].name@ != self.rooms@[r1].name@);
        }
        assert(self.rooms@[r1].wf());
        if i1 < i2 {
            assert(self.rooms@[r1].clients@[i1].id != self.rooms@[r1].clients@[i2].id);
        } else if i2 < i1 {
            assert(self.rooms@[r1].clients@[i2].id != self.rooms@[r1].clients@[i1].id);
        }
    }

    /// Hands a line to the indexed participant `id`.
    pub fn send_to(&mut self, id: u16, line: String) -> (d: Delivery)
        requires
            old(self).wf(),
            old(self).placement().contains_key(id),
        ensures
            d.to == id,
            d.cmd == ClientCommand::Msg(line),
            final(self).sent_log@ == old(self).sent_log@.push(d),
            final(self).rooms == old(self).rooms,
            final(self).id_to_room == old(self).id_to_room,
            final(self).to_remove == old(self).to_remove,
    {
        let mut ok = false;
        match self.id_to_room.get(&id) {
            None => {},
            Some(name) => match self.find_room(name) {
                None => {},
                Some(ri) => match self.rooms[ri].position(id) {
                    None => {},
                    Some(ci) => {
                        ok = self.rooms[ri].clients[ci].send(line.clone(), &mut self.sent_log).is_ok();
                        return Delivery { to: id, cmd: ClientCommand::Msg(line), delivered: ok };
                    },
                },
            },
        }
        proof {
            assert(self.in_room(id, self.placement()[id]));
        }
        Delivery { to: id, cmd: ClientCommand::Msg(line), delivered: ok }
    }

    /// Puts a participant that is in no room back into the existing room its record names.
    pub fn put_back(&mut self, c: Client)
        requires
            old(self).wf(),
            !old(self).placement().contains_key(c.id),
            old(self).has_room(c.room@),
        ensures
            final(self).wf(),
            final(self).sent_log == old(self).sent_log,
            final(self).placement() == old(self).placement().insert(c.id, c.room@),
            final(self).rooms@.len() == old(self).rooms@.len(),
            forall|k: int| 0 <= k < old(self).rooms@.len() ==> {
                &&& (#[trigger] final(self).rooms@[k]).name == old(self).rooms@[k].name
                &&& final(self).rooms@[k].history == old(self).rooms@[k].history
            },
            final(self).to_remove == old(self).to_remove,
            forall|r: int, i: int| #[trigger] final(self).member_at(c.id, r, i) ==> final(self).rooms@[r].clients@[i] == c,
            kept_except(*old(self), *final(self), c.id),
    {
        let ghost cc = c;
        match self.find_room(&c.room) {
            None => {},
            Some(ri) => {
                let ghost n = self.rooms@[ri as int].clients@.len();
                self.attach(ri, c);
                proof {
                    assert(self.member_at(cc.id, ri as int, n as int));
                    assert forall|r: int, i: int| #[trigger] self.member_at(cc.id, r, i) implies self.rooms@[r].clients@[i] == cc by {
                        self.lemma_member_unique(cc.id, r, i, ri as int, n as int);
                    }
                }
            },
        }
    }
}

/// Every room's history stays within its capacity.
pub proof fn lemma_history_bounded(s: &Server, k: int)
    requires
        s.wf(),
        0 <= k < s.rooms@.len(),
    ensures
        s.rooms@[k].history@.len() <= crate::room::HISTORY_CAPACITY,
{
    assert(s.rooms@[k].wf());
}

/// The index names, for each participant in it, a room of which it is a member.
pub proof fn lemma_index_names_member_room(s: &Server, id: u16)
    requires
        s.wf(),
        s.placement().contains_key(id),
    ensures
        s.in_room(id, s.placement()[id]),
{
    assert(s.id_to_room@.contains_key(id));
}

/// A participant is a member of one room at most.
pub proof fn lemma_one_room(s: &Server, id: u16, a: Seq<char>, b: Seq<char>)
    requires
        s.wf(),
        s.in_room(id, a),
        s.in_room(id, b),
    ensures
        a == b,
{
    let ra = choose|r: int| 0 <= r < s.rooms@.len() && #[trigger] s.rooms@[r].name@ == a && s.rooms@[r].has(id);
    let rb = choose|r: int| 0 <= r < s.rooms@.len() && #[trigger] s.rooms@[r].name@ == b && s.rooms@[r].has(id);
    let ia = choose|i: int| 0 <= i < s.rooms@[ra].clients@.len() && #[trigger] s.rooms@[ra].clients@[i].id == id;
    let ib = choose|i: int| 0 <= i < s.rooms@[rb].clients@.len() && #[trigger] s.rooms@[rb].clients@[i].id == id;
    s.lemma_member_unique(id, ra, ia, rb, ib);
}

} // verus!
