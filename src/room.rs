use std::collections::VecDeque;
use vstd::prelude::*;

use crate::client::Client;

verus! {

/// How many rendered lines a room keeps.
pub const HISTORY_CAPACITY: usize = 15;

/// The history after `line` is appended: oldest line dropped once over capacity.
pub open spec fn pushed_history(h: Seq<String>, line: String) -> Seq<String> {
    let grown = h.push(line);
    if grown.len() > HISTORY_CAPACITY as int {
        grown.subrange(1, grown.len() as int)
    } else {
        grown
    }
}

/// Appending to a history within capacity keeps it within capacity, ends it with the new
/// line, and keeps the newest lines in arrival order, dropping the oldest first.
pub proof fn lemma_history_window(h: Seq<String>, line: String)
    requires
        h.len() <= HISTORY_CAPACITY,
    ensures
        pushed_history(h, line).len() <= HISTORY_CAPACITY,
        pushed_history(h, line).len() == if h.len() < HISTORY_CAPACITY {
            h.len() + 1
        } else {
            HISTORY_CAPACITY as nat
        },
        pushed_history(h, line).last() == line,
        pushed_history(h, line) == h.push(line).subrange(
            h.len() + 1 - pushed_history(h, line).len(),
            h.len() as int + 1,
        ),
{
    let g = h.push(line);
    assert(g.subrange(0, g.len() as int) =~= g);
}

/// A named group of participants with its recent history.
pub struct Room {
    pub name: String,
    pub history: VecDeque<String>,
    pub clients: Vec<Client>,
}

impl Room {
    /// Whether a participant with this id is a member.
    pub open spec fn has(&self, id: u16) -> bool {
        exists|i: int| 0 <= i < self.clients@.len() && #[trigger] self.clients@[i].id == id
    }

    /// History bounded, member ids distinct, and every member names this room.
    pub open spec fn wf(&self) -> bool {
        &&& self.history@.len() <= HISTORY_CAPACITY
        &&& forall|i: int, j: int|
            0 <= i < j < self.clients@.len() ==> #[trigger] self.clients@[i].id
                != #[trigger] self.clients@[j].id
        &&& forall|i: int| 0 <= i < self.clients@.len() ==> #[trigger] self.clients@[i].room@ == self.name@
    }

    pub fn new(name: String) -> (r: Room)
        ensures
            r.name == name,
            r.history@ == Seq::<String>::empty(),
            r.clients@ == Seq::<Client>::empty(),
            r.wf(),
    {
        Room { name, history: VecDeque::new(), clients: Vec::new() }
    }

    /// Appends a rendered line, evicting the oldest one beyond capacity.
    pub fn record(&mut self, line: String)
        requires
            old(self).wf(),
        ensures
            final(self).wf(),
            final(self).history@ == pushed_history(old(self).history@, line),
            final(self).name == old(self).name,
            final(self).clients == old(self).clients,
    {
        self.history.push_back(line);
        if self.history.len() > HISTORY_CAPACITY {
            let _ = self.history.pop_front();
        }
    }

    /// Where the member with this id stands, if it is one.
    pub fn position(&self, id: u16) -> (r: Option<usize>)
        ensures
            match r {
                Some(i) => i < self.clients@.len() && self.clients@[i as int].id == id,
                None => !self.has(id),
            },
    {
        let mut i: usize = 0;
        while i < self.clients.len()
            invariant
                i <= self.clients@.len(),
                forall|k: int| 0 <= k < i ==> #[trigger] self.clients@[k].id != id,
            decreases self.clients@.len() - i,
        {
            if self.clients[i].id == id {
                return Some(i);
            }
            i = i + 1;
        }
        None
    }

    /// Takes the member with this id out, if there is one.
    pub fn remove_client(&mut self, id: u16) -> (r: Option<Client>)
        requires
            old(self).wf(),
        ensures
            final(self).wf(),
            final(self).name == old(self).name,
            final(self).history == old(self).history,
            !final(self).has(id),
            forall|x: u16| x != id ==> (#[trigger] final(self).has(x) == old(self).has(x)),
            forall|c: Client| #[trigger] final(self).clients@.contains(c) ==> old(self).clients@.contains(c),
            match r {
                Some(c) => {
                    &&& c.id == id && old(self).has(id) && c.room@ == old(self).name@
                    &&& forall|i: int|
                        0 <= i < old(self).clients@.len() && #[trigger] old(self).clients@[i].id == id
                            ==> old(self).clients@[i] == c
                },
                None => !old(self).has(id) && final(self).clients == old(self).clients,
            },
    {
        match self.position(id) {
            None => None,
            Some(i) => {
                let ghost before = self.clients@;
                let c = self.clients.remove(i);
                proof {
                    assert forall|k: int| 0 <= k < before.len() && #[trigger] before[k].id == id implies before[k] == c by {
                        if k < i {
                            assert(before[k].id != before[i as int].id);
                        } else if k > i {
                            assert(before[i as int].id != before[k].id);
                        }
                    }
                    assert forall|x: u16| x != id implies #[trigger] self.has(x) == old(self).has(x) by {
                        if old(self).has(x) {
                            let k = choose|k: int| 0 <= k < before.len() && #[trigger] before[k].id == x;
                            if k < i {
                                assert(self.clients@[k].id == x);
                            } else {
                                assert(self.clients@[k - 1].id == x);
                            }
                        }
                        if self.has(x) {
                            let k = choose|k: int| 0 <= k < self.clients@.len() && #[trigger] self.clients@[k].id == x;
                            if k < i {
                                assert(before[k].id == x);
                            } else {
                                assert(before[k + 1].id == x);
                            }
                        }
                    }
                    assert forall|k: int| 0 <= k < self.clients@.len() implies #[trigger] self.clients@[k].id != id by {
                        if k < i {
                            assert(before[k].id != before[i as int].id);
                        } else {
                            assert(before[k + 1].id != before[i as int].id);
                        }
                    }
                    assert forall|c: Client| #[trigger] self.clients@.contains(c) implies before.contains(c) by {
                        let k = choose|k: int| 0 <= k < self.clients@.len() && self.clients@[k] == c;
                        if k < i {
                            assert(before[k] == c);
                        } else {
                            assert(before[k + 1] == c);
                        }
                    }
                    assert forall|a: int, b: int| 0 <= a < b < self.clients@.len() implies #[trigger] self.clients@[a].id
                        != #[trigger] self.clients@[b].id by {
                        let a0 = if a < i { a } else { a + 1 };
                        let b0 = if b < i { b } else { b + 1 };
                        assert(before[a0].id != before[b0].id);
                    }
                    assert forall|k: int| 0 <= k < self.clients@.len() implies #[trigger] self.clients@[k].room@ == self.name@ by {
                        if k < i {
                            assert(before[k].room@ == self.name@);
                        } else {
                            assert(before[k + 1].room@ == self.name@);
                        }
                    }
                }
                Some(c)
            },
        }
    }

    /// Adds a participant that is not yet a member.
    pub fn insert_client(&mut self, c: Client)
        requires
            old(self).wf(),
            !old(self).has(c.id),
            c.room@ == old(self).name@,
        ensures
            final(self).wf(),
            final(self).name == old(self).name,
            final(self).history == old(self).history,
            final(self).clients@ == old(self).clients@.push(c),
            final(self).has(c.id),
            forall|x: u16| x != c.id ==> (#[trigger] final(self).has(x) == old(self).has(x)),
    {
        let ghost cid = c.id;
        self.clients.push(c);
        proof {
            let n = old(self).clients@.len() as int;
            assert(self.clients@[n].id == cid);
            assert forall|x: u16| x != cid implies #[trigger] self.has(x) == old(self).has(x) by {
                if self.has(x) {
                    let k = choose|k: int| 0 <= k < self.clients@.len() && #[trigger] self.clients@[k].id == x;
                    assert(old(self).clients@[k].id == x);
                }
                if old(self).has(x) {
                    let k = choose|k: int| 0 <= k < n && #[trigger] old(self).clients@[k].id == x;
                    assert(self.clients@[k].id == x);
                }
            }
            assert forall|a: int, b: int| 0 <= a < b < self.clients@.len() implies #[trigger] self.clients@[a].id
                != #[trigger] self.clients@[b].id by {
                if b == n {
                    assert(old(self).clients@[a].id != cid);
                }
            }
        }
    }
}

} // verus!
