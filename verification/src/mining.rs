//! The miner roster.
//!
//! A node keeps the list of known miners, with the host in slot 0, and a
//! round-robin pointer `last_block_mined_by` that gates which node produces
//! the next block. Slot 0 is never removed.

use vstd::prelude::*;

verus! {

/// A miner in the network, named by its peer id.
#[derive(Debug)]
pub struct Miner {
    pub id: String,
}

impl Clone for Miner {
    fn clone(&self) -> (r: Self)
        ensures
            r == *self,
    {
        Miner { id: self.id.clone() }
    }
}

impl PartialEq for Miner {
    fn eq(&self, other: &Miner) -> (r: bool) {
        self.id == other.id
    }
}

impl Eq for Miner {

}

impl vstd::std_specs::cmp::PartialEqSpecImpl for Miner {
    open spec fn obeys_eq_spec() -> bool {
        true
    }

    open spec fn eq_spec(&self, other: &Miner) -> bool {
        self.id@ == other.id@
    }
}

impl Miner {
    /// Make a miner with the given peer id.
    pub fn new(id: &str) -> (r: Self)
        ensures
            r.id@ == id@,
    {
        Miner { id: id.to_owned() }
    }

    /// The peer id of this miner.
    pub fn id(&self) -> (r: &str)
        ensures
            r@ == self.id@,
    {
        self.id.as_str()
    }
}

/// The position of the first miner in `s` whose id is `id`, if any.
pub open spec fn first_index_of(s: Seq<Miner>, id: Seq<char>) -> Option<int>
    decreases s.len(),
{
    if s.len() == 0 {
        None
    } else if s[0].id@ == id {
        Some(0int)
    } else {
        match first_index_of(s.drop_first(), id) {
            None => None,
            Some(i) => Some(i + 1),
        }
    }
}

/// Whether some miner in `s` carries `id`.
pub open spec fn roster_contains(s: Seq<Miner>, id: Seq<char>) -> bool {
    exists|i: int| 0 <= i < s.len() && s[i].id@ == id
}

/// What `first_index_of` finds: the first position whose miner carries `id`,
/// or nothing when no miner does.
pub proof fn lemma_first_index_of(s: Seq<Miner>, id: Seq<char>)
    ensures
        match first_index_of(s, id) {
            Some(i) => 0 <= i < s.len() && s[i].id@ == id && forall|j: int|
                0 <= j < i ==> s[j].id@ != id,
            None => !roster_contains(s, id),
        },
    decreases s.len(),
{
    if s.len() > 0 && s[0].id@ != id {
        let t = s.drop_first();
        lemma_first_index_of(t, id);
        assert forall|j: int| 0 <= j < t.len() implies t[j] == s[j + 1] by {}
        match first_index_of(t, id) {
            None => {
                assert forall|i: int| 0 <= i < s.len() implies s[i].id@ != id by {
                    if i > 0 {
                        assert(t[i - 1] == s[i]);
                        assert(t[i - 1].id@ != id);
                    }
                }
            },
            Some(k) => {
                assert(s[k + 1].id@ == id);
                assert forall|j: int| 0 <= j < k + 1 implies s[j].id@ != id by {
                    if j > 0 {
                        assert(t[j - 1] == s[j]);
                    }
                }
            },
        }
    }
}

/// The roster after a registration: unchanged when the id is already present,
/// else the miner appended.
pub open spec fn spec_register(s: Seq<Miner>, m: Miner) -> Seq<Miner> {
    if roster_contains(s, m.id@) {
        s
    } else {
        s.push(m)
    }
}

/// The roster after an unregistration: the first miner with that id removed,
/// except that slot 0, the host, is never removed.
pub open spec fn spec_unregister(s: Seq<Miner>, id: Seq<char>) -> Seq<Miner> {
    match first_index_of(s, id) {
        Some(i) => if i != 0 {
            s.remove(i)
        } else {
            s
        },
        None => s,
    }
}

/// The miner the round-robin pointer rests on: the first roster entry whose
/// id equals the pointer, if the pointer is set and its id is still known.
pub open spec fn last_miner_of(s: Seq<Miner>, last: Option<Seq<char>>) -> Option<Miner> {
    match last {
        None => None,
        Some(id) => match first_index_of(s, id) {
            None => None,
            Some(i) => Some(s[i]),
        },
    }
}

/// Where the round-robin pointer moves on an advance: slot 0 when it was
/// unset or fell off the roster, else one past its slot, wrapping to 0.
pub open spec fn spec_next_index(s: Seq<Miner>, last: Option<Seq<char>>) -> int {
    match last_miner_of(s, last) {
        None => 0,
        Some(m) => {
            let k = match first_index_of(s, m.id@) {
                Some(i) => i,
                None => 0,
            };
            if k + 1 > s.len() - 1 {
                0
            } else {
                k + 1
            }
        },
    }
}

/// The roster of known miners and the round-robin pointer.
pub struct MiningDatabase {
    pub miners: Vec<Miner>,
    pub last_block_mined_by: Option<String>,
}

/// A roster is well formed when the host slot is occupied.
pub open spec fn roster_wf(db: MiningDatabase) -> bool {
    db.miners@.len() >= 1
}

/// The round-robin pointer as a sequence of characters.
pub open spec fn spec_last_id(db: MiningDatabase) -> Option<Seq<char>> {
    match db.last_block_mined_by {
        Some(s) => Some(s@),
        None => None,
    }
}

impl MiningDatabase {
    /// Make a roster holding only the host miner, with the pointer unset.
    pub fn new(host_miner: Miner) -> (r: Self)
        ensures
            r.miners@ == seq![host_miner],
            r.last_block_mined_by is None,
            roster_wf(r),
    {
        let r = MiningDatabase { miners: vec![host_miner], last_block_mined_by: None };
        assert(r.miners@ =~= seq![host_miner]);
        r
    }

    /// The known miners, host first.
    pub fn miners(&self) -> (r: &Vec<Miner>)
        ensures
            r@ == self.miners@,
    {
        &self.miners
    }

    /// The host miner, slot 0 of the roster.
    pub fn host(&self) -> (r: &Miner)
        requires
            roster_wf(*self),
        ensures
            *r == self.miners@[0],
    {
        &self.miners[0]
    }

    /// The miner the round-robin pointer rests on, if any.
    pub fn last_block_mined_by(&self) -> (r: Option<&Miner>)
        ensures
            match last_miner_of(self.miners@, spec_last_id(*self)) {
                Some(m) => r matches Some(rm) && *rm == m,
                None => r is None,
            },
    {
        match &self.last_block_mined_by {
            None => None,
            Some(id) => {
                let id = id.clone();
                self.miner_by_id(id.as_str())
            },
        }
    }

    /// Append `miner` unless a miner with its id is already known.
    pub fn register_miner(&mut self, miner: Miner)
        ensures
            final(self).miners@ == spec_register(old(self).miners@, miner),
            final(self).last_block_mined_by == old(self).last_block_mined_by,
    {
        if !self.miner_exists(miner.id.as_str()) {
            self.miners.push(miner);
        }
    }

    /// Remove the first miner with this id, never touching slot 0.
    /// On an id that no miner carries, the roster is left unchanged.
    pub fn unregister_miner(&mut self, id: &str)
        ensures
            final(self).miners@ == spec_unregister(old(self).miners@, id@),
            final(self).last_block_mined_by == old(self).last_block_mined_by,
    {
        proof {
            lemma_first_index_of(self.miners@, id@);
        }
        if let Some(index) = self.index_of(id) {
            if index != 0 {
                self.miners.remove(index);
            }
        }
    }

    /// Advance the round-robin pointer: to slot 0 when it was unset, else to
    /// the next slot, wrapping around to the host.
    pub fn set_last_block_miner(&mut self)
        requires
            roster_wf(*old(self)),
        ensures
            final(self).miners@ == old(self).miners@,
            final(self).last_block_mined_by matches Some(id) && id@ == old(self).miners@[
                spec_next_index(old(self).miners@, spec_last_id(*old(self)))].id@,
    {
        let ghost s = self.miners@;
        let mut index: usize = 0;
        let last = self.last_block_mined_by();
        if let Some(last_block_miner) = last {
            let last_id = last_block_miner.id.clone();
            proof {
                lemma_first_index_of(s, last_id@);
            }
            let new_index = match self.index_of(last_id.as_str()) {
                Some(i) => i,
                None => 0,
            };
            assert(self.miners@.len() >= 1);
            assert(new_index < self.miners@.len());
            index = if new_index >= self.miners.len() - 1 {
                0
            } else {
                new_index + 1
            };
        }
        let id = self.miners[index].id.clone();
        assert(s[index as int].id@ == id@);
        if self.miner_exists(id.as_str()) {
            self.last_block_mined_by = Some(id);
        }
    }

    /// The slot of the first miner with this id, if any.
    pub fn index_of(&self, id: &str) -> (r: Option<usize>)
        ensures
            match r {
                Some(i) => first_index_of(self.miners@, id@) == Some(i as int),
                None => first_index_of(self.miners@, id@) is None,
            },
    {
        proof {
            lemma_first_index_of(self.miners@, id@);
        }
        let wanted = id.to_owned();
        let n = self.miners.len();
        let mut i: usize = 0;
        while i < n
            invariant
                n == self.miners@.len(),
                i <= n,
                wanted@ == id@,
                forall|j: int| 0 <= j < i ==> self.miners@[j].id@ != id@,
            decreases n - i,
        {
            if self.miners[i].id == wanted {
                proof {
                    lemma_first_index_of(self.miners@, id@);
                }
                return Some(i);
            }
            i += 1;
        }
        None
    }

    /// The miner in slot `index`, if the slot exists.
    pub fn at(&self, index: usize) -> (r: Option<&Miner>)
        ensures
            match r {
                Some(m) => index < self.miners@.len() && *m == self.miners@[index as int],
                None => index >= self.miners@.len(),
            },
    {
        if index < self.miners.len() {
            Some(&self.miners[index])
        } else {
            None
        }
    }

    /// Whether a miner with this id is known.
    pub fn miner_exists(&self, id: &str) -> (r: bool)
        ensures
            r == roster_contains(self.miners@, id@),
    {
        let wanted = id.to_owned();
        let n = self.miners.len();
        let mut i: usize = 0;
        while i < n
            invariant
                n == self.miners@.len(),
                i <= n,
                wanted@ == id@,
                forall|j: int| 0 <= j < i ==> self.miners@[j].id@ != id@,
            decreases n - i,
        {
            if self.miners[i].id == wanted {
                assert(self.miners@[i as int].id@ == id@);
                return true;
            }
            i += 1;
        }
        false
    }

    /// Whether the rotation rests on the host: only then does this node
    /// mine the next block.
    pub fn should_mine_new_block(&self) -> (r: bool)
        requires
            roster_wf(*self),
        ensures
            r == (match last_miner_of(self.miners@, spec_last_id(*self)) {
                Some(m) => m.id@ == self.miners@[0].id@,
                None => false,
            }),
    {
        let host_id = self.miners[0].id.clone();
        match self.last_block_mined_by() {
            Some(m) => {
                let last_id = m.id.clone();
                last_id == host_id
            },
            None => false,
        }
    }

    /// The first miner with this id, if any.
    pub fn miner_by_id(&self, id: &str) -> (r: Option<&Miner>)
        ensures
            match first_index_of(self.miners@, id@) {
                Some(i) => r matches Some(m) && *m == self.miners@[i],
                None => r is None,
            },
    {
        match self.index_of(id) {
            Some(i) => {
                proof {
                    lemma_first_index_of(self.miners@, id@);
                }
                Some(&self.miners[i])
            },
            None => {
                proof {
                    lemma_first_index_of(self.miners@, id@);
                }
                None
            },
        }
    }
}

/// Registering a miner a second time leaves the roster exactly as the first
/// registration left it.
pub proof fn lemma_register_miner_idempotent(s: Seq<Miner>, m: Miner)
    ensures
        spec_register(spec_register(s, m), m) == spec_register(s, m),
{
    if !roster_contains(s, m.id@) {
        assert(s.push(m)[s.len() as int] == m);
        assert(roster_contains(s.push(m), m.id@));
    }
}

/// Unregistering an id that no miner carries leaves the roster unchanged.
pub proof fn lemma_unregister_unknown_noop(s: Seq<Miner>, id: Seq<char>)
    requires
        !roster_contains(s, id),
    ensures
        spec_unregister(s, id) == s,
{
    lemma_first_index_of(s, id);
    match first_index_of(s, id) {
        Some(i) => {
            assert(s[i].id@ == id);
            assert(roster_contains(s, id));
        },
        None => {},
    }
}

} // verus!
