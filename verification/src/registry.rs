//! The registry of chat groups: a mapping from group name to group, shared
//! by every connection, mutated only to register a new group on the first
//! join that names it. Groups are never removed.
use vstd::prelude::*;

use crate::group::Group;

verus! {

/// The server's current table of chat groups.
pub struct GroupTable {
    pub groups: Vec<Group>,
}

/// How a `get_or_create` call leaves the table: either the name was already
/// registered and nothing changed, or exactly one new, empty, open group
/// with that name was appended. Either way entry `i` carries the name.
pub open spec fn get_or_create_post(
    old_t: GroupTable,
    new_t: GroupTable,
    i: int,
    name: Seq<char>,
) -> bool {
    &&& 0 <= i < new_t.groups@.len()
    &&& new_t.groups@[i].name@ == name
    &&& if old_t.contains_name(name) {
        new_t == old_t
    } else {
        &&& i == old_t.groups@.len()
        &&& new_t.groups@.len() == old_t.groups@.len() + 1
        &&& new_t.groups@.subrange(0, i) == old_t.groups@
        &&& new_t.groups@[i].total == 0
        &&& new_t.groups@[i].history@ == Seq::<Seq<char>>::empty()
        &&& !new_t.groups@[i].closed
    }
}

impl GroupTable {
    /// Every group is well formed, and at most one group exists per name.
    pub open spec fn wf(&self) -> bool {
        &&& forall|i: int| 0 <= i < self.groups@.len() ==> (#[trigger] self.groups@[i]).wf()
        &&& forall|i: int, j: int|
            0 <= i < j < self.groups@.len() ==> (#[trigger] self.groups@[i]).name@
                != (#[trigger] self.groups@[j]).name@
    }

    /// Is a group with this name registered?
    pub open spec fn contains_name(&self, name: Seq<char>) -> bool {
        exists|i: int| 0 <= i < self.groups@.len() && (#[trigger] self.groups@[i]).name@ == name
    }

    /// No group's message counter is saturated, so a post can be accepted.
    pub open spec fn can_accept(&self) -> bool {
        forall|i: int| 0 <= i < self.groups@.len() ==> (#[trigger] self.groups@[i]).total
            < u64::MAX
    }

    /// An empty table: no group exists before the first join.
    pub fn new() -> (t: GroupTable)
        ensures
            t.wf(),
            t.groups@.len() == 0,
    {
        GroupTable { groups: Vec::new() }
    }

    /// Look a group up by name. Never creates: absence means no join has
    /// ever named this group.
    pub fn get(&self, name: &String) -> (r: Option<usize>)
        ensures
            match r {
                Some(i) => i < self.groups@.len() && self.groups@[i as int].name@ == name@,
                None => !self.contains_name(name@),
            },
    {
        let n = self.groups.len();
        let mut i: usize = 0;
        while i < n
            invariant
                i <= n,
                n == self.groups@.len(),
                forall|k: int| 0 <= k < i ==> (#[trigger] self.groups@[k]).name@ != name@,
            decreases n - i,
        {
            if self.groups[i].name == *name {
                return Some(i);
            }
            i += 1;
        }
        None
    }

    /// The one mutating operation: find the group with this name, or
    /// register it first. Check and insertion happen in one step, so exactly
    /// one group ever exists per name and every caller observes it.
    pub fn get_or_create(&mut self, name: String) -> (i: usize)
        requires
            old(self).wf(),
        ensures
            final(self).wf(),
            get_or_create_post(*old(self), *final(self), i as int, name@),
    {
        match self.get(&name) {
            Some(i) => {
                proof {
                    assert(self.contains_name(name@));
                }
                i
            },
            None => {
                let i = self.groups.len();
                self.groups.push(Group::new(name));
                proof {
                    assert(self.groups@.subrange(0, i as int) =~= old(self).groups@);
                    assert forall|p: int, q: int| 0 <= p < q < self.groups@.len()
                        implies (#[trigger] self.groups@[p]).name@
                            != (#[trigger] self.groups@[q]).name@ by {
                        if q == i as int {
                            assert(self.groups@[p] == old(self).groups@[p]);
                        }
                    }
                }
                i
            },
        }
    }
}

/// Law: at most one group exists per name — two registered groups with the
/// same name are the same entry.
pub proof fn lemma_one_group_per_name(t: GroupTable, i: int, j: int)
    requires
        t.wf(),
        0 <= i < t.groups@.len(),
        0 <= j < t.groups@.len(),
        t.groups@[i].name@ == t.groups@[j].name@,
    ensures
        i == j,
{
}

/// Law: `get_or_create` is idempotent — once a call has registered a name,
/// a second call for the same name changes nothing and yields the same
/// entry.
pub proof fn lemma_get_or_create_idempotent(
    t0: GroupTable,
    t1: GroupTable,
    t2: GroupTable,
    i1: int,
    i2: int,
    name: Seq<char>,
)
    requires
        t0.wf(),
        get_or_create_post(t0, t1, i1, name),
        get_or_create_post(t1, t2, i2, name),
    ensures
        t2 == t1,
        i2 == i1,
{
    assert(t1.contains_name(name));
    assert(t2 == t1);
    if i1 != i2 {
        if t0.contains_name(name) {
            lemma_one_group_per_name(t0, i1, i2);
        } else {
            assert(i2 < t0.groups@.len());
            assert(t1.groups@[i2] == t1.groups@.subrange(0, i1)[i2]);
            assert(t0.groups@[i2].name@ == name);
            assert(t0.contains_name(name));
        }
    }
}

} // verus!
