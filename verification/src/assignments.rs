//! The binding table of one owner: which backend resource each named field is bound to.

use vstd::prelude::*;
use crate::render_resource::{RenderResourceAssignment, RenderResourceAssignmentsId};

verus! {

/// The map that a list of named bindings stands for.
pub open spec fn bindings_of(entries: Seq<(String, RenderResourceAssignment)>) -> Map<
    Seq<char>,
    RenderResourceAssignment,
> {
    Map::new(
        |name: Seq<char>|
            exists|i: int| 0 <= i < entries.len() && (#[trigger] entries[i]).0@ == name,
        |name: Seq<char>|
            entries[choose|i: int| 0 <= i < entries.len() && (#[trigger] entries[i]).0@ == name].1,
    )
}

/// No name occurs twice in the list.
pub open spec fn names_distinct(entries: Seq<(String, RenderResourceAssignment)>) -> bool {
    forall|i: int, j: int|
        0 <= i < j < entries.len() ==> (#[trigger] entries[i]).0@ != (#[trigger] entries[j]).0@
}

proof fn lemma_binding_at(entries: Seq<(String, RenderResourceAssignment)>, i: int)
    requires
        names_distinct(entries),
        0 <= i < entries.len(),
    ensures
        bindings_of(entries).contains_key(entries[i].0@),
        bindings_of(entries)[entries[i].0@] == entries[i].1,
{
    let name = entries[i].0@;
    let j = choose|j: int| 0 <= j < entries.len() && (#[trigger] entries[j]).0@ == name;
    assert(j == i) by {
        if j < i {
            assert(entries[j].0@ != entries[i].0@);
        } else if i < j {
            assert(entries[i].0@ != entries[j].0@);
        }
    }
}

proof fn lemma_bindings_update(
    entries: Seq<(String, RenderResourceAssignment)>,
    i: int,
    entry: (String, RenderResourceAssignment),
)
    requires
        names_distinct(entries),
        0 <= i < entries.len(),
        entry.0@ == entries[i].0@,
    ensures
        names_distinct(entries.update(i, entry)),
        bindings_of(entries.update(i, entry)) =~= bindings_of(entries).insert(entry.0@, entry.1),
{
    let updated = entries.update(i, entry);
    assert forall|a: int, b: int| 0 <= a < b < updated.len() implies (#[trigger] updated[a]).0@ != (
    #[trigger] updated[b]).0@ by {
        assert(entries[a].0@ != entries[b].0@);
    }
    let target = bindings_of(entries).insert(entry.0@, entry.1);
    assert forall|name: Seq<char>| bindings_of(updated).contains_key(name)
        implies #[trigger] target.contains_key(name) by {
        let k = choose|k: int| 0 <= k < updated.len() && (#[trigger] updated[k]).0@ == name;
        assert(entries[k].0@ == name);
    }
    assert forall|name: Seq<char>| #[trigger] target.contains_key(name)
        implies bindings_of(updated).contains_key(name) by {
        if name == entry.0@ {
            assert(updated[i].0@ == name);
        } else {
            let k = choose|k: int| 0 <= k < entries.len() && (#[trigger] entries[k]).0@ == name;
            assert(updated[k].0@ == name);
        }
    }
    assert forall|name: Seq<char>| #[trigger] target.contains_key(name)
        implies bindings_of(updated)[name] == target[name] by {
        if name == entry.0@ {
            lemma_binding_at(updated, i);
        } else {
            let k = choose|k: int| 0 <= k < entries.len() && (#[trigger] entries[k]).0@ == name;
            lemma_binding_at(entries, k);
            assert(updated[k] == entries[k]);
            lemma_binding_at(updated, k);
        }
    }
}

proof fn lemma_bindings_push(
    entries: Seq<(String, RenderResourceAssignment)>,
    entry: (String, RenderResourceAssignment),
)
    requires
        names_distinct(entries),
        !bindings_of(entries).contains_key(entry.0@),
    ensures
        names_distinct(entries.push(entry)),
        bindings_of(entries.push(entry)) =~= bindings_of(entries).insert(entry.0@, entry.1),
{
    let pushed = entries.push(entry);
    let last = entries.len() as int;
    assert forall|a: int, b: int| 0 <= a < b < pushed.len() implies (#[trigger] pushed[a]).0@ != (
    #[trigger] pushed[b]).0@ by {
        if b < last {
            assert(entries[a].0@ != entries[b].0@);
        } else {
            assert(pushed[a] == entries[a]);
            if entries[a].0@ == entry.0@ {
                assert(bindings_of(entries).contains_key(entry.0@));
            }
        }
    }
    let target = bindings_of(entries).insert(entry.0@, entry.1);
    assert forall|name: Seq<char>| bindings_of(pushed).contains_key(name)
        implies #[trigger] target.contains_key(name) by {
        let k = choose|k: int| 0 <= k < pushed.len() && (#[trigger] pushed[k]).0@ == name;
        if k < last {
            assert(entries[k].0@ == name);
        }
    }
    assert forall|name: Seq<char>| #[trigger] target.contains_key(name)
        implies bindings_of(pushed).contains_key(name) by {
        if name == entry.0@ {
            assert(pushed[last].0@ == name);
        } else {
            let k = choose|k: int| 0 <= k < entries.len() && (#[trigger] entries[k]).0@ == name;
            assert(pushed[k].0@ == name);
        }
    }
    assert forall|name: Seq<char>| #[trigger] target.contains_key(name)
        implies bindings_of(pushed)[name] == target[name] by {
        if name == entry.0@ {
            lemma_binding_at(pushed, last);
        } else {
            let k = choose|k: int| 0 <= k < entries.len() && (#[trigger] entries[k]).0@ == name;
            lemma_binding_at(entries, k);
            assert(pushed[k] == entries[k]);
            lemma_binding_at(pushed, k);
        }
    }
}

proof fn lemma_bindings_take(entries: Seq<(String, RenderResourceAssignment)>, i: int)
    requires
        names_distinct(entries),
        0 <= i < entries.len(),
    ensures
        names_distinct(entries.take(i)),
        bindings_of(entries.take(i + 1)) =~= bindings_of(entries.take(i)).insert(
            entries[i].0@,
            entries[i].1,
        ),
{
    let head = entries.take(i);
    assert forall|a: int, b: int| 0 <= a < b < head.len() implies (#[trigger] head[a]).0@ != (
    #[trigger] head[b]).0@ by {
        assert(entries[a].0@ != entries[b].0@);
    }
    if bindings_of(head).contains_key(entries[i].0@) {
        let k = choose|k: int| 0 <= k < head.len() && (#[trigger] head[k]).0@ == entries[i].0@;
        assert(entries[k].0@ != entries[i].0@);
    }
    lemma_bindings_push(head, entries[i]);
    assert(entries.take(i + 1) =~= head.push(entries[i]));
}

/// Per-owner table from field name to the backend resource bound under that name.
#[derive(Debug)]
pub struct RenderResourceAssignments {
    pub id: RenderResourceAssignmentsId,
    pub render_resources: Vec<(String, RenderResourceAssignment)>,
}

impl View for RenderResourceAssignments {
    type V = Map<Seq<char>, RenderResourceAssignment>;

    open spec fn view(&self) -> Map<Seq<char>, RenderResourceAssignment> {
        bindings_of(self.render_resources@)
    }
}

impl RenderResourceAssignments {
    /// Every name is bound at most once.
    pub open spec fn wf(&self) -> bool {
        names_distinct(self.render_resources@)
    }

    /// An empty table for the owner `id`.
    pub fn new(id: RenderResourceAssignmentsId) -> (table: Self)
        ensures
            table.wf(),
            table.id == id,
            table@ == Map::<Seq<char>, RenderResourceAssignment>::empty(),
    {
        let table = RenderResourceAssignments { id, render_resources: Vec::new() };
        assert(table@ =~= Map::<Seq<char>, RenderResourceAssignment>::empty());
        table
    }

    fn position(&self, name: &str) -> (found: Option<usize>)
        ensures
            match found {
                Some(i) => i < self.render_resources@.len() && self.render_resources@[i as int].0@
                    == name@,
                None => !self@.contains_key(name@),
            },
    {
        let wanted = name.to_owned();
        let mut i: usize = 0;
        while i < self.render_resources.len()
            invariant
                i <= self.render_resources@.len(),
                wanted@ == name@,
                forall|j: int| 0 <= j < i ==> (#[trigger] self.render_resources@[j]).0@ != name@,
            decreases self.render_resources@.len() - i,
        {
            if self.render_resources[i].0 == wanted {
                return Some(i);
            }
            i += 1;
        }
        None
    }

    /// The binding recorded under `name`, if there is one.
    pub fn get(&self, name: &str) -> (assignment: Option<RenderResourceAssignment>)
        requires
            self.wf(),
        ensures
            assignment == (if self@.contains_key(name@) {
                Some(self@[name@])
            } else {
                None
            }),
    {
        match self.position(name) {
            Some(i) => {
                proof {
                    lemma_binding_at(self.render_resources@, i as int);
                }
                Some(self.render_resources[i].1)
            },
            None => None,
        }
    }

    /// Binds `name` to `assignment`, replacing what was bound under that name.
    pub fn set(&mut self, name: &str, assignment: RenderResourceAssignment)
        requires
            old(self).wf(),
        ensures
            final(self).wf(),
            final(self).id == old(self).id,
            final(self)@ == old(self)@.insert(name@, assignment),
    {
        match self.position(name) {
            Some(i) => {
                proof {
                    lemma_bindings_update(
                        self.render_resources@,
                        i as int,
                        (self.render_resources@[i as int].0, assignment),
                    );
                }
                self.render_resources[i].1 = assignment;
            },
            None => {
                let owned = name.to_owned();
                proof {
                    lemma_bindings_push(self.render_resources@, (owned, assignment));
                }
                self.render_resources.push((owned, assignment));
            },
        }
    }

    /// Copies every binding of `other` into this table, replacing bindings of the same name.
    pub fn extend(&mut self, other: &RenderResourceAssignments)
        requires
            old(self).wf(),
            other.wf(),
        ensures
            final(self).wf(),
            final(self).id == old(self).id,
            final(self)@ == old(self)@.union_prefer_right(other@),
    {
        let mut i: usize = 0;
        assert(other.render_resources@.take(0) =~= Seq::empty());
        assert(self@ =~= old(self)@.union_prefer_right(
            bindings_of(other.render_resources@.take(0)),
        ));
        while i < other.render_resources.len()
            invariant
                i <= other.render_resources@.len(),
                other.wf(),
                self.wf(),
                self.id == old(self).id,
                self@ == old(self)@.union_prefer_right(
                    bindings_of(other.render_resources@.take(i as int)),
                ),
            decreases other.render_resources@.len() - i,
        {
            proof {
                lemma_bindings_take(other.render_resources@, i as int);
            }
            self.set(other.render_resources[i].0.as_str(), other.render_resources[i].1);
            assert(self@ =~= old(self)@.union_prefer_right(
                bindings_of(other.render_resources@.take(i + 1)),
            ));
            i += 1;
        }
        assert(other.render_resources@.take(i as int) =~= other.render_resources@);
    }
}

} // verus!
