//! The room index: room-name aliases (case-sensitive) to waypoint handles.
use vstd::prelude::*;

verus! {

/// The map that a list of `(name, handle)` insertions leaves: a later
/// insertion of a name replaces an earlier one.
pub open spec fn insertions_map(es: Seq<(String, usize)>) -> Map<Seq<char>, usize>
    decreases es.len(),
{
    if es.len() == 0 {
        Map::empty()
    } else {
        insertions_map(es.drop_last()).insert(es.last().0@, es.last().1)
    }
}

proof fn lemma_later_entries_miss(es: Seq<(String, usize)>, i: int, k: Seq<char>)
    requires
        0 <= i <= es.len(),
        forall|j: int| i <= j < es.len() ==> (#[trigger] es[j]).0@ != k,
    ensures
        insertions_map(es).contains_key(k) == insertions_map(es.take(i)).contains_key(k),
        insertions_map(es)[k] == insertions_map(es.take(i))[k],
    decreases es.len() - i,
{
    if i < es.len() {
        lemma_later_entries_miss(es.drop_last(), i, k);
        assert(es.drop_last().take(i) =~= es.take(i));
        assert(es.last() == es[es.len() - 1]);
    } else {
        assert(es.take(i) =~= es);
    }
}

/// Room names mapped to waypoint handles.
pub struct RoomIndex {
    entries: Vec<(String, usize)>,
}

impl View for RoomIndex {
    type V = Map<Seq<char>, usize>;

    closed spec fn view(&self) -> Map<Seq<char>, usize> {
        insertions_map(self.entries@)
    }
}

impl RoomIndex {
    pub fn new() -> (r: RoomIndex)
        ensures
            r@ == Map::<Seq<char>, usize>::empty(),
    {
        RoomIndex { entries: Vec::new() }
    }

    /// Points `name` at `handle`, replacing what it pointed at before.
    pub fn insert(&mut self, name: String, handle: usize)
        ensures
            final(self)@ == old(self)@.insert(name@, handle),
    {
        self.entries.push((name, handle));
        assert(self.entries@.drop_last() =~= old(self).entries@);
    }

    /// The handle that `name` points at; `None` for a name never inserted.
    pub fn lookup(&self, name: &String) -> (r: Option<usize>)
        ensures
            r is Some <==> self@.contains_key(name@),
            r matches Some(h) ==> h == self@[name@],
    {
        let mut i: usize = self.entries.len();
        while i > 0
            invariant
                0 <= i <= self.entries@.len(),
                forall|j: int| i <= j < self.entries@.len() ==> (#[trigger] self.entries@[j]).0@ != name@,
            decreases i,
        {
            let e = &self.entries[i - 1];
            if e.0 == *name {
                proof {
                    lemma_later_entries_miss(self.entries@, i as int, name@);
                    assert(self.entries@.take(i as int).drop_last() =~= self.entries@.take(i - 1));
                }
                return Some(e.1);
            }
            i = i - 1;
        }
        proof {
            lemma_later_entries_miss(self.entries@, 0, name@);
            assert(self.entries@.take(0) =~= Seq::<(String, usize)>::empty());
        }
        None
    }
}

} // verus!
