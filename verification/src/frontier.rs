//! The open set of a search: scored identifiers, of which the one with the
//! least score leaves first and, among equal scores, the least identifier.

use vstd::prelude::*;

verus! {

/// Whether entry `a` leaves an open set no later than entry `b`.
pub open spec fn leaves_first(a: (u32, usize), b: (u32, usize)) -> bool {
    a.0 < b.0 || (a.0 == b.0 && a.1 <= b.1)
}

/// Scored identifiers waiting to be looked at.
pub struct OpenSet {
    pub entries: Vec<(u32, usize)>,
}

impl View for OpenSet {
    type V = Seq<(u32, usize)>;

    open spec fn view(&self) -> Seq<(u32, usize)> {
        self.entries@
    }
}

impl OpenSet {
    pub fn new() -> (set: OpenSet)
        ensures
            set@ == Seq::<(u32, usize)>::empty(),
    {
        OpenSet { entries: Vec::new() }
    }

    pub fn len(&self) -> (len: usize)
        ensures
            len == self@.len(),
    {
        self.entries.len()
    }

    /// Adds identifier `id` with score `score`.
    pub fn push(&mut self, score: u32, id: usize)
        ensures
            final(self)@ == old(self)@.push((score, id)),
    {
        self.entries.push((score, id));
    }

    /// Takes out the entry that leaves first, if there is any.
    pub fn pop_least(&mut self) -> (least: Option<(u32, usize)>)
        ensures
            least is None <==> old(self)@.len() == 0,
            least is None ==> final(self)@ == old(self)@,
            least is Some ==> exists|i: int|
                0 <= i < old(self)@.len() && #[trigger] old(self)@[i] == least->0 && final(self)@
                    == old(self)@.remove(i),
            least is Some ==> forall|i: int|
                0 <= i < old(self)@.len() ==> leaves_first(least->0, #[trigger] old(self)@[i]),
    {
        if self.entries.len() == 0 {
            return None;
        }
        let mut best: usize = 0;
        let mut i: usize = 1;
        while i < self.entries.len()
            invariant
                0 <= best < i <= self.entries.len(),
                forall|j: int|
                    0 <= j < i ==> leaves_first(self.entries@[best as int], #[trigger] self.entries@[j]),
            decreases self.entries.len() - i,
        {
            let candidate = self.entries[i];
            let leader = self.entries[best];
            if candidate.0 < leader.0 || (candidate.0 == leader.0 && candidate.1 < leader.1) {
                best = i;
            }
            i += 1;
        }
        let least = self.entries.remove(best);
        assert(old(self)@[best as int] == least);
        Some(least)
    }
}

} // verus!
