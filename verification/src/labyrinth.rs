//! A verified model of the labyrinth strategy: a husband memorizes which
//! wife is in which room and follows the cycle his own wife's number
//! starts, for at most fifty steps.

use vstd::prelude::*;

verus! {

/// The number of rooms of the labyrinth.
pub open spec fn room_count() -> int {
    100
}

/// The number of rooms a husband may open.
pub open spec fn step_limit() -> int {
    50
}

/// A husband, remembering for each room the wife he found in it.
#[derive(Debug)]
pub struct Husband {
    brain: Vec<usize>,
}

impl View for Husband {
    type V = Seq<usize>;

    closed spec fn view(&self) -> Seq<usize> {
        self.brain@
    }
}

impl Husband {
    /// A husband looking for his wife starts by writing her number into
    /// the slot of the first room.
    pub fn seeking(my_wife: usize) -> (r: Self)
        ensures
            r@.len() == room_count(),
            r@[0] == my_wife,
            forall|j: int| 1 <= j < room_count() ==> r@[j] == 0,
    {
        let mut brain: Vec<usize> = Vec::new();
        let mut i: usize = 0;
        while i < 100
            invariant
                i <= 100,
                brain@.len() == i,
                forall|j: int| 0 <= j < i ==> brain@[j] == 0,
            decreases 100 - i,
        {
            brain.push(0);
            i = i + 1;
        }
        brain.set(0, my_wife);
        Self { brain }
    }

    /// Devises the strategy of following the cycle: it walks from room to
    /// room as the remembered wives dictate.  The strategy walks the
    /// memory as it stood when devised; rooms checked afterwards do not
    /// steer it.
    pub fn has_devised_a_strategy(&self) -> (r: Strategy)
        requires
            self@.len() == room_count(),
        ensures
            r.rooms@ == self@,
            r.current == 0,
            r.steps == 0,
    {
        let mut rooms: Vec<usize> = Vec::new();
        let mut i: usize = 0;
        while i < self.brain.len()
            invariant
                i <= self@.len(),
                rooms@ == self@.subrange(0, i as int),
            decreases self@.len() - i,
        {
            rooms.push(self.brain[i]);
            i = i + 1;
            proof {
                assert(rooms@ =~= self@.subrange(0, i as int));
            }
        }
        proof {
            assert(self@.subrange(0, self@.len() as int) =~= self@);
        }
        Strategy { rooms, current: 0, steps: 0 }
    }

    /// Memorizes which wife is inside the visited room.
    pub fn carefully_checks_whos_inside(&mut self, room: usize, wife: usize)
        requires
            room < old(self)@.len(),
        ensures
            final(self)@ == old(self)@.update(room as int, wife),
    {
        self.brain.set(room, wife);
    }
}

/// A strategy of a husband: the rooms to visit, following the remembered
/// numbers, at most fifty of them.
#[derive(Debug)]
pub struct Strategy {
    /// The remembered occupant of each room at the time the strategy was
    /// devised.
    pub rooms: Vec<usize>,
    /// The room to open next.
    pub current: usize,
    /// How many rooms were opened so far.
    pub steps: usize,
}

impl Strategy {
    /// Yields the next room to open: the current one, and then walks on
    /// to the room its remembered occupant names.  Stops after fifty
    /// rooms, or when the walk would leave the labyrinth.
    pub fn next(&mut self) -> (r: Option<usize>)
        ensures
            old(self).steps >= step_limit() ==> r is None && *final(self) == *old(self),
            old(self).steps < step_limit() && old(self).current >= old(self).rooms@.len()
                ==> r is None && *final(self) == *old(self),
            old(self).steps < step_limit() && old(self).current < old(self).rooms@.len() ==> (r
                == Some(old(self).current) && final(self).rooms@ == old(self).rooms@
                && final(self).current == old(self).rooms@[old(self).current as int]
                && final(self).steps == old(self).steps + 1),
    {
        if self.steps >= 50 {
            return None;
        }
        if self.current >= self.rooms.len() {
            return None;
        }
        let next_room = self.current;
        self.current = self.rooms[next_room];
        self.steps = self.steps + 1;
        Some(next_room)
    }
}

} // verus!
