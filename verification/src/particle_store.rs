//! Current and previous positions of the particles, side by side.
//!
//! A particle is its index: particles are appended and never removed, so an
//! index, once handed out, names the same particle for good. The store does
//! not look into a position; `P` is whatever the caller's coordinates are.

use vstd::prelude::*;

verus! {

/// What a store holds: the two position sequences.
pub struct StoreView<P> {
    pub current: Seq<P>,
    pub previous: Seq<P>,
}

impl<P> StoreView<P> {
    /// Both sequences have one entry per particle.
    pub open spec fn wf(self) -> bool {
        self.current.len() == self.previous.len()
    }

    /// Number of particles.
    pub open spec fn len(self) -> nat {
        self.current.len()
    }
}

/// Current and previous position of every particle, by particle index.
pub struct ParticleStore<P> {
    current: Vec<P>,
    previous: Vec<P>,
}

impl<P> View for ParticleStore<P> {
    type V = StoreView<P>;

    closed spec fn view(&self) -> StoreView<P> {
        StoreView { current: self.current@, previous: self.previous@ }
    }
}

impl<P> ParticleStore<P> {
    /// The two sequences are of equal length.
    pub open spec fn wf(&self) -> bool {
        self@.wf()
    }

    /// A store without particles.
    pub fn new() -> (store: Self)
        ensures
            store.wf(),
            store@.len() == 0,
    {
        ParticleStore { current: Vec::new(), previous: Vec::new() }
    }

    /// Adds a particle at `position` that was at `previous` one step ago, and
    /// returns its index: the number of particles before the call.
    pub fn append(&mut self, position: P, previous: P) -> (id: usize)
        requires
            old(self).wf(),
        ensures
            final(self).wf(),
            id == old(self)@.len(),
            final(self)@.current == old(self)@.current.push(position),
            final(self)@.previous == old(self)@.previous.push(previous),
    {
        let id = self.current.len();
        self.current.push(position);
        self.previous.push(previous);
        id
    }

    /// Number of particles.
    pub fn len(&self) -> (n: usize)
        ensures
            n == self@.len(),
    {
        self.current.len()
    }

    /// Current position of particle `id`.
    pub fn get(&self, id: usize) -> (position: &P)
        requires
            self.wf(),
            id < self@.len(),
        ensures
            *position == self@.current[id as int],
    {
        &self.current[id]
    }

    /// Position of particle `id` one step ago.
    pub fn get_previous(&self, id: usize) -> (position: &P)
        requires
            self.wf(),
            id < self@.len(),
        ensures
            *position == self@.previous[id as int],
    {
        &self.previous[id]
    }

    /// Moves particle `id` to `position`; nothing else changes.
    pub fn set(&mut self, id: usize, position: P)
        requires
            old(self).wf(),
            id < old(self)@.len(),
        ensures
            final(self).wf(),
            final(self)@.current == old(self)@.current.update(id as int, position),
            final(self)@.previous == old(self)@.previous,
    {
        self.current[id] = position;
    }

    /// Records `position` as where particle `id` was one step ago; nothing
    /// else changes.
    pub fn set_previous(&mut self, id: usize, position: P)
        requires
            old(self).wf(),
            id < old(self)@.len(),
        ensures
            final(self).wf(),
            final(self)@.current == old(self)@.current,
            final(self)@.previous == old(self)@.previous.update(id as int, position),
    {
        self.previous[id] = position;
    }

    /// The current positions, by particle index.
    pub fn positions(&self) -> (all: &Vec<P>)
        ensures
            all@ == self@.current,
    {
        &self.current
    }

    /// Replaces the current positions by `positions`, one per particle, and
    /// leaves the previous ones as they are.
    pub fn install(&mut self, positions: Vec<P>)
        requires
            old(self).wf(),
            positions.len() == old(self)@.len(),
        ensures
            final(self).wf(),
            final(self)@.current == positions@,
            final(self)@.previous == old(self)@.previous,
    {
        self.current = positions;
    }
}

} // verus!
