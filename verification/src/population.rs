//! The particles of the simulated world, which of them are plants, which of
//! them carry a living cell, and the deletions that wait for the end of a
//! step.
//!
//! What a particle is made of physically (position, velocity, mass, radius)
//! and what a cell is made of (its brain and traits) are the type parameters
//! `B` and `T`: this module keeps them in place and keeps every index that
//! points at a particle right while particles come and go.
use vstd::prelude::*;
use crate::dice::random_below;
use crate::reindex::{
    drop_marked_keys, keep_unless, lemma_drop_marked_keys_none, lemma_drop_marked_keys_source,
    lemma_drop_marked_keys_step, lemma_drop_marked_keys_unmarked, lemma_keep_unless_all,
    lemma_keep_unless_len, lemma_keep_unless_push, lemma_keep_unless_step, lemma_renumber_below,
    lemma_renumber_keeps, lemma_renumber_len, lemma_renumber_no_duplicates, lemma_renumber_push,
    lemma_renumber_source, lemma_renumber_step, lemma_renumber_tracks, renumber, shift_down,
};

verus! {

/// A living cell as the population keeps it: the flag that marks it for
/// deletion at the end of a step, and whatever else describes it.
pub struct Cell<T> {
    pub to_delete: bool,
    pub state: T,
}

/// What a population holds, as mathematical sequences and integers.
pub struct PopulationState<B, T> {
    /// The physical state of each particle, by particle index.
    pub bodies: Seq<B>,
    /// Whether each particle is a plant, by particle index.
    pub is_plant: Seq<bool>,
    /// The living cells, in the order in which they were added.
    pub cells: Seq<Cell<T>>,
    /// For each cell, the index of its particle.
    pub cell_indices: Seq<usize>,
    /// The indices of the plant particles, in the order in which they were added.
    pub plants: Seq<usize>,
    pub num_particles: int,
    pub num_cells: int,
    pub num_plants: int,
    /// Particle indices queued for deletion.
    pub pending_deletions: Seq<usize>,
}

/// The values of `s` at the places below `s.len()` that `marks` does not
/// hold, in order.
pub open spec fn keep_unmarked<A>(s: Seq<A>, marks: Set<usize>) -> Seq<A>
    decreases s.len(),
{
    if s.len() == 0 {
        Seq::empty()
    } else {
        let kept = keep_unmarked(s.drop_last(), marks);
        if marks.contains((s.len() - 1) as usize) {
            kept
        } else {
            kept.push(s.last())
        }
    }
}

/// `s` after removing, from the highest place down to the lowest, the entries
/// at the places below `k` that `marks` holds.
pub open spec fn remove_marked_below<A>(s: Seq<A>, marks: Set<usize>, k: nat) -> Seq<A>
    decreases k,
{
    if k == 0 {
        s
    } else {
        let next = if marks.contains((k - 1) as usize) {
            s.remove(k - 1)
        } else {
            s
        };
        remove_marked_below(next, marks, (k - 1) as nat)
    }
}

/// The particle indices of the cells among the first `k` that are flagged
/// for deletion, in cell order.
pub open spec fn dead_cell_indices<T>(cells: Seq<Cell<T>>, keys: Seq<usize>, k: nat) -> Seq<usize>
    decreases k,
{
    if k == 0 {
        Seq::empty()
    } else {
        let earlier = dead_cell_indices(cells, keys, (k - 1) as nat);
        if cells[k - 1].to_delete {
            earlier.push(keys[k - 1])
        } else {
            earlier
        }
    }
}

/// The number of `true` entries of `s`.
pub open spec fn count_true(s: Seq<bool>) -> nat
    decreases s.len(),
{
    if s.len() == 0 {
        0
    } else {
        count_true(s.drop_last()) + if s.last() {
            1nat
        } else {
            0nat
        }
    }
}

impl<B, T> PopulationState<B, T> {
    /// The invariant that every operation keeps.
    pub open spec fn wf(self) -> bool {
        &&& 0 <= self.num_particles <= i32::MAX
        &&& self.bodies.len() == self.num_particles
        &&& self.is_plant.len() == self.num_particles
        &&& self.cells.len() == self.cell_indices.len()
        &&& forall|k: int|
            0 <= k < self.cell_indices.len() ==> #[trigger] self.cell_indices[k] < self.num_particles
                && !self.is_plant[self.cell_indices[k] as int]
        &&& self.cell_indices.no_duplicates()
        &&& forall|k: int|
            0 <= k < self.plants.len() ==> #[trigger] self.plants[k] < self.num_particles
                && self.is_plant[self.plants[k] as int]
        &&& self.plants.no_duplicates()
        &&& forall|i: int|
            0 <= i < self.num_particles && #[trigger] self.is_plant[i] ==> self.plants.contains(
                i as usize,
            )
        &&& self.num_plants == self.plants.len()
        &&& i32::MIN <= self.num_cells <= self.cells.len()
    }

    /// The body of each cell's particle, in cell order.
    pub open spec fn cell_bodies(self) -> Seq<B> {
        self.cell_indices.map_values(|i: usize| self.bodies[i as int])
    }

    /// The body of each plant's particle, in plant order.
    pub open spec fn plant_bodies(self) -> Seq<B> {
        self.plants.map_values(|i: usize| self.bodies[i as int])
    }

    /// The particle indices queued for deletion, as a set.
    pub open spec fn pending_marks(self) -> Set<usize> {
        Set::new(|d: usize| self.pending_deletions.contains(d))
    }

    /// The state after a plain particle with `body` was appended.
    pub open spec fn with_particle(self, body: B) -> Self {
        PopulationState {
            bodies: self.bodies.push(body),
            is_plant: self.is_plant.push(false),
            num_particles: self.num_particles + 1,
            ..self
        }
    }

    /// The state after a particle with `body` carrying a new living cell
    /// described by `state` was appended.
    pub open spec fn with_cell(self, body: B, state: T) -> Self {
        PopulationState {
            bodies: self.bodies.push(body),
            is_plant: self.is_plant.push(false),
            cells: self.cells.push(Cell { to_delete: false, state }),
            cell_indices: self.cell_indices.push(self.num_particles as usize),
            num_particles: self.num_particles + 1,
            num_cells: self.num_cells + 1,
            ..self
        }
    }

    /// The state after a plant particle with `body` was appended.
    pub open spec fn with_plant(self, body: B) -> Self {
        PopulationState {
            bodies: self.bodies.push(body),
            is_plant: self.is_plant.push(true),
            plants: self.plants.push(self.num_particles as usize),
            num_particles: self.num_particles + 1,
            num_plants: self.num_plants + 1,
            ..self
        }
    }

    /// The state after particle `d` (below `num_particles`) was removed: the
    /// particles above it move down by one place, the cell or plant that it
    /// carried goes, and the plant counter, or else the cell counter, goes
    /// down by one.
    pub open spec fn without_particle(self, d: usize) -> Self {
        PopulationState {
            bodies: self.bodies.remove(d as int),
            is_plant: self.is_plant.remove(d as int),
            cells: keep_unless(self.cells, self.cell_indices, d),
            cell_indices: renumber(self.cell_indices, d),
            plants: renumber(self.plants, d),
            num_particles: self.num_particles - 1,
            num_cells: if self.is_plant[d as int] {
                self.num_cells
            } else {
                self.num_cells - 1
            },
            num_plants: if self.is_plant[d as int] {
                self.num_plants - 1
            } else {
                self.num_plants
            },
            ..self
        }
    }

    /// The state after removing, from the highest index down, each particle
    /// below `k` whose index `marks` holds.
    pub open spec fn after_deletions(self, marks: Set<usize>, k: nat) -> Self
        decreases k,
    {
        if k == 0 {
            self
        } else {
            let next = if marks.contains((k - 1) as usize) {
                self.without_particle((k - 1) as usize)
            } else {
                self
            };
            next.after_deletions(marks, (k - 1) as nat)
        }
    }

    /// How many of the particles below `k` that `marks` holds are not plants,
    /// that is, by how much deleting them lowers the cell counter.
    pub open spec fn doomed_non_plants(self, marks: Set<usize>, k: nat) -> int
        decreases k,
    {
        if k == 0 {
            0
        } else {
            self.doomed_non_plants(marks, (k - 1) as nat) + if marks.contains((k - 1) as usize)
                && !self.is_plant[k - 1] {
                1int
            } else {
                0int
            }
        }
    }

    /// Whether `x` is the particle index of some cell flagged for deletion.
    pub open spec fn is_particle_of_flagged_cell(self, x: usize) -> bool {
        exists|k: int|
            0 <= k < self.cells.len() && self.cells[k].to_delete && #[trigger] self.cell_indices[k]
                == x
    }

    /// The state after the particle index of every cell flagged for deletion
    /// was queued, in cell order.
    pub open spec fn with_dead_cells_queued(self) -> Self {
        PopulationState {
            pending_deletions: self.pending_deletions + dead_cell_indices(
                self.cells,
                self.cell_indices,
                self.cells.len(),
            ),
            ..self
        }
    }
}

/// The particles of the world and the bookkeeping that ties cells and plants
/// to them.
pub struct Population<B, T> {
    bodies: Vec<B>,
    is_plant: Vec<bool>,
    cells: Vec<Cell<T>>,
    cell_indices: Vec<usize>,
    plants: Vec<usize>,
    num_particles: i32,
    num_cells: i32,
    num_plants: i32,
    pending_deletions: Vec<usize>,
}

impl<B, T> View for Population<B, T> {
    type V = PopulationState<B, T>;

    closed spec fn view(&self) -> PopulationState<B, T> {
        PopulationState {
            bodies: self.bodies@,
            is_plant: self.is_plant@,
            cells: self.cells@,
            cell_indices: self.cell_indices@,
            plants: self.plants@,
            num_particles: self.num_particles as int,
            num_cells: self.num_cells as int,
            num_plants: self.num_plants as int,
            pending_deletions: self.pending_deletions@,
        }
    }
}

impl<B, T> Population<B, T> {
    /// An empty population.
    pub fn new() -> (p: Self)
        ensures
            p@.wf(),
            p@.bodies.len() == 0,
            p@.cells.len() == 0,
            p@.cell_indices.len() == 0,
            p@.plants.len() == 0,
            p@.num_cells == 0,
            p@.pending_deletions.len() == 0,
    {
        Population {
            bodies: Vec::new(),
            is_plant: Vec::new(),
            cells: Vec::new(),
            cell_indices: Vec::new(),
            plants: Vec::new(),
            num_particles: 0,
            num_cells: 0,
            num_plants: 0,
            pending_deletions: Vec::new(),
        }
    }

    /// The number of particles.
    pub fn num_particles(&self) -> (n: i32)
        ensures
            n == self@.num_particles,
    {
        self.num_particles
    }

    /// The cell counter: it goes up with each added cell and down with each
    /// deleted particle that is not a plant.
    pub fn num_cells(&self) -> (n: i32)
        ensures
            n == self@.num_cells,
    {
        self.num_cells
    }

    /// The number of plants.
    pub fn num_plants(&self) -> (n: i32)
        ensures
            n == self@.num_plants,
    {
        self.num_plants
    }

    /// The body of particle `i`.
    pub fn body(&self, i: usize) -> (b: &B)
        requires
            i < self@.bodies.len(),
        ensures
            *b == self@.bodies[i as int],
    {
        &self.bodies[i]
    }

    /// Replaces the body of particle `i`, leaving everything else as it was.
    pub fn set_body(&mut self, i: usize, body: B)
        requires
            i < old(self)@.bodies.len(),
        ensures
            final(self)@ == (PopulationState { bodies: old(self)@.bodies.update(i as int, body), ..old(self)@ }),
    {
        self.bodies[i] = body;
    }

    /// Whether particle `i` is a plant.
    pub fn is_plant(&self, i: usize) -> (p: bool)
        requires
            i < self@.is_plant.len(),
        ensures
            p == self@.is_plant[i as int],
    {
        self.is_plant[i]
    }

    /// The number of living cells in the list of cells.
    pub fn cell_count(&self) -> (n: usize)
        ensures
            n == self@.cells.len(),
    {
        self.cells.len()
    }

    /// The particle index of cell `k`.
    pub fn cell_index(&self, k: usize) -> (i: usize)
        requires
            k < self@.cell_indices.len(),
        ensures
            i == self@.cell_indices[k as int],
    {
        self.cell_indices[k]
    }

    /// Cell `k`.
    pub fn cell(&self, k: usize) -> (c: &Cell<T>)
        requires
            k < self@.cells.len(),
        ensures
            *c == self@.cells[k as int],
    {
        &self.cells[k]
    }

    /// Puts `cell` in place of cell `k` and hands back the cell that was there;
    /// the cell keeps its particle.
    pub fn replace_cell(&mut self, k: usize, cell: Cell<T>) -> (previous: Cell<T>)
        requires
            k < old(self)@.cells.len(),
        ensures
            previous == old(self)@.cells[k as int],
            final(self)@ == (PopulationState { cells: old(self)@.cells.update(k as int, cell), ..old(self)@ }),
    {
        let mut previous = cell;
        std::mem::swap(&mut self.cells[k], &mut previous);
        previous
    }

    /// The number of plants in the list of plants.
    pub fn plant_count(&self) -> (n: usize)
        ensures
            n == self@.plants.len(),
    {
        self.plants.len()
    }

    /// The particle index of plant `k`.
    pub fn plant_index(&self, k: usize) -> (i: usize)
        requires
            k < self@.plants.len(),
        ensures
            i == self@.plants[k as int],
    {
        self.plants[k]
    }

    /// The particle indices queued for deletion.
    pub fn pending_deletions(&self) -> (q: &Vec<usize>)
        ensures
            q@ == self@.pending_deletions,
    {
        &self.pending_deletions
    }

    /// Removes particle `index`, if there is one: the particles above it move
    /// down by one place, the cell or plant that it carried leaves the list
    /// of cells or of plants, every index above it in those lists goes down
    /// by one, and the plant counter, or else the cell counter, goes down by
    /// one. Every remaining cell and plant keeps its body.
    pub fn delete_particle_immediate(&mut self, index: usize)
        requires
            old(self)@.wf(),
            index < old(self)@.num_particles && !old(self)@.is_plant[index as int]
                ==> old(self)@.num_cells > i32::MIN,
        ensures
            final(self)@ == (if index < old(self)@.num_particles {
                old(self)@.without_particle(index)
            } else {
                old(self)@
            }),
            final(self)@.wf(),
            final(self)@.cell_bodies() == (if index < old(self)@.num_particles {
                keep_unless(old(self)@.cell_bodies(), old(self)@.cell_indices, index)
            } else {
                old(self)@.cell_bodies()
            }),
            final(self)@.plant_bodies() == (if index < old(self)@.num_particles {
                keep_unless(old(self)@.plant_bodies(), old(self)@.plants, index)
            } else {
                old(self)@.plant_bodies()
            }),
    {
        if index >= self.num_particles as usize {
            return;
        }
        proof {
            lemma_without_particle(self@, index);
        }
        if self.is_plant[index] {
            self.num_plants = self.num_plants - 1;
        } else {
            self.num_cells = self.num_cells - 1;
        }
        self.bodies.remove(index);
        self.is_plant.remove(index);
        renumber_with_values(&mut self.cell_indices, &mut self.cells, index);
        renumber_in_place(&mut self.plants, index);
        self.num_particles = self.num_particles - 1;
    }

    /// Deletes every particle whose index is queued and below the number of
    /// particles, each once, from the highest index down, and empties the
    /// queue. The remaining particles keep their order.
    pub fn process_deletions(&mut self)
        requires
            old(self)@.wf(),
            old(self)@.num_cells - old(self)@.doomed_non_plants(
                old(self)@.pending_marks(),
                old(self)@.num_particles as nat,
            ) >= i32::MIN,
        ensures
            final(self)@ == (PopulationState {
                pending_deletions: Seq::empty(),
                ..old(self)@
            }).after_deletions(old(self)@.pending_marks(), old(self)@.num_particles as nat),
            final(self)@.wf(),
            final(self)@.bodies == keep_unmarked(old(self)@.bodies, old(self)@.pending_marks()),
            final(self)@.is_plant == keep_unmarked(old(self)@.is_plant, old(self)@.pending_marks()),
            final(self)@.cells == drop_marked_keys(
                old(self)@.cells,
                old(self)@.cell_indices,
                old(self)@.pending_marks(),
                old(self)@.num_particles as nat,
            ),
            final(self)@.cell_bodies() == drop_marked_keys(
                old(self)@.cell_bodies(),
                old(self)@.cell_indices,
                old(self)@.pending_marks(),
                old(self)@.num_particles as nat,
            ),
            final(self)@.plant_bodies() == drop_marked_keys(
                old(self)@.plant_bodies(),
                old(self)@.plants,
                old(self)@.pending_marks(),
                old(self)@.num_particles as nat,
            ),
            final(self)@.pending_deletions.len() == 0,
            final(self)@.num_plants == old(self)@.num_plants - count_true(
                Seq::new(
                    old(self)@.num_particles as nat,
                    |i: int| old(self)@.pending_deletions.contains(i as usize) && old(self)@.is_plant[i],
                ),
            ),
            final(self)@.num_particles == old(self)@.num_particles - count_true(
                Seq::new(
                    old(self)@.num_particles as nat,
                    |i: int| old(self)@.pending_deletions.contains(i as usize),
                ),
            ),
    {
        proof {
            lemma_process_deletions_law(self@);
        }
        let ghost marks = self@.pending_marks();
        let ghost st0 = self@;
        let ghost cleared = PopulationState { pending_deletions: Seq::<usize>::empty(), ..st0 };
        proof {
            lemma_after_deletions_keeps_queue(cleared, marks, st0.num_particles as nat);
            lemma_after_deletions_bodies(cleared, marks, st0.num_particles as nat);
            lemma_remove_marked_below(st0.bodies, marks, st0.num_particles as nat);
            lemma_remove_marked_below(st0.is_plant, marks, st0.num_particles as nat);
            assert(st0.bodies.take(st0.num_particles) =~= st0.bodies);
            assert(st0.is_plant.take(st0.num_particles) =~= st0.is_plant);
            assert(st0.bodies.skip(st0.num_particles) =~= Seq::empty());
            assert(st0.is_plant.skip(st0.num_particles) =~= Seq::empty());
        }
        if self.pending_deletions.len() == 0 {
            proof {
                assert(marks =~= Set::empty());
                lemma_after_deletions_unmarked(cleared, marks, st0.num_particles as nat);
                assert(self@.pending_deletions =~= Seq::<usize>::empty());
                lemma_drop_marked_keys_gone(st0, marks, st0.num_particles as nat);
            }
            return;
        }
        let n = self.num_particles as usize;
        let mut marked: Vec<bool> = Vec::new();
        while marked.len() < n
            invariant
                marked@.len() <= n,
                forall|i: int| 0 <= i < marked@.len() ==> !marked@[i],
            decreases n - marked@.len(),
        {
            marked.push(false);
        }
        let mut j: usize = 0;
        while j < self.pending_deletions.len()
            invariant
                self@ == st0,
                marked@.len() == n,
                n == st0.num_particles,
                j <= st0.pending_deletions.len(),
                forall|i: int|
                    0 <= i < n ==> marked@[i] == st0.pending_deletions.take(j as int).contains(
                        i as usize,
                    ),
            decreases st0.pending_deletions.len() - j,
        {
            let d = self.pending_deletions[j];
            if d < n {
                marked[d] = true;
            }
            proof {
                let before = st0.pending_deletions.take(j as int);
                let after = st0.pending_deletions.take(j + 1);
                assert(after =~= before.push(d));
                assert forall|i: int| 0 <= i < n implies marked@[i] == after.contains(i as usize) by {
                    if after.contains(i as usize) && i != d {
                        let q = choose|q: int| 0 <= q < after.len() && after[q] == i as usize;
                        assert(before[q] == i as usize);
                    }
                    if before.contains(i as usize) {
                        let q = choose|q: int| 0 <= q < before.len() && before[q] == i as usize;
                        assert(after[q] == i as usize);
                    }
                    if i == d {
                        assert(after[j as int] == d);
                    }
                }
            }
            j = j + 1;
        }
        assert(st0.pending_deletions.take(j as int) =~= st0.pending_deletions);
        self.pending_deletions.clear();
        assert(self@ == cleared);
        proof {
            lemma_doomed_prefix(cleared, st0, marks, n as nat);
        }
        let mut k = n;
        while k > 0
            invariant
                self@.wf(),
                k <= self@.num_particles,
                k <= n,
                marked@.len() == n,
                n == st0.num_particles,
                forall|i: int| 0 <= i < n ==> marked@[i] == marks.contains(i as usize),
                self@.after_deletions(marks, k as nat) == cleared.after_deletions(marks, n as nat),
                self@.num_cells - self@.doomed_non_plants(marks, k as nat) >= i32::MIN,
                drop_marked_keys(self@.cells, self@.cell_indices, marks, k as nat) == drop_marked_keys(
                    st0.cells,
                    st0.cell_indices,
                    marks,
                    n as nat,
                ),
                drop_marked_keys(self@.cell_bodies(), self@.cell_indices, marks, k as nat)
                    == drop_marked_keys(st0.cell_bodies(), st0.cell_indices, marks, n as nat),
                drop_marked_keys(self@.plant_bodies(), self@.plants, marks, k as nat)
                    == drop_marked_keys(st0.plant_bodies(), st0.plants, marks, n as nat),
            decreases k,
        {
            k = k - 1;
            if marked[k] {
                let ghost before = self@;
                proof {
                    lemma_doomed_non_negative(before, marks, k as nat);
                    assert(marks.contains(k));
                    assert(before.doomed_non_plants(marks, (k + 1) as nat) == before.doomed_non_plants(
                        marks,
                        k as nat,
                    ) + if !before.is_plant[k as int] {
                        1int
                    } else {
                        0int
                    });
                }
                self.delete_particle_immediate(k);
                proof {
                    before.is_plant.remove_ensures(k as int);
                    lemma_doomed_prefix(self@, before, marks, k as nat);
                    lemma_drop_marked_keys_step(before.cells, before.cell_indices, marks, k);
                    lemma_drop_marked_keys_step(before.cell_bodies(), before.cell_indices, marks, k);
                    lemma_drop_marked_keys_step(before.plant_bodies(), before.plants, marks, k);
                }
            } else {
                proof {
                    lemma_drop_marked_keys_unmarked(self@.cells, self@.cell_indices, marks, k);
                    lemma_drop_marked_keys_unmarked(self@.cell_bodies(), self@.cell_indices, marks, k);
                    lemma_drop_marked_keys_unmarked(self@.plant_bodies(), self@.plants, marks, k);
                }
            }
        }
        proof {
            lemma_drop_marked_keys_none(self@.cells, self@.cell_indices, marks);
            lemma_drop_marked_keys_none(self@.cell_bodies(), self@.cell_indices, marks);
            lemma_drop_marked_keys_none(self@.plant_bodies(), self@.plants, marks);
        }
    }

    /// Queues particle `index` for deletion at the next `process_deletions`.
    pub fn queue_deletion(&mut self, index: usize)
        requires
            old(self)@.wf(),
        ensures
            final(self)@ == (PopulationState {
                pending_deletions: old(self)@.pending_deletions.push(index),
                ..old(self)@
            }),
            final(self)@.wf(),
    {
        self.pending_deletions.push(index);
    }

    /// Queues the particle index of every cell flagged for deletion, in cell
    /// order.
    pub fn mark_dead_cells(&mut self)
        requires
            old(self)@.wf(),
        ensures
            final(self)@ == old(self)@.with_dead_cells_queued(),
            final(self)@.wf(),
            final(self)@.pending_deletions.take(old(self)@.pending_deletions.len() as int)
                == old(self)@.pending_deletions,
    {
        let ghost st = self@;
        proof {
            lemma_mark_dead_cells_law(st);
        }
        let mut i: usize = 0;
        while i < self.cells.len()
            invariant
                i <= st.cells.len(),
                st.cells.len() == st.cell_indices.len(),
                self@ == (PopulationState {
                    pending_deletions: st.pending_deletions + dead_cell_indices(
                        st.cells,
                        st.cell_indices,
                        i as nat,
                    ),
                    ..st
                }),
            decreases st.cells.len() - i,
        {
            if self.cells[i].to_delete {
                self.pending_deletions.push(self.cell_indices[i]);
            }
            proof {
                assert(self.pending_deletions@ =~= st.pending_deletions + dead_cell_indices(
                    st.cells,
                    st.cell_indices,
                    (i + 1) as nat,
                ));
            }
            i = i + 1;
        }
    }

    /// Picks, with `rng`, the place of one of the first `num_cells` cells in
    /// the list of cells: the creature whose brain gets saved.
    pub fn random_creature_index(&self, rng: &mut rand::rngs::ThreadRng) -> (k: usize)
        requires
            self@.wf(),
            self@.num_cells > 0,
        ensures
            k < self@.num_cells,
            k < self@.cells.len(),
    {
        random_below(rng, self.num_cells as usize)
    }

    /// Appends a plain particle: neither a plant nor a cell.
    pub fn add_particle(&mut self, body: B)
        requires
            old(self)@.wf(),
            old(self)@.num_particles < i32::MAX,
        ensures
            final(self)@ == old(self)@.with_particle(body),
            final(self)@.wf(),
    {
        self.bodies.push(body);
        self.is_plant.push(false);
        self.num_particles = self.num_particles + 1;
    }

    /// Appends a particle that carries a new living cell described by `state`;
    /// the cell records the new particle's index.
    pub fn add_cell(&mut self, body: B, state: T)
        requires
            old(self)@.wf(),
            old(self)@.num_particles < i32::MAX,
        ensures
            final(self)@ == old(self)@.with_cell(body, state),
            final(self)@.wf(),
            !final(self)@.cells.last().to_delete,
            final(self)@.cells.take(old(self)@.cells.len() as int) == old(self)@.cells,
            final(self)@.cell_indices.last() == old(self)@.num_particles,
            final(self)@.cell_bodies().last() == body,
    {
        proof {
            lemma_plants_fit(old(self)@);
            lemma_add_cell_law(old(self)@, body, state);
        }
        let cell_index = self.num_particles as usize;
        self.bodies.push(body);
        self.is_plant.push(false);
        self.cells.push(Cell { to_delete: false, state });
        self.cell_indices.push(cell_index);
        proof {
            assert forall|k: int, l: int|
                0 <= k < self.cell_indices@.len() && 0 <= l < self.cell_indices@.len() && k != l
                implies self.cell_indices@[k] != self.cell_indices@[l] by {
                if k < old(self)@.cell_indices.len() && l < old(self)@.cell_indices.len() {
                    assert(self.cell_indices@[k] == old(self)@.cell_indices[k]);
                }
            }
        }
        self.num_cells = self.num_cells + 1;
        self.num_particles = self.num_particles + 1;
        proof {
            assert forall|i: int|
                0 <= i < self.num_particles && #[trigger] self.is_plant@[i]
                implies self.plants@.contains(i as usize) by {
                assert(i < old(self)@.num_particles);
                assert(self.is_plant@[i] == old(self)@.is_plant[i]);
            }
        }
    }

    /// Appends a plant particle; the list of plants records its index.
    pub fn add_plant(&mut self, body: B)
        requires
            old(self)@.wf(),
            old(self)@.num_particles < i32::MAX,
        ensures
            final(self)@ == old(self)@.with_plant(body),
            final(self)@.wf(),
            final(self)@.plants.take(old(self)@.plants.len() as int) == old(self)@.plants,
            final(self)@.plants.last() == old(self)@.num_particles,
            final(self)@.plant_bodies().last() == body,
    {
        let plant_index = self.num_particles as usize;
        proof {
            lemma_plants_fit(old(self)@);
            lemma_add_plant_law(old(self)@, body);
        }
        self.bodies.push(body);
        self.is_plant.push(true);
        self.plants.push(plant_index);
        proof {
            assert forall|k: int, l: int|
                0 <= k < self.plants@.len() && 0 <= l < self.plants@.len() && k != l
                implies self.plants@[k] != self.plants@[l] by {
                if k < old(self)@.plants.len() && l < old(self)@.plants.len() {
                    assert(self.plants@[k] == old(self)@.plants[k]);
                }
            }
        }
        self.num_plants = self.num_plants + 1;
        self.num_particles = self.num_particles + 1;
        proof {
            assert forall|i: int|
                0 <= i < self.num_particles && #[trigger] self.is_plant@[i]
                implies self.plants@.contains(i as usize) by {
                if i < old(self)@.num_particles {
                    assert(self.is_plant@[i] == old(self)@.is_plant[i]);
                    let k = choose|k: int| 0 <= k < old(self)@.plants.len() && old(self)@.plants[k] == i as usize;
                    assert(self.plants@[k] == i as usize);
                } else {
                    assert(self.plants@[self.plants@.len() - 1] == i as usize);
                }
            }
        }
    }
}

/// Renumbers `keys` for the removal of particle `d` and drops, with each
/// entry equal to `d`, the value at the same place in `vals`.
fn renumber_with_values<V>(keys: &mut Vec<usize>, vals: &mut Vec<V>, d: usize)
    requires
        old(keys)@.len() == old(vals)@.len(),
    ensures
        final(keys)@ == renumber(old(keys)@, d),
        final(vals)@ == keep_unless(old(vals)@, old(keys)@, d),
{
    let ghost ks = keys@;
    let ghost vs = vals@;
    let mut i = keys.len();
    assert(ks.take(i as int) =~= ks);
    assert(vs.take(i as int) =~= vs);
    assert(ks.skip(i as int) =~= Seq::empty());
    assert(vs.skip(i as int) =~= Seq::empty());
    while i > 0
        invariant
            i <= ks.len(),
            ks.len() == vs.len(),
            keys@ == ks.take(i as int) + renumber(ks.skip(i as int), d),
            vals@ == vs.take(i as int) + keep_unless(vs.skip(i as int), ks.skip(i as int), d),
        decreases i,
    {
        proof {
            lemma_renumber_step(ks, d, i as int);
            lemma_keep_unless_step(vs, ks, d, i as int);
        }
        i = i - 1;
        let idx = keys[i];
        assert(idx == ks[i as int]);
        let ghost rk = renumber(ks.skip(i + 1), d);
        let ghost rv = keep_unless(vs.skip(i + 1), ks.skip(i + 1), d);
        if idx == d {
            keys.remove(i);
            vals.remove(i);
            assert(keys@ =~= ks.take(i as int) + rk);
            assert(vals@ =~= vs.take(i as int) + rv);
        } else {
            if idx > d {
                keys[i] = idx - 1;
            }
            assert(keys@ =~= ks.take(i as int) + (seq![shift_down(idx, d)] + rk));
            assert(vals@ =~= vs.take(i as int) + (seq![vs[i as int]] + rv));
        }
    }
    assert(ks.skip(0) =~= ks);
    assert(vs.skip(0) =~= vs);
    assert(keys@ =~= renumber(ks, d));
    assert(vals@ =~= keep_unless(vs, ks, d));
}

/// Renumbers `keys` for the removal of particle `d`.
fn renumber_in_place(keys: &mut Vec<usize>, d: usize)
    ensures
        final(keys)@ == renumber(old(keys)@, d),
{
    let ghost ks = keys@;
    let mut i = keys.len();
    assert(ks.take(i as int) =~= ks);
    assert(ks.skip(i as int) =~= Seq::empty());
    while i > 0
        invariant
            i <= ks.len(),
            keys@ == ks.take(i as int) + renumber(ks.skip(i as int), d),
        decreases i,
    {
        proof {
            lemma_renumber_step(ks, d, i as int);
        }
        i = i - 1;
        let idx = keys[i];
        assert(idx == ks[i as int]);
        let ghost rk = renumber(ks.skip(i + 1), d);
        if idx == d {
            keys.remove(i);
            assert(keys@ =~= ks.take(i as int) + rk);
        } else {
            if idx > d {
                keys[i] = idx - 1;
            }
            assert(keys@ =~= ks.take(i as int) + (seq![shift_down(idx, d)] + rk));
        }
    }
    assert(ks.skip(0) =~= ks);
    assert(keys@ =~= renumber(ks, d));
}

/// Removing a particle from a well-formed state keeps it well-formed, and
/// every remaining cell and plant keeps its body.
pub proof fn lemma_without_particle<B, T>(st: PopulationState<B, T>, d: usize)
    requires
        st.wf(),
        d < st.num_particles,
        !st.is_plant[d as int] ==> st.num_cells > i32::MIN,
    ensures
        st.without_particle(d).wf(),
        st.without_particle(d).cell_bodies() == keep_unless(st.cell_bodies(), st.cell_indices, d),
        st.without_particle(d).plant_bodies() == keep_unless(st.plant_bodies(), st.plants, d),
{
    let nx = st.without_particle(d);
    let n = st.num_particles;
    st.is_plant.remove_ensures(d as int);
    st.bodies.remove_ensures(d as int);
    assert forall|x: int| 0 <= x < n && x != d implies #[trigger] nx.is_plant[shift_down(
        x as usize,
        d,
    ) as int] == st.is_plant[x] && shift_down(x as usize, d) < n - 1 by {
        if x > d {
            assert(nx.is_plant[x - 1] == st.is_plant[x - 1 + 1]);
        }
    }
    lemma_keep_unless_len(st.cells, st.cell_indices, d);
    lemma_renumber_no_duplicates(st.cell_indices, d);
    lemma_renumber_no_duplicates(st.plants, d);
    lemma_renumber_len(st.cell_indices, d);
    lemma_renumber_len(st.plants, d);
    assert forall|j: int| 0 <= j < nx.cell_indices.len() implies #[trigger] nx.cell_indices[j]
        < nx.num_particles && !nx.is_plant[nx.cell_indices[j] as int] by {
        lemma_renumber_source(st.cell_indices, d, j);
        let k = choose|k: int|
            0 <= k < st.cell_indices.len() && st.cell_indices[k] != d && nx.cell_indices[j]
                == shift_down(st.cell_indices[k], d);
        assert(st.cell_indices[k] < n);
        assert(nx.is_plant[shift_down(st.cell_indices[k], d) as int] == st.is_plant[st.cell_indices[k] as int]);
    }
    assert forall|j: int| 0 <= j < nx.plants.len() implies #[trigger] nx.plants[j]
        < nx.num_particles && nx.is_plant[nx.plants[j] as int] by {
        lemma_renumber_source(st.plants, d, j);
        let k = choose|k: int|
            0 <= k < st.plants.len() && st.plants[k] != d && nx.plants[j] == shift_down(
                st.plants[k],
                d,
            );
        assert(st.plants[k] < n);
        assert(nx.is_plant[shift_down(st.plants[k], d) as int] == st.is_plant[st.plants[k] as int]);
    }
    assert forall|i: int| 0 <= i < nx.num_particles && #[trigger] nx.is_plant[i] implies nx.plants.contains(
        i as usize,
    ) by {
        let x: int = if i < d {
            i
        } else {
            i + 1
        };
        assert(shift_down(x as usize, d) == i);
        assert(nx.is_plant[shift_down(x as usize, d) as int] == st.is_plant[x]);
        assert(st.is_plant[x]);
        assert(st.plants.contains(x as usize));
        let k = choose|k: int| 0 <= k < st.plants.len() && st.plants[k] == x as usize;
        lemma_renumber_keeps(st.plants, d, k);
    }
    if st.is_plant[d as int] {
        assert(st.plants.contains(d));
    }
    if st.plants.contains(d) {
        let k = choose|k: int| 0 <= k < st.plants.len() && st.plants[k] == d;
        assert(st.is_plant[st.plants[k] as int]);
    }
    if st.cell_indices.contains(d) {
        let k = choose|k: int| 0 <= k < st.cell_indices.len() && st.cell_indices[k] == d;
        assert(!st.is_plant[st.cell_indices[k] as int]);
    }
    lemma_renumber_tracks(st.bodies, st.cell_indices, d);
    lemma_renumber_tracks(st.bodies, st.plants, d);
}

/// With nothing marked, dropping the marked keys keeps every cell and plant.
proof fn lemma_drop_marked_keys_gone<B, T>(st: PopulationState<B, T>, marks: Set<usize>, k: nat)
    requires
        st.wf(),
        marks =~= Set::empty(),
    ensures
        drop_marked_keys(st.cells, st.cell_indices, marks, k) == st.cells,
        drop_marked_keys(st.cell_bodies(), st.cell_indices, marks, k) == st.cell_bodies(),
        drop_marked_keys(st.plant_bodies(), st.plants, marks, k) == st.plant_bodies(),
{
    lemma_drop_marked_keys_none(st.cells, st.cell_indices, marks);
    lemma_drop_marked_keys_none(st.cell_bodies(), st.cell_indices, marks);
    lemma_drop_marked_keys_none(st.plant_bodies(), st.plants, marks);
    lemma_drop_marked_keys_unmarked_all(st.cells, st.cell_indices, marks, k);
    lemma_drop_marked_keys_unmarked_all(st.cell_bodies(), st.cell_indices, marks, k);
    lemma_drop_marked_keys_unmarked_all(st.plant_bodies(), st.plants, marks, k);
}

/// With nothing marked, the bound does not matter.
proof fn lemma_drop_marked_keys_unmarked_all<V>(vals: Seq<V>, keys: Seq<usize>, marks: Set<usize>, k: nat)
    requires
        marks =~= Set::empty(),
    ensures
        drop_marked_keys(vals, keys, marks, k) == drop_marked_keys(vals, keys, marks, 0),
    decreases keys.len(),
{
    if keys.len() > 0 && vals.len() > 0 {
        lemma_drop_marked_keys_unmarked_all(vals.drop_first(), keys.drop_first(), marks, k);
    }
}

/// Deleting the particle that was just added undoes the addition of a cell
/// or of a plant; after a plain particle, everything comes back but the cell
/// counter, which ends one lower.
pub proof fn lemma_add_then_delete<B, T>(st: PopulationState<B, T>, body: B, state: T)
    requires
        st.wf(),
        st.num_particles < i32::MAX,
    ensures
        st.with_cell(body, state).without_particle(st.num_particles as usize) == st,
        st.with_plant(body).without_particle(st.num_particles as usize) == st,
        st.with_particle(body).without_particle(st.num_particles as usize) == (PopulationState {
            num_cells: st.num_cells - 1,
            ..st
        }),
{
    let n = st.num_particles as usize;
    assert forall|k: int| 0 <= k < st.cell_indices.len() implies #[trigger] st.cell_indices[k] < n by {}
    assert forall|k: int| 0 <= k < st.plants.len() implies #[trigger] st.plants[k] < n by {}
    assert forall|k: int| 0 <= k < st.cell_indices.len() implies #[trigger] st.cell_indices[k] != n by {}
    lemma_renumber_push(st.cell_indices, n);
    lemma_renumber_push(st.plants, n);
    lemma_renumber_below(st.cell_indices, n);
    lemma_renumber_below(st.plants, n);
    lemma_keep_unless_push(st.cells, st.cell_indices, Cell { to_delete: false, state }, n);
    lemma_keep_unless_all(st.cells, st.cell_indices, n);
    assert(st.bodies.push(body).remove(n as int) =~= st.bodies);
    assert(st.is_plant.push(false).remove(n as int) =~= st.is_plant);
    assert(st.is_plant.push(true).remove(n as int) =~= st.is_plant);
    let c = st.with_cell(body, state).without_particle(n);
    assert(c.bodies == st.bodies && c.is_plant == st.is_plant && c.cells == st.cells && c.cell_indices
        == st.cell_indices && c.plants == st.plants);
    let p = st.with_plant(body).without_particle(n);
    assert(p.bodies == st.bodies && p.is_plant == st.is_plant && p.cells == st.cells && p.cell_indices
        == st.cell_indices && p.plants == st.plants);
    let q = st.with_particle(body).without_particle(n);
    assert(q.bodies == st.bodies && q.is_plant == st.is_plant && q.cells == st.cells && q.cell_indices
        == st.cell_indices && q.plants == st.plants);
}

/// Adding a cell appends one unflagged cell that holds the given state and
/// names the new particle, whose body is the given one; the earlier cells,
/// their particles, the plants and the deletion queue stay as they were, and
/// the cells queued by `mark_dead_cells` stay the same.
pub proof fn lemma_add_cell_law<B, T>(st: PopulationState<B, T>, body: B, state: T)
    requires
        st.wf(),
        st.num_particles < i32::MAX,
    ensures
        ({
            let a = st.with_cell(body, state);
            let m = st.cells.len() as int;
            &&& a.cells.len() == m + 1
            &&& !a.cells[m].to_delete
            &&& a.cells[m].state == state
            &&& a.cells.take(m) == st.cells
            &&& a.cell_indices.len() == m + 1
            &&& a.cell_indices[m] == st.num_particles
            &&& a.cell_indices.take(m) == st.cell_indices
            &&& a.num_particles == st.num_particles + 1
            &&& a.bodies.len() == st.bodies.len() + 1
            &&& a.bodies[st.num_particles] == body
            &&& a.bodies.take(st.num_particles) == st.bodies
            &&& !a.is_plant[st.num_particles]
            &&& a.cell_bodies()[m] == body
            &&& a.cell_bodies().take(m) == st.cell_bodies()
            &&& a.num_cells == st.num_cells + 1
            &&& a.plants == st.plants
            &&& a.num_plants == st.num_plants
            &&& a.pending_deletions == st.pending_deletions
            &&& dead_cell_indices(a.cells, a.cell_indices, a.cells.len()) == dead_cell_indices(
                st.cells,
                st.cell_indices,
                st.cells.len(),
            )
        }),
{
    let a = st.with_cell(body, state);
    let m = st.cells.len() as int;
    assert(a.cells.take(m) =~= st.cells);
    assert(a.cell_indices.take(m) =~= st.cell_indices);
    assert(a.bodies.take(st.num_particles) =~= st.bodies);
    assert forall|k: int| 0 <= k < m implies #[trigger] a.cell_bodies()[k] == st.cell_bodies()[k] by {
        assert(st.cell_indices[k] < st.num_particles);
    }
    assert(a.cell_bodies().take(m) =~= st.cell_bodies());
    lemma_dead_cell_indices_prefix(a.cells, a.cell_indices, st.cells, st.cell_indices, m as nat);
}

/// The dead cells among the first `k` depend only on the first `k` cells and
/// their indices.
proof fn lemma_dead_cell_indices_prefix<T>(
    cells: Seq<Cell<T>>,
    keys: Seq<usize>,
    cells2: Seq<Cell<T>>,
    keys2: Seq<usize>,
    k: nat,
)
    requires
        cells.len() >= k,
        keys.len() >= k,
        cells2.len() >= k,
        keys2.len() >= k,
        forall|i: int| 0 <= i < k ==> #[trigger] cells[i] == cells2[i] && keys[i] == keys2[i],
    ensures
        dead_cell_indices(cells, keys, k) == dead_cell_indices(cells2, keys2, k),
    decreases k,
{
    if k > 0 {
        lemma_dead_cell_indices_prefix(cells, keys, cells2, keys2, (k - 1) as nat);
        assert(cells[k - 1] == cells2[k - 1] && keys[k - 1] == keys2[k - 1]);
    }
}

/// Adding a plant appends the new particle's index to the list of plants,
/// after the earlier plants in their order; the new particle is a plant with
/// the given body, and the plant counter goes up by one.
pub proof fn lemma_add_plant_law<B, T>(st: PopulationState<B, T>, body: B)
    requires
        st.wf(),
        st.num_particles < i32::MAX,
    ensures
        ({
            let a = st.with_plant(body);
            let m = st.plants.len() as int;
            &&& a.plants.len() == m + 1
            &&& a.plants[m] == st.num_particles
            &&& a.plants.take(m) == st.plants
            &&& a.plant_bodies()[m] == body
            &&& a.plant_bodies().take(m) == st.plant_bodies()
            &&& a.num_plants == st.num_plants + 1
            &&& a.num_particles == st.num_particles + 1
            &&& a.is_plant[st.num_particles]
            &&& a.bodies[st.num_particles] == body
            &&& a.bodies.take(st.num_particles) == st.bodies
            &&& a.cells == st.cells
            &&& a.cell_indices == st.cell_indices
            &&& a.num_cells == st.num_cells
            &&& a.pending_deletions == st.pending_deletions
        }),
{
    let a = st.with_plant(body);
    let m = st.plants.len() as int;
    assert(a.plants.take(m) =~= st.plants);
    assert(a.bodies.take(st.num_particles) =~= st.bodies);
    assert forall|k: int| 0 <= k < m implies #[trigger] a.plant_bodies()[k] == st.plant_bodies()[k] by {
        assert(st.plants[k] < st.num_particles);
    }
    assert(a.plant_bodies().take(m) =~= st.plant_bodies());
}

/// Queueing the dead cells keeps the earlier queue as it was, in front, and
/// appends one entry per flagged cell, each the particle index of a flagged
/// cell; nothing else changes.
pub proof fn lemma_mark_dead_cells_law<B, T>(st: PopulationState<B, T>)
    requires
        st.wf(),
    ensures
        ({
            let q = st.with_dead_cells_queued();
            let old_len = st.pending_deletions.len() as int;
            let flagged = Seq::new(st.cells.len(), |k: int| st.cells[k].to_delete);
            &&& q.pending_deletions.len() == old_len + count_true(flagged)
            &&& q.pending_deletions.take(old_len) == st.pending_deletions
            &&& forall|j: int|
                old_len <= j < q.pending_deletions.len() ==> st.is_particle_of_flagged_cell(
                    #[trigger] q.pending_deletions[j],
                )
            &&& forall|k: int|
                0 <= k < st.cells.len() && #[trigger] st.cells[k].to_delete
                    ==> q.pending_deletions.skip(old_len).contains(st.cell_indices[k])
            &&& q.bodies == st.bodies
            &&& q.is_plant == st.is_plant
            &&& q.cells == st.cells
            &&& q.cell_indices == st.cell_indices
            &&& q.plants == st.plants
            &&& q.num_particles == st.num_particles
            &&& q.num_cells == st.num_cells
            &&& q.num_plants == st.num_plants
        }),
{
    let q = st.with_dead_cells_queued();
    let old_len = st.pending_deletions.len() as int;
    let dead = dead_cell_indices(st.cells, st.cell_indices, st.cells.len());
    lemma_dead_cell_indices(st, st.cells.len());
    lemma_dead_cell_count(st.cells, st.cell_indices, st.cells.len());
    assert(Seq::new(st.cells.len(), |k: int| st.cells[k].to_delete).take(st.cells.len() as int)
        =~= Seq::new(st.cells.len(), |k: int| st.cells[k].to_delete));
    assert(q.pending_deletions.take(old_len) =~= st.pending_deletions);
    assert(q.pending_deletions.skip(old_len) =~= dead);
    assert forall|j: int|
        old_len <= j < q.pending_deletions.len() implies st.is_particle_of_flagged_cell(
            #[trigger] q.pending_deletions[j],
        ) by {
        let x = dead[j - old_len];
        assert(q.pending_deletions[j] == x);
        let c = choose|c: int| 0 <= c < st.cells.len() && st.cells[c].to_delete && st.cell_indices[c] == x;
        assert(st.cell_indices[c] == q.pending_deletions[j]);
    }
    assert(q.pending_deletions.len() == old_len + count_true(
        Seq::new(st.cells.len(), |k: int| st.cells[k].to_delete),
    ));
    assert forall|k: int|
        0 <= k < st.cells.len() && #[trigger] st.cells[k].to_delete implies q.pending_deletions.skip(
        old_len,
    ).contains(st.cell_indices[k]) by {
        assert(dead.contains(st.cell_indices[k]));
    }
    assert(q.bodies == st.bodies);
    assert(q.cells == st.cells);
    assert(q.num_cells == st.num_cells);
}

/// The number of dead cells among the first `k` is the number of flagged
/// cells among them.
proof fn lemma_dead_cell_count<T>(cells: Seq<Cell<T>>, keys: Seq<usize>, k: nat)
    requires
        k <= cells.len(),
        k <= keys.len(),
    ensures
        dead_cell_indices(cells, keys, k).len() == count_true(
            Seq::new(cells.len(), |i: int| cells[i].to_delete).take(k as int),
        ),
    decreases k,
{
    let f = Seq::new(cells.len(), |i: int| cells[i].to_delete);
    if k > 0 {
        lemma_dead_cell_count(cells, keys, (k - 1) as nat);
        assert(f.take(k as int).drop_last() =~= f.take(k - 1));
    } else {
        assert(f.take(0) =~= Seq::<bool>::empty());
    }
}

/// Processing the queue deletes every queued particle below the particle
/// count, once, whatever its kind: the particle count drops by the number of
/// distinct such indices and the plant counter by the number of plants among
/// them; the queue ends empty and the invariant holds.
pub proof fn lemma_process_deletions_law<B, T>(st: PopulationState<B, T>)
    requires
        st.wf(),
        st.num_cells - st.doomed_non_plants(st.pending_marks(), st.num_particles as nat)
            >= i32::MIN,
    ensures
        ({
            let n = st.num_particles as nat;
            let r = (PopulationState { pending_deletions: Seq::empty(), ..st }).after_deletions(
                st.pending_marks(),
                n,
            );
            let queued = Seq::new(n, |i: int| st.pending_deletions.contains(i as usize));
            let queued_plants = Seq::new(
                n,
                |i: int| st.pending_deletions.contains(i as usize) && st.is_plant[i],
            );
            &&& r.wf()
            &&& r.num_particles == st.num_particles - count_true(queued)
            &&& r.bodies.len() == st.bodies.len() - count_true(queued)
            &&& r.num_plants == st.num_plants - count_true(queued_plants)
            &&& r.pending_deletions.len() == 0
        }),
{
    let n = st.num_particles as nat;
    let marks = st.pending_marks();
    let cleared = PopulationState { pending_deletions: Seq::<usize>::empty(), ..st };
    lemma_doomed_prefix(cleared, st, marks, n);
    lemma_after_deletions_wf(cleared, marks, n);
    lemma_after_deletions_keeps_queue(cleared, marks, n);
    lemma_after_deletions_bodies(cleared, marks, n);
    lemma_remove_marked_below(st.bodies, marks, n);
    lemma_remove_marked_below(st.is_plant, marks, n);
    assert(st.bodies.take(n as int) =~= st.bodies);
    assert(st.is_plant.take(n as int) =~= st.is_plant);
    assert(st.bodies.skip(n as int) =~= Seq::<B>::empty());
    assert(st.is_plant.skip(n as int) =~= Seq::<bool>::empty());
    let r = cleared.after_deletions(marks, n);
    lemma_keep_unmarked_counts(st.is_plant, marks);
    lemma_plant_count(st);
    lemma_plant_count(r);
    assert(Seq::new(n, |i: int| st.pending_deletions.contains(i as usize)) =~= Seq::new(
        st.is_plant.len(),
        |i: int| marks.contains(i as usize),
    ));
    assert(Seq::new(
        n,
        |i: int| st.pending_deletions.contains(i as usize) && st.is_plant[i],
    ) =~= Seq::new(st.is_plant.len(), |i: int| marks.contains(i as usize) && st.is_plant[i]));
}

/// Keeping the unmarked entries of a list of flags drops as many entries as
/// there are marked places, and as many `true` entries as there are marked
/// places holding `true`.
proof fn lemma_keep_unmarked_counts(s: Seq<bool>, marks: Set<usize>)
    requires
        s.len() <= usize::MAX,
    ensures
        keep_unmarked(s, marks).len() + count_true(
            Seq::new(s.len(), |i: int| marks.contains(i as usize)),
        ) == s.len(),
        count_true(keep_unmarked(s, marks)) + count_true(
            Seq::new(s.len(), |i: int| marks.contains(i as usize) && s[i]),
        ) == count_true(s),
    decreases s.len(),
{
    if s.len() > 0 {
        let t = s.drop_last();
        lemma_keep_unmarked_counts(t, marks);
        let m = Seq::new(s.len(), |i: int| marks.contains(i as usize));
        let mt = Seq::new(t.len(), |i: int| marks.contains(i as usize));
        assert(m.drop_last() =~= mt);
        let p = Seq::new(s.len(), |i: int| marks.contains(i as usize) && s[i]);
        let pt = Seq::new(t.len(), |i: int| marks.contains(i as usize) && t[i]);
        assert(p.drop_last() =~= pt);
        let kept = keep_unmarked(t, marks);
        if !marks.contains((s.len() - 1) as usize) {
            assert(kept.push(s.last()).drop_last() =~= kept);
        }
    } else {
        assert(keep_unmarked(s, marks) =~= Seq::<bool>::empty());
    }
}

/// Deleting the marked particles below `k` keeps a well-formed state
/// well-formed, as long as the cell counter stays in range.
proof fn lemma_after_deletions_wf<B, T>(st: PopulationState<B, T>, marks: Set<usize>, k: nat)
    requires
        st.wf(),
        k <= st.num_particles,
        st.num_cells - st.doomed_non_plants(marks, k) >= i32::MIN,
    ensures
        st.after_deletions(marks, k).wf(),
    decreases k,
{
    if k > 0 {
        let d = (k - 1) as usize;
        lemma_doomed_non_negative(st, marks, (k - 1) as nat);
        if marks.contains(d) {
            lemma_without_particle(st, d);
            let nx = st.without_particle(d);
            st.is_plant.remove_ensures(d as int);
            lemma_doomed_prefix(nx, st, marks, (k - 1) as nat);
            lemma_after_deletions_wf(nx, marks, (k - 1) as nat);
        } else {
            lemma_after_deletions_wf(st, marks, (k - 1) as nat);
        }
    }
}

/// A cell flagged for deletion does not outlive the step: once the dead
/// cells are queued and the queue is processed, every remaining cell is
/// unflagged.
pub proof fn lemma_flagged_cells_do_not_survive<B, T>(st: PopulationState<B, T>)
    requires
        st.wf(),
    ensures
        ({
            let queued = st.with_dead_cells_queued();
            let left = drop_marked_keys(
                queued.cells,
                queued.cell_indices,
                queued.pending_marks(),
                queued.num_particles as nat,
            );
            forall|j: int| 0 <= j < left.len() ==> !(#[trigger] left[j]).to_delete
        }),
{
    let queued = st.with_dead_cells_queued();
    let marks = queued.pending_marks();
    let n = queued.num_particles as nat;
    let left = drop_marked_keys(queued.cells, queued.cell_indices, marks, n);
    let dead = dead_cell_indices(st.cells, st.cell_indices, st.cells.len());
    lemma_dead_cell_indices(st, st.cells.len());
    assert forall|j: int| 0 <= j < left.len() implies !(#[trigger] left[j]).to_delete by {
        lemma_drop_marked_keys_source(queued.cells, queued.cell_indices, marks, n, j);
        let i = choose|i: int|
            0 <= i < queued.cells.len() && left[j] == queued.cells[i] && !((
            queued.cell_indices[i] as int) < n && marks.contains(queued.cell_indices[i]));
        if st.cells[i].to_delete {
            assert(dead.contains(st.cell_indices[i]));
            let q = choose|q: int| 0 <= q < dead.len() && dead[q] == st.cell_indices[i];
            assert(queued.pending_deletions[st.pending_deletions.len() + q] == st.cell_indices[i]);
            assert(queued.pending_deletions.contains(st.cell_indices[i]));
        }
    }
}

/// The number of marked non-plants below `k` is never negative.
pub proof fn lemma_doomed_non_negative<B, T>(st: PopulationState<B, T>, marks: Set<usize>, k: nat)
    ensures
        st.doomed_non_plants(marks, k) >= 0,
    decreases k,
{
    if k > 0 {
        lemma_doomed_non_negative(st, marks, (k - 1) as nat);
    }
}

/// The number of marked non-plants below `k` depends only on which of the
/// first `k` particles are plants.
pub proof fn lemma_doomed_prefix<B, T>(
    a: PopulationState<B, T>,
    b: PopulationState<B, T>,
    marks: Set<usize>,
    k: nat,
)
    requires
        a.is_plant.len() >= k,
        b.is_plant.len() >= k,
        forall|i: int| 0 <= i < k ==> a.is_plant[i] == b.is_plant[i],
    ensures
        a.doomed_non_plants(marks, k) == b.doomed_non_plants(marks, k),
    decreases k,
{
    if k > 0 {
        lemma_doomed_prefix(a, b, marks, (k - 1) as nat);
    }
}

/// Deleting marked particles leaves the deletion queue as it was.
pub proof fn lemma_after_deletions_keeps_queue<B, T>(
    st: PopulationState<B, T>,
    marks: Set<usize>,
    k: nat,
)
    ensures
        st.after_deletions(marks, k).pending_deletions == st.pending_deletions,
    decreases k,
{
    if k > 0 {
        let next = if marks.contains((k - 1) as usize) {
            st.without_particle((k - 1) as usize)
        } else {
            st
        };
        lemma_after_deletions_keeps_queue(next, marks, (k - 1) as nat);
    }
}

/// With nothing marked below `k`, deleting the marked particles changes nothing.
pub proof fn lemma_after_deletions_unmarked<B, T>(
    st: PopulationState<B, T>,
    marks: Set<usize>,
    k: nat,
)
    requires
        forall|i: usize| i < k ==> !marks.contains(i),
    ensures
        st.after_deletions(marks, k) == st,
    decreases k,
{
    if k > 0 {
        lemma_after_deletions_unmarked(st, marks, (k - 1) as nat);
    }
}

/// Deleting marked particles removes their bodies and plant flags exactly as
/// `remove_marked_below` removes entries.
pub proof fn lemma_after_deletions_bodies<B, T>(
    st: PopulationState<B, T>,
    marks: Set<usize>,
    k: nat,
)
    requires
        k <= usize::MAX,
    ensures
        st.after_deletions(marks, k).bodies == remove_marked_below(st.bodies, marks, k),
        st.after_deletions(marks, k).is_plant == remove_marked_below(st.is_plant, marks, k),
    decreases k,
{
    if k > 0 {
        let next = if marks.contains((k - 1) as usize) {
            st.without_particle((k - 1) as usize)
        } else {
            st
        };
        lemma_after_deletions_bodies(next, marks, (k - 1) as nat);
    }
}

/// Removing the marked entries below `k` from the top down keeps, in order,
/// the unmarked entries below `k`, followed by the entries from `k` on.
pub proof fn lemma_remove_marked_below<A>(s: Seq<A>, marks: Set<usize>, k: nat)
    requires
        k <= s.len(),
    ensures
        remove_marked_below(s, marks, k) == keep_unmarked(s.take(k as int), marks) + s.skip(k as int),
    decreases k,
{
    if k == 0 {
        assert(s.take(0) =~= Seq::<A>::empty());
        assert(s.skip(0) =~= s);
        assert(keep_unmarked(s.take(0), marks) + s.skip(0) =~= s);
    } else {
        let m = (k - 1) as nat;
        let next = if marks.contains(m as usize) {
            s.remove(m as int)
        } else {
            s
        };
        lemma_remove_marked_below(next, marks, m);
        assert(next.take(m as int) =~= s.take(m as int));
        assert(s.take(k as int).drop_last() =~= s.take(m as int));
        if marks.contains(m as usize) {
            assert(next.skip(m as int) =~= s.skip(k as int));
        } else {
            assert(next.skip(m as int) =~= seq![s[m as int]] + s.skip(k as int));
            assert(keep_unmarked(s.take(m as int), marks) + next.skip(m as int) =~= keep_unmarked(
                s.take(m as int),
                marks,
            ).push(s[m as int]) + s.skip(k as int));
        }
    }
}

/// Every index that `mark_dead_cells` queues names the particle of a cell
/// flagged for deletion, and every such cell's particle is queued; in a
/// well-formed state these are valid particles that are not plants.
pub proof fn lemma_dead_cell_indices<B, T>(st: PopulationState<B, T>, k: nat)
    requires
        st.wf(),
        k <= st.cells.len(),
    ensures
        forall|j: int|
            0 <= j < dead_cell_indices(st.cells, st.cell_indices, k).len() ==> {
                let x = #[trigger] dead_cell_indices(st.cells, st.cell_indices, k)[j];
                &&& x < st.num_particles
                &&& !st.is_plant[x as int]
                &&& exists|c: int| 0 <= c < k && st.cells[c].to_delete && st.cell_indices[c] == x
            },
        forall|c: int|
            0 <= c < k && #[trigger] st.cells[c].to_delete ==> dead_cell_indices(
                st.cells,
                st.cell_indices,
                k,
            ).contains(st.cell_indices[c]),
    decreases k,
{
    if k > 0 {
        let m = (k - 1) as nat;
        lemma_dead_cell_indices(st, m);
        let earlier = dead_cell_indices(st.cells, st.cell_indices, m);
        let now = dead_cell_indices(st.cells, st.cell_indices, k);
        assert forall|j: int| 0 <= j < now.len() implies {
            let x = #[trigger] now[j];
            &&& x < st.num_particles
            &&& !st.is_plant[x as int]
            &&& exists|c: int| 0 <= c < k && st.cells[c].to_delete && st.cell_indices[c] == x
        } by {
            if j < earlier.len() {
                assert(now[j] == earlier[j]);
                let x = earlier[j];
                let c = choose|c: int| 0 <= c < m && st.cells[c].to_delete && st.cell_indices[c] == x;
                assert(0 <= c < k && st.cells[c].to_delete && st.cell_indices[c] == x);
            } else {
                assert(now[j] == st.cell_indices[m as int]);
                assert(st.cell_indices[m as int] < st.num_particles);
            }
        }
        assert forall|c: int| 0 <= c < k && #[trigger] st.cells[c].to_delete implies now.contains(
            st.cell_indices[c],
        ) by {
            if c < m {
                let q = choose|q: int| 0 <= q < earlier.len() && earlier[q] == st.cell_indices[c];
                assert(now[q] == st.cell_indices[c]);
            } else {
                assert(now[now.len() - 1] == st.cell_indices[c]);
            }
        }
    }
}

/// In a well-formed state the plant counter is the number of particles that
/// are plants.
pub proof fn lemma_plant_count<B, T>(st: PopulationState<B, T>)
    requires
        st.wf(),
    ensures
        st.num_plants == count_true(st.is_plant),
{
    let flagged = Set::new(|x: usize| (x as int) < st.is_plant.len() && st.is_plant[x as int]);
    lemma_count_true_set(st.is_plant);
    st.plants.unique_seq_to_set();
    assert forall|x: usize| #[trigger] st.plants.to_set().contains(x) <==> flagged.contains(x) by {
        if st.plants.contains(x) {
            let k = choose|k: int| 0 <= k < st.plants.len() && st.plants[k] == x;
            assert(st.plants[k] < st.num_particles);
        }
        if flagged.contains(x) {
            assert(st.is_plant[x as int]);
        }
    }
    assert(st.plants.to_set() =~= flagged);
}

/// The places of the `true` entries of `s` form a finite set with
/// `count_true(s)` elements.
pub proof fn lemma_count_true_set(s: Seq<bool>)
    requires
        s.len() <= usize::MAX,
    ensures
        Set::new(|x: usize| (x as int) < s.len() && s[x as int]).finite(),
        Set::new(|x: usize| (x as int) < s.len() && s[x as int]).len() == count_true(s),
    decreases s.len(),
{
    let all = Set::new(|x: usize| (x as int) < s.len() && s[x as int]);
    if s.len() == 0 {
        assert(all =~= Set::empty());
    } else {
        let t = s.drop_last();
        lemma_count_true_set(t);
        let part = Set::new(|x: usize| (x as int) < t.len() && t[x as int]);
        let m = (s.len() - 1) as usize;
        if s.last() {
            assert(all =~= part.insert(m));
            assert(!part.contains(m));
        } else {
            assert(all =~= part);
        }
    }
}

/// In a well-formed state there are no more plants than particles.
pub proof fn lemma_plants_fit<B, T>(st: PopulationState<B, T>)
    requires
        st.wf(),
    ensures
        st.num_plants <= st.num_particles,
        st.cells.len() <= st.num_particles,
{
    lemma_distinct_below(st.plants, st.num_particles as nat);
    lemma_distinct_below(st.cell_indices, st.num_particles as nat);
}

/// A list of distinct indices that are all below `n` has at most `n` entries.
pub proof fn lemma_distinct_below(s: Seq<usize>, n: nat)
    requires
        s.no_duplicates(),
        forall|k: int| 0 <= k < s.len() ==> #[trigger] s[k] < n,
    ensures
        s.len() <= n,
{
    let below = Set::new(|x: usize| x < n);
    assert(s.to_set().subset_of(below));
    s.unique_seq_to_set();
    lemma_usize_range_finite(n);
    vstd::set_lib::lemma_len_subset(s.to_set(), below);
}

/// The indices below `n` form a finite set of `n` elements.
pub proof fn lemma_usize_range_finite(n: nat)
    ensures
        Set::new(|x: usize| x < n).finite(),
        Set::new(|x: usize| x < n).len() <= n,
    decreases n,
{
    let s = Set::new(|x: usize| x < n);
    if n == 0 {
        assert(s =~= Set::empty());
    } else {
        lemma_usize_range_finite((n - 1) as nat);
        let t = Set::new(|x: usize| x < (n - 1) as nat);
        if n - 1 <= usize::MAX {
            assert(s =~= t.insert((n - 1) as usize));
        } else {
            assert(s =~= t);
        }
    }
}

} // verus!
