use vstd::prelude::*;

verus! {

/// What the enumeration of initial worlds found.
#[derive(Clone, Copy, Debug, PartialEq, Eq, Structural)]
pub struct EnumerationMetrics {
    pub world_count: usize,
}

/// Counts gathered while searching over candidate worlds.
#[derive(Clone, Copy, Debug, PartialEq, Eq, Structural)]
pub struct SolveMetrics {
    pub initial_world_count: usize,
    pub peak_world_count: usize,
    pub visited_state_count: usize,
    pub generated_transition_count: usize,
    pub generated_successor_world_count: usize,
}

impl SolveMetrics {
    /// Metrics of a search that starts from `initial_world_count` worlds.
    pub fn new(initial_world_count: usize) -> (m: SolveMetrics)
        ensures
            m == (SolveMetrics {
                initial_world_count,
                peak_world_count: initial_world_count,
                visited_state_count: 0,
                generated_transition_count: 0,
                generated_successor_world_count: 0,
            }),
    {
        SolveMetrics {
            initial_world_count,
            peak_world_count: initial_world_count,
            visited_state_count: 0,
            generated_transition_count: 0,
            generated_successor_world_count: 0,
        }
    }

    /// Records a visit of a state with `world_count` worlds.
    pub fn visit_state(&mut self, world_count: usize)
        ensures
            final(self).visited_state_count == if old(self).visited_state_count < usize::MAX {
                old(self).visited_state_count + 1
            } else {
                old(self).visited_state_count as int
            },
            final(self).peak_world_count == if old(self).peak_world_count < world_count {
                world_count
            } else {
                old(self).peak_world_count
            },
            final(self).initial_world_count == old(self).initial_world_count,
            final(self).generated_transition_count == old(self).generated_transition_count,
            final(self).generated_successor_world_count == old(self).generated_successor_world_count,
    {
        self.visited_state_count = self.visited_state_count.saturating_add(1);
        if self.peak_world_count < world_count {
            self.peak_world_count = world_count;
        }
    }

    /// Records a transition to a state with `world_count` worlds.
    pub fn record_successor(&mut self, world_count: usize)
        ensures
            final(self).generated_transition_count == if old(self).generated_transition_count < usize::MAX {
                old(self).generated_transition_count + 1
            } else {
                old(self).generated_transition_count as int
            },
            final(self).generated_successor_world_count == if old(self).generated_successor_world_count + world_count <= usize::MAX {
                old(self).generated_successor_world_count + world_count
            } else {
                usize::MAX as int
            },
            final(self).peak_world_count == if old(self).peak_world_count < world_count {
                world_count
            } else {
                old(self).peak_world_count
            },
            final(self).initial_world_count == old(self).initial_world_count,
            final(self).visited_state_count == old(self).visited_state_count,
    {
        self.generated_transition_count = self.generated_transition_count.saturating_add(1);
        self.generated_successor_world_count = self.generated_successor_world_count.saturating_add(world_count);
        if self.peak_world_count < world_count {
            self.peak_world_count = world_count;
        }
    }
}

} // verus!
