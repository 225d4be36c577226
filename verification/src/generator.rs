//! Bookkeeping of navmesh generation: which navmeshes wait to be generated,
//! which are being generated, and the change of frame between a world whose
//! up axis is x, y or z and the generator's y-up frame.

use vstd::prelude::*;
use std::collections::HashMap;
use crate::contours::GridVertex;

verus! {

broadcast use vstd::std_specs::hash::group_hash_axioms;

/// The world axis that points up.
#[derive(Clone, Copy, Debug, PartialEq, Eq, Structural)]
pub enum UpAxis {
    /// `+x` is up.
    X,
    /// `+y` is up (the generator's own frame).
    Y,
    /// `+z` is up.
    Z,
}

impl UpAxis {
    /// A point of the world, `(a, b, c)`, in the generator's y-up frame.
    pub open spec fn to_y_up_spec<T>(self, p: (T, T, T)) -> (T, T, T) {
        match self {
            UpAxis::X => (p.2, p.0, p.1),
            UpAxis::Y => p,
            UpAxis::Z => (p.1, p.2, p.0),
        }
    }

    /// A point of the generator's y-up frame in the world's frame.
    pub open spec fn from_y_up_spec<T>(self, p: (T, T, T)) -> (T, T, T) {
        match self {
            UpAxis::X => (p.1, p.2, p.0),
            UpAxis::Y => p,
            UpAxis::Z => (p.2, p.0, p.1),
        }
    }

    /// Moves a point of the world into the generator's y-up frame.
    pub fn to_y_up<T: Copy>(self, p: (T, T, T)) -> (r: (T, T, T))
        ensures
            r == self.to_y_up_spec(p),
    {
        match self {
            UpAxis::X => (p.2, p.0, p.1),
            UpAxis::Y => p,
            UpAxis::Z => (p.1, p.2, p.0),
        }
    }

    /// Moves a point of the generator's y-up frame back into the world.
    pub fn from_y_up<T: Copy>(self, p: (T, T, T)) -> (r: (T, T, T))
        ensures
            r == self.from_y_up_spec(p),
    {
        match self {
            UpAxis::X => (p.1, p.2, p.0),
            UpAxis::Y => p,
            UpAxis::Z => (p.2, p.0, p.1),
        }
    }

    /// Moves every point of the generator's y-up frame back into the world.
    pub fn points_from_y_up<T: Copy>(self, points: &mut Vec<(T, T, T)>)
        ensures
            final(points)@.len() == old(points)@.len(),
            forall|k: int|
                0 <= k < old(points)@.len() ==> #[trigger] final(points)@[k] == self.from_y_up_spec(
                    old(points)@[k],
                ),
    {
        let mut k: usize = 0;
        while k < points.len()
            invariant
                points@.len() == old(points)@.len(),
                k <= points@.len(),
                forall|t: int|
                    0 <= t < points@.len() ==> #[trigger] points@[t] == if t < k {
                        self.from_y_up_spec(old(points)@[t])
                    } else {
                        old(points)@[t]
                    },
            decreases points@.len() - k,
        {
            let p = self.from_y_up(points[k]);
            points.set(k, p);
            k += 1;
        }
    }

    /// Moves every grid vertex of the generator's y-up frame back into the
    /// world.
    pub fn vertices_from_y_up(self, vertices: &mut Vec<GridVertex>)
        ensures
            final(vertices)@.len() == old(vertices)@.len(),
            forall|k: int|
                0 <= k < old(vertices)@.len() ==> {
                    let v = old(vertices)@[k];
                    let w = #[trigger] final(vertices)@[k];
                    (w.x, w.y, w.z) == self.from_y_up_spec((v.x, v.y, v.z))
                },
    {
        let mut k: usize = 0;
        while k < vertices.len()
            invariant
                vertices@.len() == old(vertices)@.len(),
                k <= vertices@.len(),
                forall|t: int|
                    0 <= t < vertices@.len() ==> {
                        let v = old(vertices)@[t];
                        let w = #[trigger] vertices@[t];
                        if t < k {
                            (w.x, w.y, w.z) == self.from_y_up_spec((v.x, v.y, v.z))
                        } else {
                            w == v
                        }
                    },
            decreases vertices@.len() - k,
        {
            let v = vertices[k];
            let (x, y, z) = self.from_y_up((v.x, v.y, v.z));
            vertices.set(k, GridVertex { x, y, z });
            k += 1;
        }
    }
}

/// Moving a point into the y-up frame and back gives the point again, and so
/// does the other order: the generator hands back navmeshes in the world's
/// own frame.
pub proof fn lemma_up_axis_round_trip<T>(up: UpAxis, p: (T, T, T))
    ensures
        up.from_y_up_spec(up.to_y_up_spec(p)) == p,
        up.to_y_up_spec(up.from_y_up_spec(p)) == p,
{
}

/// Navmeshes waiting to be generated, by navmesh id with their settings `S`,
/// and the generation tasks `T` in flight, by navmesh id.
pub struct NavmeshGenerator<S, T> {
    /// Requests not started yet.
    pub queue: HashMap<u64, S>,
    /// Generations in flight.
    pub task_queue: HashMap<u64, T>,
}

impl<S, T> NavmeshGenerator<S, T> {
    /// Whether navmesh `id` waits to be generated or is being generated.
    pub open spec fn pending(&self, id: u64) -> bool {
        self.queue@.contains_key(id) || self.task_queue@.contains_key(id)
    }

    /// No request and no task.
    pub fn new() -> (r: Self)
        ensures
            r.queue@ == Map::<u64, S>::empty(),
            r.task_queue@ == Map::<u64, T>::empty(),
    {
        NavmeshGenerator { queue: HashMap::new(), task_queue: HashMap::new() }
    }

    /// Queues the generation of navmesh `id` with `settings`, replacing an
    /// earlier request for it that has not started.
    pub fn generate(&mut self, id: u64, settings: S)
        ensures
            final(self).queue@ == old(self).queue@.insert(id, settings),
            final(self).task_queue@ == old(self).task_queue@,
            final(self).pending(id),
    {
        self.queue.insert(id, settings);
    }

    /// Queues the regeneration of navmesh `id` unless it already waits or is
    /// being generated; returns whether it was queued now. Afterwards the
    /// navmesh is pending, so calling again has no effect until its
    /// generation is over.
    pub fn regenerate(&mut self, id: u64, settings: S) -> (queued: bool)
        ensures
            queued == !old(self).pending(id),
            final(self).pending(id),
            final(self).queue@ == if queued {
                old(self).queue@.insert(id, settings)
            } else {
                old(self).queue@
            },
            final(self).task_queue@ == old(self).task_queue@,
    {
        if self.queue.contains_key(&id) || self.task_queue.contains_key(&id) {
            return false;
        }
        self.queue.insert(id, settings);
        true
    }

    /// Takes every waiting request out of the queue.
    pub fn take_queue(&mut self) -> (r: HashMap<u64, S>)
        ensures
            r@ == old(self).queue@,
            final(self).queue@ == Map::<u64, S>::empty(),
            final(self).task_queue@ == old(self).task_queue@,
    {
        let mut taken: HashMap<u64, S> = HashMap::new();
        std::mem::swap(&mut taken, &mut self.queue);
        taken
    }

    /// Records the task generating navmesh `id`.
    pub fn start_task(&mut self, id: u64, task: T)
        ensures
            final(self).task_queue@ == old(self).task_queue@.insert(id, task),
            final(self).queue@ == old(self).queue@,
    {
        self.task_queue.insert(id, task);
    }

    /// Forgets the task of navmesh `id`, once it has finished or its navmesh
    /// was dropped; returns the task if there was one.
    pub fn finish_task(&mut self, id: u64) -> (r: Option<T>)
        ensures
            final(self).task_queue@ == old(self).task_queue@.remove(id),
            final(self).queue@ == old(self).queue@,
            r == if old(self).task_queue@.contains_key(id) {
                Some(old(self).task_queue@[id])
            } else {
                None::<T>
            },
    {
        self.task_queue.remove(&id)
    }
}

} // verus!
