//! The replay memory of deep Q-learning: a ring buffer of the last
//! transitions, sampled at random so that the network learns from
//! uncorrelated data.
use rand::rngs::StdRng;
use vstd::prelude::*;
use crate::rl::algorithms::tch_wrapper::DeviceDef;
use crate::rl::utils::random::sample_indices;

verus! {

/// The last `capacity` transitions `(state, action, next_state, reward,
/// terminated, truncated)` seen by the agent. A new transition overwrites
/// the oldest one once the memory is full.
pub struct ReplayMemory<S, A, R> {
    capacity: usize,
    position: usize,
    size: usize,
    device: DeviceDef,
    states: Vec<S>,
    actions: Vec<A>,
    rewards: Vec<R>,
    next_states: Vec<S>,
    terminated: Vec<bool>,
    truncated: Vec<bool>,
}

impl<S: Clone + Default, A: Clone + Default, R: Clone + Default> ReplayMemory<S, A, R> {
    /// The number of slots.
    pub closed spec fn spec_capacity(&self) -> nat {
        self.capacity as nat
    }

    /// The slot the next transition is written to.
    pub closed spec fn spec_position(&self) -> nat {
        self.position as nat
    }

    /// The number of slots that hold a transition (the first `spec_len()` ones).
    pub closed spec fn spec_len(&self) -> nat {
        self.size as nat
    }

    pub closed spec fn spec_device(&self) -> DeviceDef {
        self.device
    }

    pub closed spec fn spec_states(&self) -> Seq<S> {
        self.states@
    }

    pub closed spec fn spec_actions(&self) -> Seq<A> {
        self.actions@
    }

    pub closed spec fn spec_rewards(&self) -> Seq<R> {
        self.rewards@
    }

    pub closed spec fn spec_next_states(&self) -> Seq<S> {
        self.next_states@
    }

    pub closed spec fn spec_terminated(&self) -> Seq<bool> {
        self.terminated@
    }

    pub closed spec fn spec_truncated(&self) -> Seq<bool> {
        self.truncated@
    }

    /// Every column has one entry per slot, the write position is a slot (or
    /// 0 when there is none), and no more slots are filled than exist.
    pub open spec fn wf(&self) -> bool {
        &&& self.spec_states().len() == self.spec_capacity()
        &&& self.spec_actions().len() == self.spec_capacity()
        &&& self.spec_rewards().len() == self.spec_capacity()
        &&& self.spec_next_states().len() == self.spec_capacity()
        &&& self.spec_terminated().len() == self.spec_capacity()
        &&& self.spec_truncated().len() == self.spec_capacity()
        &&& (self.spec_position() < self.spec_capacity() || self.spec_position() == 0)
        &&& self.spec_len() <= self.spec_capacity()
        &&& self.spec_len() < self.spec_capacity() ==> self.spec_position() == self.spec_len()
    }

    /// An empty memory of `capacity` slots, each filled with default values.
    pub fn new(capacity: usize, device: DeviceDef) -> (m: Self)
        ensures
            m.wf(),
            m.spec_capacity() == capacity,
            m.spec_position() == 0,
            m.spec_len() == 0,
            m.spec_device() == device,
    {
        let mut states: Vec<S> = Vec::new();
        let mut actions: Vec<A> = Vec::new();
        let mut rewards: Vec<R> = Vec::new();
        let mut next_states: Vec<S> = Vec::new();
        let mut terminated: Vec<bool> = Vec::new();
        let mut truncated: Vec<bool> = Vec::new();
        let mut i: usize = 0;
        while i < capacity
            invariant
                0 <= i <= capacity,
                states@.len() == i,
                actions@.len() == i,
                rewards@.len() == i,
                next_states@.len() == i,
                terminated@.len() == i,
                truncated@.len() == i,
            decreases capacity - i,
        {
            states.push(S::default());
            actions.push(A::default());
            rewards.push(R::default());
            next_states.push(S::default());
            terminated.push(false);
            truncated.push(false);
            i = i + 1;
        }
        ReplayMemory {
            capacity,
            position: 0,
            size: 0,
            device,
            states,
            actions,
            rewards,
            next_states,
            terminated,
            truncated,
        }
    }

    /// Writes a transition at the write position, which then moves to the
    /// next slot (back to the first after the last); the number of filled
    /// slots grows by one until every slot is filled.
    pub fn push(
        &mut self,
        state: S,
        action: A,
        next_state: S,
        reward: R,
        terminated: bool,
        truncated: bool,
    )
        requires
            old(self).wf(),
            old(self).spec_capacity() > 0,
        ensures
            final(self).wf(),
            final(self).spec_capacity() == old(self).spec_capacity(),
            final(self).spec_device() == old(self).spec_device(),
            old(self).spec_position() < final(self).spec_len(),
            final(self).spec_position() == (old(self).spec_position() + 1) % old(
                self,
            ).spec_capacity(),
            final(self).spec_len() == (if old(self).spec_len() < old(self).spec_capacity() {
                old(self).spec_len() + 1
            } else {
                old(self).spec_capacity()
            }),
            final(self).spec_states() == old(self).spec_states().update(
                old(self).spec_position() as int,
                state,
            ),
            final(self).spec_actions() == old(self).spec_actions().update(
                old(self).spec_position() as int,
                action,
            ),
            final(self).spec_next_states() == old(self).spec_next_states().update(
                old(self).spec_position() as int,
                next_state,
            ),
            final(self).spec_rewards() == old(self).spec_rewards().update(
                old(self).spec_position() as int,
                reward,
            ),
            final(self).spec_terminated() == old(self).spec_terminated().update(
                old(self).spec_position() as int,
                terminated,
            ),
            final(self).spec_truncated() == old(self).spec_truncated().update(
                old(self).spec_position() as int,
                truncated,
            ),
    {
        let idx = self.position;
        self.states.set(idx, state);
        self.actions.set(idx, action);
        self.next_states.set(idx, next_state);
        self.rewards.set(idx, reward);
        self.terminated.set(idx, terminated);
        self.truncated.set(idx, truncated);
        proof {
            if self.position + 1 < self.capacity {
                vstd::arithmetic::div_mod::lemma_small_mod(
                    (self.position + 1) as nat,
                    self.capacity as nat,
                );
            }
        }
        self.position = (self.position + 1) % self.capacity;
        let filled = if self.size < self.capacity - 1 {
            self.size
        } else {
            self.capacity - 1
        };
        self.size = filled + 1;
    }

    /// `r` holds, column by column, copies of the transitions in the slots
    /// `idx`, in that order.
    pub open spec fn gathers(
        &self,
        idx: Seq<usize>,
        r: (Vec<S>, Vec<A>, Vec<S>, Vec<R>, Vec<bool>, Vec<bool>),
    ) -> bool {
        let n = idx.len();
        &&& r.0@.len() == n && r.1@.len() == n && r.2@.len() == n
        &&& r.3@.len() == n && r.4@.len() == n && r.5@.len() == n
        &&& forall|i: int|
            0 <= i < n ==> {
                &&& cloned(self.spec_states()[idx[i] as int], #[trigger] r.0@[i])
                &&& cloned(self.spec_actions()[idx[i] as int], r.1@[i])
                &&& cloned(self.spec_next_states()[idx[i] as int], r.2@[i])
                &&& cloned(self.spec_rewards()[idx[i] as int], r.3@[i])
                &&& r.4@[i] == self.spec_terminated()[idx[i] as int]
                &&& r.5@[i] == self.spec_truncated()[idx[i] as int]
            }
    }

    /// `r` holds, column by column, copies of the transitions in the filled
    /// slots `idx`: `n` distinct slots.
    pub open spec fn is_batch(
        &self,
        n: nat,
        idx: Seq<usize>,
        r: (Vec<S>, Vec<A>, Vec<S>, Vec<R>, Vec<bool>, Vec<bool>),
    ) -> bool {
        &&& idx.len() == n
        &&& forall|i: int| 0 <= i < idx.len() ==> idx[i] < self.spec_len()
        &&& forall|i: int, j: int| 0 <= i < j < idx.len() ==> idx[i] != idx[j]
        &&& self.gathers(idx, r)
    }

    /// Copies the transitions in the slots `indices`, in that order, column
    /// by column.
    pub fn gather(&self, indices: &Vec<usize>) -> (r: (
        Vec<S>,
        Vec<A>,
        Vec<S>,
        Vec<R>,
        Vec<bool>,
        Vec<bool>,
    ))
        requires
            self.wf(),
            forall|i: int| 0 <= i < indices@.len() ==> indices@[i] < self.spec_capacity(),
        ensures
            self.gathers(indices@, r),
    {
        let mut states_vec: Vec<S> = Vec::new();
        let mut actions_vec: Vec<A> = Vec::new();
        let mut next_states_vec: Vec<S> = Vec::new();
        let mut rewards_vec: Vec<R> = Vec::new();
        let mut terminated_vec: Vec<bool> = Vec::new();
        let mut truncated_vec: Vec<bool> = Vec::new();
        let mut k: usize = 0;
        while k < indices.len()
            invariant
                self.wf(),
                forall|i: int| 0 <= i < indices@.len() ==> indices@[i] < self.spec_capacity(),
                0 <= k <= indices@.len(),
                states_vec@.len() == k,
                actions_vec@.len() == k,
                next_states_vec@.len() == k,
                rewards_vec@.len() == k,
                terminated_vec@.len() == k,
                truncated_vec@.len() == k,
                forall|i: int|
                    0 <= i < k ==> {
                        &&& cloned(self.spec_states()[indices@[i] as int], #[trigger] states_vec@[i])
                        &&& cloned(self.spec_actions()[indices@[i] as int], actions_vec@[i])
                        &&& cloned(self.spec_next_states()[indices@[i] as int], next_states_vec@[i])
                        &&& cloned(self.spec_rewards()[indices@[i] as int], rewards_vec@[i])
                        &&& terminated_vec@[i] == self.spec_terminated()[indices@[i] as int]
                        &&& truncated_vec@[i] == self.spec_truncated()[indices@[i] as int]
                    },
            decreases indices@.len() - k,
        {
            let i = indices[k];
            let ghost old_s = states_vec@;
            let ghost old_a = actions_vec@;
            let ghost old_n = next_states_vec@;
            let ghost old_r = rewards_vec@;
            let ghost old_t = terminated_vec@;
            let ghost old_u = truncated_vec@;
            let st = self.states[i].clone();
            let nst = self.next_states[i].clone();
            let ac = self.actions[i].clone();
            let rw = self.rewards[i].clone();
            assert(cloned(self.spec_states()[i as int], st));
            assert(cloned(self.spec_next_states()[i as int], nst));
            assert(cloned(self.spec_actions()[i as int], ac));
            assert(cloned(self.spec_rewards()[i as int], rw));
            states_vec.push(st);
            next_states_vec.push(nst);
            actions_vec.push(ac);
            rewards_vec.push(rw);
            terminated_vec.push(self.terminated[i]);
            truncated_vec.push(self.truncated[i]);
            proof {
                assert forall|j: int| 0 <= j < k implies {
                    &&& states_vec@[j] == old_s[j]
                    &&& actions_vec@[j] == old_a[j]
                    &&& next_states_vec@[j] == old_n[j]
                    &&& rewards_vec@[j] == old_r[j]
                    &&& terminated_vec@[j] == old_t[j]
                    &&& truncated_vec@[j] == old_u[j]
                } by {}
                assert(states_vec@[k as int] == st);
            }
            k = k + 1;
        }
        (states_vec, actions_vec, next_states_vec, rewards_vec, terminated_vec, truncated_vec)
    }

    /// Draws `batch_size` distinct filled slots at random and returns copies
    /// of their transitions, column by column.
    pub fn sample(&self, batch_size: usize, rng: &mut StdRng) -> (r: (
        Vec<S>,
        Vec<A>,
        Vec<S>,
        Vec<R>,
        Vec<bool>,
        Vec<bool>,
    ))
        requires
            self.wf(),
            batch_size <= self.spec_len(),
        ensures
            exists|idx: Seq<usize>| #[trigger] self.is_batch(batch_size as nat, idx, r),
    {
        let indices = sample_indices(rng, self.size, batch_size);
        let r = self.gather(&indices);
        assert(self.is_batch(batch_size as nat, indices@, r));
        r
    }

    /// The number of stored transitions.
    pub fn len(&self) -> (n: usize)
        ensures
            n == self.spec_len(),
    {
        self.size
    }

    /// The number of slots.
    pub fn capacity(&self) -> (n: usize)
        ensures
            n == self.spec_capacity(),
    {
        self.capacity
    }

    /// The device the sampled batches are meant for.
    pub fn device(&self) -> (d: DeviceDef)
        ensures
            d == self.spec_device(),
    {
        self.device
    }
}

} // verus!
