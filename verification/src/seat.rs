//! Per-consumer runtime action state.
//!
//! A [`Seat`] holds, for every action that has ever fired, the latest payload
//! and a FIFO queue of not-yet-consumed payloads. One seat exists per
//! independent input consumer; many seats may share one session and one set
//! of bindings.

use std::collections::VecDeque;

use vstd::pervasive::VecAdditionalExecFns;
use vstd::prelude::*;

use crate::types::Action;
use crate::types::ActionId;
use crate::types::TypeError;
use crate::types::TypeTag;
use crate::types::Value;

verus! {

/// Mathematical model of one action's state cell: the queued payloads in
/// FIFO order, oldest first, and the latest payload.
pub struct CellModel {
    pub queue: Seq<Value>,
    pub latest: Value,
}

impl CellModel {
    /// The payload type this cell was established with. A cell's type is the
    /// type of its first write and never changes.
    pub open spec fn tag(self) -> TypeTag {
        self.latest.spec_tag()
    }

    /// Every queued payload has the cell's own type.
    pub open spec fn wf(self) -> bool {
        forall|j: int| 0 <= j < self.queue.len() ==> self.queue[j].spec_tag() == self.tag()
    }
}

/// True when the cell for `action.id` in seat state `m`, if any, carries
/// payloads of `action.tag`.
pub open spec fn cell_tag_ok(m: Map<int, CellModel>, action: Action) -> bool {
    m.dom().contains(action.id.0 as int) ==> m[action.id.0 as int].tag() == action.tag
}

/// True when a push of `v` for action `id` succeeds on a seat in state `m`:
/// either the action never fired, or its cell carries `v`'s type.
pub open spec fn push_ok(m: Map<int, CellModel>, id: ActionId, v: Value) -> bool {
    !m.dom().contains(id.0 as int) || m[id.0 as int].tag() == v.spec_tag()
}

/// The seat state after a successful push of `v` for action `id`: the cell
/// is created on the first write, and `v` is appended to the queue and
/// becomes the latest value.
pub open spec fn push_model(m: Map<int, CellModel>, id: ActionId, v: Value) -> Map<
    int,
    CellModel,
> {
    m.insert(
        id.0 as int,
        CellModel {
            queue: if m.dom().contains(id.0 as int) {
                m[id.0 as int].queue.push(v)
            } else {
                seq![v]
            },
            latest: v,
        },
    )
}

struct ActionState {
    queue: VecDeque<Value>,
    latest: Value,
}

impl View for ActionState {
    type V = CellModel;

    closed spec fn view(&self) -> CellModel {
        CellModel { queue: self.queue@, latest: self.latest }
    }
}

/// Runtime state store: the current and queued values of every action that
/// has fired for one input consumer.
///
/// The model is a map from action identifier to [`CellModel`]; absence of a
/// key means the action never fired. Applications call [`Seat::poll`] to
/// consume changes, [`Seat::get`] to sample the latest value, and must call
/// [`Seat::flush`] once per tick to bound unconsumed-event memory growth.
pub struct Seat {
    state: Vec<Option<ActionState>>,
}

impl View for Seat {
    type V = Map<int, CellModel>;

    closed spec fn view(&self) -> Map<int, CellModel> {
        Map::new(
            |i: int| 0 <= i < self.state@.len() && self.state@[i] is Some,
            |i: int| self.state@[i]->Some_0@,
        )
    }
}

impl Default for Seat {
    /// See [`Seat::new`].
    fn default() -> (r: Seat)
        ensures
            r@ == Map::<int, CellModel>::empty(),
            r.wf(),
    {
        Seat::new()
    }
}

impl Seat {
    /// Every cell holds queued values of its own established type only.
    pub open spec fn wf(self) -> bool {
        forall|i: int| self@.dom().contains(i) ==> (#[trigger] self@[i]).wf()
    }

    /// True when the cell for `action.id`, if any, carries payloads of
    /// `action.tag`. Reading an action through a handle of the wrong type is
    /// a programming defect that the routing layer rules out at bind time.
    pub open spec fn tag_ok(self, action: Action) -> bool {
        cell_tag_ok(self@, action)
    }

    /// Create a seat with no action state.
    pub fn new() -> (r: Seat)
        ensures
            r@ == Map::<int, CellModel>::empty(),
            r.wf(),
    {
        let r = Seat { state: Vec::new() };
        proof {
            assert(r@ =~= Map::<int, CellModel>::empty());
        }
        r
    }

    /// Update the state of `action` to `value`.
    ///
    /// The first write for an action allocates its cell, with the queue
    /// holding just `value`; later writes of the cell's type append to the
    /// queue and overwrite the latest value. A write of any other type fails
    /// with a [`TypeError`] and changes nothing. Most applications do not
    /// call this directly: it is called by the routing layer, which checks
    /// types once at bind time.
    pub fn push(&mut self, action: ActionId, value: Value) -> (r: Result<(), TypeError>)
        requires
            old(self).wf(),
            action.0 < u32::MAX,
        ensures
            final(self).wf(),
            r is Ok <==> push_ok(old(self)@, action, value),
            r is Ok ==> final(self)@ == push_model(old(self)@, action, value),
            r matches Err(e) ==> final(self)@ == old(self)@ && e == (TypeError {
                expected: old(self)@[action.0 as int].tag(),
                actual: value.spec_tag(),
            }),
    {
        let idx = action.0 as usize;
        while self.state.len() <= idx
            invariant
                idx < u32::MAX,
                self@ == old(self)@,
                self.wf(),
            decreases idx + 1 - self.state.len(),
        {
            let ghost prev = self@;
            self.state.push(None);
            proof {
                assert(self@ =~= prev);
            }
        }
        match self.state[idx] {
            Option::None => {
                let mut queue = VecDeque::new();
                queue.push_back(value);
                self.state.set(idx, Some(ActionState { queue, latest: value }));
                proof {
                    assert(self@ =~= old(self)@.insert(
                        action.0 as int,
                        CellModel { queue: seq![value], latest: value },
                    ));
                }
                Ok(())
            },
            Option::Some(ref cell) => {
                if cell.latest.tag() == value.tag() {
                    let mut taken: Option<ActionState> = None;
                    self.state.set_and_swap(idx, &mut taken);
                    let mut cell = taken.unwrap();
                    cell.queue.push_back(value);
                    cell.latest = value;
                    let ghost new_cell = cell@;
                    self.state.set(idx, Some(cell));
                    proof {
                        assert(self@ =~= old(self)@.insert(action.0 as int, new_cell));
                    }
                    Ok(())
                } else {
                    let e = TypeError { expected: cell.latest.tag(), actual: value.tag() };
                    proof {
                        assert(self@ =~= old(self)@);
                    }
                    Err(e)
                }
            },
        }
    }

    /// Observe the current state of `action`: a copy of the latest value
    /// pushed to it, or `None` if the action never fired. Does not consume
    /// queued values.
    pub fn get(&self, action: Action) -> (r: Option<Value>)
        requires
            self.tag_ok(action),
        ensures
            r == if self@.dom().contains(action.id.0 as int) {
                Some(self@[action.id.0 as int].latest)
            } else {
                None::<Value>
            },
    {
        let idx = action.id.0 as usize;
        if idx >= self.state.len() {
            return None;
        }
        match self.state[idx] {
            Option::None => None,
            Option::Some(ref cell) => Some(cell.latest),
        }
    }

    /// Consume the next state change affecting `action`, if any: pops and
    /// returns the oldest queued value, in FIFO order of pushes. Returns
    /// `None` when the queue is empty, and then keeps returning `None` until
    /// the next push. The latest value is unaffected.
    pub fn poll(&mut self, action: Action) -> (r: Option<Value>)
        requires
            old(self).wf(),
            old(self).tag_ok(action),
        ensures
            final(self).wf(),
            if old(self)@.dom().contains(action.id.0 as int) && old(self)@[action.id.0 as int].queue.len() > 0 {
                r == Some(old(self)@[action.id.0 as int].queue.first()) && final(self)@ == old(
                    self,
                )@.insert(
                    action.id.0 as int,
                    CellModel {
                        queue: old(self)@[action.id.0 as int].queue.drop_first(),
                        latest: old(self)@[action.id.0 as int].latest,
                    },
                )
            } else {
                r == None::<Value> && final(self)@ == old(self)@
            },
    {
        let idx = action.id.0 as usize;
        if idx >= self.state.len() {
            return None;
        }
        let mut cell: Option<ActionState> = None;
        self.state.set_and_swap(idx, &mut cell);
        match cell {
            Option::None => {
                let ghost prev = old(self)@;
                self.state.set(idx, None);
                proof {
                    assert(self@ =~= prev);
                }
                None
            },
            Option::Some(mut cell) => {
                let r = cell.queue.pop_front();
                let ghost new_cell = cell@;
                self.state.set(idx, Some(cell));
                proof {
                    if old(self)@[idx as int].queue.len() > 0 {
                        assert(self@ =~= old(self)@.insert(idx as int, new_cell));
                    } else {
                        assert(self@ =~= old(self)@);
                    }
                }
                r
            },
        }
    }

    /// Discard all state changes not consumed by [`Seat::poll`] calls.
    ///
    /// Every cell's pending queue is emptied; every latest value is kept.
    /// Call this once per application tick so memory use stays bounded.
    pub fn flush(&mut self)
        ensures
            final(self).wf(),
            final(self)@.dom() == old(self)@.dom(),
            forall|i: int| old(self)@.dom().contains(i) ==> #[trigger] final(self)@[i]
                == (CellModel { queue: Seq::<Value>::empty(), latest: old(self)@[i].latest }),
    {
        let n = self.state.len();
        let mut i: usize = 0;
        while i < n
            invariant
                i <= n,
                n == self.state@.len(),
                self.state@.len() == old(self).state@.len(),
                forall|j: int| i <= j < n ==> self.state@[j] == old(self).state@[j],
                forall|j: int| 0 <= j < i ==> ((#[trigger] self.state@[j]) is Some <==> old(
                    self,
                ).state@[j] is Some),
                forall|j: int| 0 <= j < i && self.state@[j] is Some ==> (#[trigger] self.state@[j])->Some_0@ == (CellModel {
                    queue: Seq::<Value>::empty(),
                    latest: old(self).state@[j]->Some_0@.latest,
                }),
            decreases n - i,
        {
            let mut cell: Option<ActionState> = None;
            self.state.set_and_swap(i, &mut cell);
            match cell {
                Option::None => {
                    self.state.set(i, None);
                },
                Option::Some(mut cell) => {
                    cell.queue.clear();
                    self.state.set(i, Some(cell));
                },
            }
            i = i + 1;
        }
        proof {
            assert(final(self)@.dom() =~= old(self)@.dom());
        }
    }
}

} // verus!
