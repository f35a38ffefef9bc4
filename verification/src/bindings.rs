//! The type-checked routing table from inputs to actions, and the filter
//! graph it owns.
//!
//! Every binding from an input to an action is checked once, when it is
//! created, against the action's declared payload type. Dispatch at input
//! rates therefore never needs to re-verify types: a successful bind
//! guarantees that every payload routed through it matches the target
//! cell's type.
//!
//! A set of bindings is always defined with respect to the actions of one
//! specific session; actions from different sessions must never be mixed.
//! The bindings carry a ghost snapshot of that session's type table, which
//! every recorded binding and filter agrees with.

use vstd::prelude::*;

use crate::config::add_text;
use crate::config::config_mentions;
use crate::config::mention_count;
use crate::config::sources_nonempty;
use crate::config::sources_wf;
use crate::config::Config;
use crate::config::SourceConfig;
use crate::graph::Filter;
use crate::graph::FilterConfig;
use crate::input::Input;
use crate::input::InputModel;
use crate::seat::cell_tag_ok;
use crate::seat::push_model;
use crate::seat::push_ok;
use crate::seat::CellModel;
use crate::seat::Seat;
use crate::session::session_types;
use crate::session::Session;
use crate::types::ActionId;
use crate::types::TypeError;
use crate::types::TypeTag;
use crate::types::Value;

verus! {

/// True when the filter-source table `s` has an entry keyed by `a`.
pub open spec fn fsq_has(s: Seq<(ActionId, usize)>, a: ActionId) -> bool {
    exists|i: int| 0 <= i < s.len() && (#[trigger] s[i]).0 == a
}

/// The index in `s` of the entry keyed by `a`; unique when keys are
/// distinct.
pub open spec fn fsq_idx(s: Seq<(ActionId, usize)>, a: ActionId) -> int {
    choose|i: int| 0 <= i < s.len() && (#[trigger] s[i]).0 == a
}

/// The filter index the table `s` assigns to `a`, if any.
pub open spec fn fsq_lookup(s: Seq<(ActionId, usize)>, a: ActionId) -> Option<int> {
    if fsq_has(s, a) {
        Some(s[fsq_idx(s, a)].1 as int)
    } else {
        None
    }
}

/// One row of the routing table: the actions bound to one input, in the
/// order they were bound.
pub struct BindingRow {
    pub input: Input,
    pub actions: Vec<ActionId>,
}

/// Mathematical model of one routing-table row.
pub struct RowModel {
    pub input: InputModel,
    pub actions: Seq<ActionId>,
}

impl View for BindingRow {
    type V = RowModel;

    open spec fn view(&self) -> RowModel {
        RowModel { input: self.input@, actions: self.actions@ }
    }
}

/// A mapping of inputs to actions, together with the filter graph.
pub struct Bindings {
    /// The routing table, one row per bound input.
    pub rows: Vec<BindingRow>,
    /// The filters, in the order they were added.
    pub filters: Vec<Filter>,
    /// Maps a source action to the index in `filters` of the filter that
    /// consumes it; at most one filter consumes any action, and a later
    /// added filter displaces an earlier one on a shared source.
    pub filter_sources: Vec<(ActionId, usize)>,
    /// Snapshot of the type table of the session these bindings were built
    /// against: the payload type of each action, by identifier.
    pub types: Ghost<Seq<TypeTag>>,
}

impl Bindings {
    /// The type table these bindings were built against.
    pub open spec fn type_table(self) -> Seq<TypeTag> {
        self.types@
    }

    /// True when some row is keyed by input `im`.
    pub open spec fn has_row(self, im: InputModel) -> bool {
        exists|i: int| 0 <= i < self.rows@.len() && (#[trigger] self.rows@[i])@.input == im
    }

    /// The index of the row keyed by input `im`; unique when well-formed.
    pub open spec fn row_idx(self, im: InputModel) -> int {
        choose|i: int| 0 <= i < self.rows@.len() && (#[trigger] self.rows@[i])@.input == im
    }

    /// The actions bound to input `im`, in binding order; empty when no
    /// binding exists.
    pub open spec fn bound(self, im: InputModel) -> Seq<ActionId> {
        if self.has_row(im) {
            self.rows@[self.row_idx(im)]@.actions
        } else {
            Seq::<ActionId>::empty()
        }
    }

    /// True when some filter consumes `a` as a source.
    pub open spec fn fs_has(self, a: ActionId) -> bool {
        fsq_has(self.filter_sources@, a)
    }

    /// The index of the filter consuming `a`, if any.
    pub open spec fn filter_for(self, a: ActionId) -> Option<int> {
        fsq_lookup(self.filter_sources@, a)
    }

    /// The seat state after propagation settles a change to `a` in a
    /// single-step graph: the consuming filter's recomputation, or no
    /// change when no filter consumes `a`.
    pub open spec fn step_model(self, m: Map<int, CellModel>, a: ActionId) -> Map<int, CellModel> {
        match self.filter_for(a) {
            Some(fi) => self.filters@[fi].apply_model(m),
            None => m,
        }
    }

    /// The seat state after one `handle` call delivers `v` to `actions` in
    /// order, on a single-step graph: each delivery pushes `v` and then
    /// lets the consuming filter, if any, recompute.
    pub open spec fn cascade(self, m: Map<int, CellModel>, actions: Seq<ActionId>, v: Value) -> Map<
        int,
        CellModel,
    >
        decreases actions.len(),
    {
        if actions.len() == 0 {
            m
        } else {
            self.cascade(
                self.step_model(push_model(m, actions[0], v), actions[0]),
                actions.drop_first(),
                v,
            )
        }
    }

    /// The seat state after the propagation work list runs to completion:
    /// items are taken from the end of `dirty`; an item some filter
    /// consumes triggers, while the budget lasts, that filter's
    /// recomputation and enqueues its targets. The budget bounds the
    /// number of recomputations, a defensive guard for cyclic graphs.
    pub open spec fn worklist_model(
        self,
        m: Map<int, CellModel>,
        dirty: Seq<ActionId>,
        budget: nat,
    ) -> Map<int, CellModel>
        decreases budget * 2 + dirty.len(),
    {
        if dirty.len() == 0 {
            m
        } else {
            let a = dirty.last();
            let rest = dirty.drop_last();
            match self.filter_for(a) {
                Some(fi) => {
                    if budget > 0 && 0 <= fi < self.filters@.len() {
                        match self.filters@[fi] {
                            Filter::DPad(d) => self.worklist_model(
                                push_model(m, d.target.id, d.output(m)),
                                rest.push(d.target.id),
                                (budget - 1) as nat,
                            ),
                        }
                    } else {
                        self.worklist_model(m, rest, budget)
                    }
                },
                None => self.worklist_model(m, rest, budget),
            }
        }
    }

    /// The seat state after one `handle` call delivers `v` to `actions`
    /// in order: each delivery pushes `v` and then runs propagation from
    /// the delivered action with a full budget.
    pub open spec fn deliver_model(
        self,
        m: Map<int, CellModel>,
        actions: Seq<ActionId>,
        v: Value,
    ) -> Map<int, CellModel>
        decreases actions.len(),
    {
        if actions.len() == 0 {
            m
        } else {
            self.deliver_model(
                self.worklist_model(
                    push_model(m, actions[0], v),
                    seq![actions[0]],
                    self.filters@.len() as nat,
                ),
                actions.drop_first(),
                v,
            )
        }
    }

    /// True when no filter's target feeds another filter: propagation from
    /// any action settles after at most one filter application.
    pub open spec fn single_step(self) -> bool {
        forall|fi: int, j: int|
            0 <= fi < self.filters@.len() && 0 <= j < self.filters@[fi].spec_targets().len()
                ==> !self.fs_has(#[trigger] self.filters@[fi].spec_targets()[j])
    }

    /// Well-formedness: rows are keyed by distinct inputs; every recorded
    /// action and every filter agrees with the type table; filter-source
    /// entries are unique and point at filters that list them as sources.
    pub open spec fn wf(self) -> bool {
        &&& forall|i: int, j: int|
            0 <= i < j < self.rows@.len() ==> (#[trigger] self.rows@[i])@.input != (
            #[trigger] self.rows@[j])@.input
        &&& forall|i: int, k: int|
            0 <= i < self.rows@.len() && 0 <= k < self.rows@[i]@.actions.len() ==> ({
                let a = #[trigger] self.rows@[i]@.actions[k];
                a.0 < self.types@.len() && self.types@[a.0 as int] == self.rows@[i]@.input.tag
            })
        &&& forall|fi: int|
            0 <= fi < self.filters@.len() ==> (#[trigger] self.filters@[fi]).wf()
                && self.filters@[fi].types_ok(self.types@)
        &&& forall|i: int, j: int|
            0 <= i < j < self.filter_sources@.len() ==> (#[trigger] self.filter_sources@[i]).0 != (
            #[trigger] self.filter_sources@[j]).0
        &&& forall|i: int|
            0 <= i < self.filter_sources@.len() ==> ({
                let e = #[trigger] self.filter_sources@[i];
                e.1 < self.filters@.len() && self.filters@[e.1 as int].spec_sources().contains(e.0)
            })
        &&& self.types@.len() <= u32::MAX
    }

    /// True when `session` is a later state of the session these bindings
    /// were built against: it defines at least the actions of the snapshot,
    /// with the same types.
    pub open spec fn session_matches(self, session: Session) -> bool {
        &&& self.types@.len() <= session@.len()
        &&& forall|i: int| 0 <= i < self.types@.len() ==> self.types@[i] == session@[i].tag
    }

    /// True when every cell of seat state `m` that the type table covers
    /// carries the type the table declares.
    pub open spec fn seat_ok(self, m: Map<int, CellModel>) -> bool {
        forall|id: int|
            m.dom().contains(id) && 0 <= id < self.types@.len() ==> (#[trigger] m[id]).tag()
                == self.types@[id]
    }

    /// Create an empty set of bindings.
    pub fn new() -> (r: Bindings)
        ensures
            r.wf(),
            r.rows@ == Seq::<BindingRow>::empty(),
            r.filters@ == Seq::<Filter>::empty(),
            r.filter_sources@ == Seq::<(ActionId, usize)>::empty(),
            r.type_table() == Seq::<TypeTag>::empty(),
    {
        Bindings {
            rows: Vec::new(),
            filters: Vec::new(),
            filter_sources: Vec::new(),
            types: Ghost(Seq::empty()),
        }
    }

    /// Introduce a new binding from `input` to `action`.
    ///
    /// Verifies, once and for all, that `input`'s payload type equals the
    /// action's declared type; on success the action is appended to the
    /// actions bound to `input`, and on mismatch a [`TypeError`] is
    /// returned and nothing changes. All actions must come from the one
    /// session these bindings are defined against.
    pub fn bind(&mut self, input: Input, action: ActionId, session: &Session) -> (r: Result<
        (),
        TypeError,
    >)
        requires
            old(self).wf(),
            session.wf(),
            session.defines(action),
            old(self).session_matches(*session),
        ensures
            final(self).wf(),
            final(self).session_matches(*session),
            r is Ok <==> session@[action.0 as int].tag == input@.tag,
            r matches Err(e) ==> e == (TypeError {
                expected: input@.tag,
                actual: session@[action.0 as int].tag,
            }) && final(self).rows@ == old(self).rows@ && final(self).filters@ == old(
                self,
            ).filters@ && final(self).filter_sources@ == old(self).filter_sources@,
            r is Ok ==> ({
                &&& final(self).bound(input@) == old(self).bound(input@).push(action)
                &&& forall|im: InputModel|
                    im != input@ ==> #[trigger] final(self).bound(im) == old(self).bound(im)
                &&& final(self).filters@ == old(self).filters@
                &&& final(self).filter_sources@ == old(self).filter_sources@
                &&& final(self).type_table() == session_types(*session)
            }),
    {
        match session.check_type(action, &input) {
            Result::Err(e) => {
                return Err(e);
            },
            Result::Ok(_) => (),
        }
        proof {
            self.types@ = session_types(*session);
        }
        let ghost mid = *self;
        proof {
            lemma_bound_rows_eq(*old(self), mid);
            assert(self.wf()) by {
                assert forall|i: int, k: int|
                    0 <= i < self.rows@.len() && 0 <= k < self.rows@[i]@.actions.len()
                        implies ({
                    let a = #[trigger] self.rows@[i]@.actions[k];
                    a.0 < self.types@.len() && self.types@[a.0 as int] == self.rows@[i]@.input.tag
                }) by {
                    assert(old(self).rows@[i]@.actions[k].0 < old(self).types@.len());
                }
                assert forall|fi: int|
                    0 <= fi < self.filters@.len() implies (#[trigger] self.filters@[fi]).wf()
                        && self.filters@[fi].types_ok(self.types@) by {
                    assert(old(self).filters@[fi].types_ok(old(self).types@));
                }
            }
        }
        let n = self.rows.len();
        let mut i: usize = 0;
        while i < n
            invariant
                i <= n,
                n == self.rows@.len(),
                *self == mid,
                mid.wf(),
                mid.types@ == session_types(*session),
                session.wf(),
                session.defines(action),
                session@[action.0 as int].tag == input@.tag,
                mid.rows@ == old(self).rows@,
                mid.filters@ == old(self).filters@,
                mid.filter_sources@ == old(self).filter_sources@,
                forall|im: InputModel| #[trigger] old(self).bound(im) == mid.bound(im),
                forall|j: int| 0 <= j < i ==> (#[trigger] self.rows@[j])@.input != input@,
            decreases n - i,
        {
            let hit = self.rows[i].input == input;
            if hit {
                proof {
                    assert(self.rows@[i as int]@.input == input@);
                    assert(self.has_row(input@));
                    lemma_row_idx_unique(*self, i as int, input@);
                }
                let ghost pre = *self;
                proof {
                    assert(pre.types@.len() == session@.len());
                    assert(pre.types@[action.0 as int] == session@[action.0 as int].tag);
                }
                let row = &mut self.rows[i];
                row.actions.push(action);
                proof {
                    assert(self.rows@.len() == pre.rows@.len());
                    assert(forall|j: int|
                        0 <= j < self.rows@.len() && j != i ==> self.rows@[j] == pre.rows@[j]);
                    assert(self.rows@[i as int]@.input == input@);
                    assert(self.rows@[i as int]@.actions == pre.rows@[i as int]@.actions.push(
                        action,
                    ));
                    lemma_bind_update_effect(pre, *self, i as int, input@, action);
                    assert(forall|im: InputModel|
                        im != input@ ==> #[trigger] self.bound(im) == old(self).bound(im));
                }
                return Ok(());
            }
            i = i + 1;
        }
        let ghost pre = *self;
        self.rows.push(BindingRow { input, actions: vec![action] });
        proof {
            assert(!pre.has_row(input@)) by {
                if pre.has_row(input@) {
                    let j = pre.row_idx(input@);
                    assert(pre.rows@[j]@.input == input@);
                }
            }
            assert(pre.types@.len() == session@.len());
            assert(pre.types@[action.0 as int] == session@[action.0 as int].tag);
            assert(self.rows@[pre.rows@.len() as int]@.actions =~= seq![action]);
            lemma_bind_append_effect(pre, *self, input@, action);
        }
        Ok(())
    }

    /// Add a filter to the filter graph.
    ///
    /// Each of the filter's source actions is routed to it; a source shared
    /// with an earlier filter is taken over by the new one. The filter's
    /// actions must come from the one session these bindings are defined
    /// against.
    pub fn add_filter(&mut self, filter: Filter, session: &Session)
        requires
            old(self).wf(),
            session.wf(),
            old(self).session_matches(*session),
            filter.wf(),
            filter.types_ok(session_types(*session)),
        ensures
            final(self).wf(),
            final(self).session_matches(*session),
            final(self).rows@ == old(self).rows@,
            forall|im: InputModel| #[trigger] final(self).bound(im) == old(self).bound(im),
            final(self).filters@ == old(self).filters@.push(filter),
            final(self).type_table() == session_types(*session),
            forall|a: ActionId|
                filter.spec_sources().contains(a) ==> #[trigger] final(self).filter_for(a) == Some(
                    old(self).filters@.len() as int,
                ),
            forall|a: ActionId|
                !filter.spec_sources().contains(a) ==> #[trigger] final(self).filter_for(a) == old(
                    self,
                ).filter_for(a),
    {
        proof {
            self.types@ = session_types(*session);
            lemma_bound_rows_eq(*old(self), *self);
            assert forall|i: int, k: int|
                0 <= i < self.rows@.len() && 0 <= k < self.rows@[i]@.actions.len() implies ({
                let a = #[trigger] self.rows@[i]@.actions[k];
                a.0 < self.types@.len() && self.types@[a.0 as int] == self.rows@[i]@.input.tag
            }) by {
                assert(old(self).rows@[i]@.actions[k].0 < old(self).types@.len());
            }
            assert forall|fi: int|
                0 <= fi < self.filters@.len() implies (#[trigger] self.filters@[fi]).wf()
                    && self.filters@[fi].types_ok(self.types@) by {
                assert(old(self).filters@[fi].types_ok(old(self).types@));
            }
        }
        let srcs = filter.source_actions();
        let ghost f = filter;
        let idx = self.filters.len();
        self.filters.push(filter);
        let ghost mid = *self;
        proof {
            assert forall|i: int|
                0 <= i < self.filter_sources@.len() implies ({
                let e = #[trigger] self.filter_sources@[i];
                e.1 < self.filters@.len() && self.filters@[e.1 as int].spec_sources().contains(e.0)
            }) by {
                let e = self.filter_sources@[i];
                assert(old(self).filters@[e.1 as int].spec_sources().contains(e.0));
                assert(self.filters@[e.1 as int] == old(self).filters@[e.1 as int]);
            }
        }
        let n = srcs.len();
        let mut k: usize = 0;
        while k < n
            invariant
                k <= n,
                n == srcs@.len(),
                srcs@ == f.spec_sources(),
                f.wf(),
                idx < self.filters@.len(),
                self.rows@ == mid.rows@,
                self.filters@ == mid.filters@,
                self.types@ == mid.types@,
                self.filters@[idx as int] == f,
                forall|i: int, j: int|
                    0 <= i < j < self.filter_sources@.len() ==> (
                    #[trigger] self.filter_sources@[i]).0 != (#[trigger] self.filter_sources@[j]).0,
                forall|i: int|
                    0 <= i < self.filter_sources@.len() ==> ({
                        let e = #[trigger] self.filter_sources@[i];
                        e.1 < self.filters@.len() && self.filters@[e.1 as int].spec_sources()
                            .contains(e.0)
                    }),
                forall|a: ActionId|
                    srcs@.take(k as int).contains(a) ==> #[trigger] fsq_lookup(
                        self.filter_sources@,
                        a,
                    ) == Some(idx as int),
                forall|a: ActionId|
                    !srcs@.take(k as int).contains(a) ==> #[trigger] fsq_lookup(
                        self.filter_sources@,
                        a,
                    ) == fsq_lookup(mid.filter_sources@, a),
            decreases n - k,
        {
            let a = srcs[k];
            let ghost pre_fs = self.filter_sources@;
            fs_set(&mut self.filter_sources, a, idx);
            proof {
                assert(srcs@.take(k as int + 1) =~= srcs@.take(k as int).push(a));
                assert forall|b: ActionId|
                    srcs@.take(k as int + 1).contains(b) implies #[trigger] fsq_lookup(
                    self.filter_sources@,
                    b,
                ) == Some(idx as int) by {
                    if b == a {
                    } else {
                        assert(srcs@.take(k as int).contains(b));
                        assert(fsq_lookup(self.filter_sources@, b) == fsq_lookup(pre_fs, b));
                    }
                }
                assert forall|b: ActionId|
                    !srcs@.take(k as int + 1).contains(b) implies #[trigger] fsq_lookup(
                    self.filter_sources@,
                    b,
                ) == fsq_lookup(mid.filter_sources@, b) by {
                    assert(!srcs@.take(k as int).contains(b));
                    assert(b != a) by {
                        assert(srcs@.take(k as int + 1)[k as int] == a);
                    }
                    assert(fsq_lookup(self.filter_sources@, b) == fsq_lookup(pre_fs, b));
                }
                assert forall|i: int|
                    0 <= i < self.filter_sources@.len() implies ({
                    let e = #[trigger] self.filter_sources@[i];
                    e.1 < self.filters@.len() && self.filters@[e.1 as int].spec_sources().contains(
                        e.0,
                    )
                }) by {
                    let e = self.filter_sources@[i];
                    if e == (a, idx) {
                        assert(f.spec_sources().contains(a)) by {
                            assert(srcs@[k as int] == a);
                        }
                    } else {
                        assert(i < pre_fs.len() && self.filter_sources@[i] == pre_fs[i]);
                    }
                }
            }
            k = k + 1;
        }
        proof {
            assert(srcs@.take(n as int) =~= srcs@);
            assert(self.wf());
            assert forall|a: ActionId|
                f.spec_sources().contains(a) implies #[trigger] self.filter_for(a) == Some(
                idx as int,
            ) by {}
            assert forall|a: ActionId|
                !f.spec_sources().contains(a) implies #[trigger] self.filter_for(a) == old(
                self,
            ).filter_for(a) by {
                assert(fsq_lookup(self.filter_sources@, a) == fsq_lookup(mid.filter_sources@, a));
            }
        }
    }

    /// True when these bindings route the input of source `kind` with
    /// textual form `text` to an action that `session` names `name`.
    pub open spec fn binds_text(
        self,
        session: Session,
        kind: Seq<char>,
        name: Seq<char>,
        text: Seq<char>,
    ) -> bool {
        exists|ri: int, k: int|
            0 <= ri < self.rows@.len() && 0 <= k < self.rows@[ri]@.actions.len()
                && self.rows@[ri]@.input.source == kind && self.rows@[ri]@.input.text == text && 0
                <= (#[trigger] self.rows@[ri]@.actions[k]).0 < session@.len() && session@[self.rows@[ri]@.actions[k].0 as int].name == name
    }

    /// How many of the actions in `s` are named `nm` by `ss`.
    pub open spec fn actions_name_count(s: Seq<ActionId>, ss: Session, nm: Seq<char>) -> nat
        decreases s.len(),
    {
        if s.len() == 0 {
            0
        } else {
            (if 0 <= s[0].0 < ss@.len() && ss@[s[0].0 as int].name == nm {
                1nat
            } else {
                0nat
            }) + Self::actions_name_count(s.drop_first(), ss, nm)
        }
    }

    /// How many times the rows bind the input of source `kind` with
    /// textual form `t` to an action that `ss` names `nm`, counting one
    /// per bound occurrence.
    pub open spec fn rows_name_count(
        rows: Seq<BindingRow>,
        ss: Session,
        kind: Seq<char>,
        nm: Seq<char>,
        t: Seq<char>,
    ) -> nat
        decreases rows.len(),
    {
        if rows.len() == 0 {
            0
        } else {
            (if rows[0]@.input.source == kind && rows[0]@.input.text == t {
                Self::actions_name_count(rows[0]@.actions, ss, nm)
            } else {
                0nat
            }) + Self::rows_name_count(rows.drop_first(), ss, kind, nm, t)
        }
    }

    /// The part of `binds_text` contributed by rows before `ri`, plus the
    /// first `k` actions of row `ri`.
    pub open spec fn binds_text_upto(
        self,
        session: Session,
        kind: Seq<char>,
        name: Seq<char>,
        text: Seq<char>,
        ri: int,
        k: int,
    ) -> bool {
        exists|r: int, j: int|
            (r < ri || (r == ri && j < k)) && 0 <= r < self.rows@.len() && 0 <= j
                < self.rows@[r]@.actions.len() && self.rows@[r]@.input.source == kind
                && self.rows@[r]@.input.text == text && 0 <= (
            #[trigger] self.rows@[r]@.actions[j]).0 < session@.len() && session@[self.rows@[r]@.actions[j].0 as int].name == name
    }

    /// Convert the current set of bindings into serializable form.
    ///
    /// `session` must be the one used to create all actions described in
    /// these bindings. The result is a complete transpose of the routing
    /// table: for each input source the configuration lists, under each
    /// bound action's name, the textual forms of the inputs bound to it —
    /// one occurrence per binding, none lost or invented, with no empty
    /// sections — sorted by action name for determinism; the filters
    /// follow in the order they were added.
    pub fn save(&self, session: &Session) -> (cfg: Config)
        requires
            self.wf(),
            session.wf(),
            self.session_matches(*session),
        ensures
            sources_wf(cfg.sources@),
            sources_nonempty(cfg.sources@),
            forall|kind: Seq<char>, name: Seq<char>, text: Seq<char>|
                #[trigger] config_mentions(cfg.sources@, kind, name, text) <==> self.binds_text(
                    *session,
                    kind,
                    name,
                    text,
                ),
            forall|kind: Seq<char>, name: Seq<char>, text: Seq<char>|
                #[trigger] mention_count(cfg.sources@, kind, name, text)
                    == Bindings::rows_name_count(self.rows@, *session, kind, name, text),
            cfg.filters@.len() == self.filters@.len(),
            forall|fi: int|
                0 <= fi < self.filters@.len() ==> (#[trigger] cfg.filters@[fi]).ty@
                    == self.filters@[fi].spec_kind() && cfg.filters@[fi].targets@.len()
                    == self.filters@[fi].spec_target_names(*session).len() && (forall|ti: int|
                    0 <= ti < cfg.filters@[fi].targets@.len() ==> (
                    #[trigger] cfg.filters@[fi].targets@[ti])@ == self.filters@[fi].spec_target_names(*session)[ti]),
    {
        let mut sources: Vec<SourceConfig> = Vec::new();
        let nr = self.rows.len();
        let mut ri: usize = 0;
        while ri < nr
            invariant
                ri <= nr,
                nr == self.rows@.len(),
                self.wf(),
                session.wf(),
                self.session_matches(*session),
                sources_wf(sources@),
                sources_nonempty(sources@),
                forall|kind: Seq<char>, name: Seq<char>, text: Seq<char>|
                    #[trigger] config_mentions(sources@, kind, name, text)
                        <==> self.binds_text_upto(*session, kind, name, text, ri as int, 0),
                forall|kind: Seq<char>, name: Seq<char>, text: Seq<char>|
                    #[trigger] mention_count(sources@, kind, name, text)
                        == Bindings::rows_name_count(
                        self.rows@.take(ri as int),
                        *session,
                        kind,
                        name,
                        text,
                    ),
            decreases nr - ri,
        {
            let na = self.rows[ri].actions.len();
            let mut k: usize = 0;
            while k < na
                invariant
                    k <= na,
                    ri < nr,
                    nr == self.rows@.len(),
                    na == self.rows@[ri as int]@.actions.len(),
                    self.wf(),
                    session.wf(),
                    self.session_matches(*session),
                    sources_wf(sources@),
                    sources_nonempty(sources@),
                    forall|kind: Seq<char>, name: Seq<char>, text: Seq<char>|
                        #[trigger] config_mentions(sources@, kind, name, text)
                            <==> self.binds_text_upto(
                            *session,
                            kind,
                            name,
                            text,
                            ri as int,
                            k as int,
                        ),
                    forall|kind: Seq<char>, name: Seq<char>, text: Seq<char>|
                        #[trigger] mention_count(sources@, kind, name, text)
                            == Bindings::rows_name_count(
                            self.rows@.take(ri as int),
                            *session,
                            kind,
                            name,
                            text,
                        ) + (if self.rows@[ri as int]@.input.source == kind
                            && self.rows@[ri as int]@.input.text == text {
                            Bindings::actions_name_count(
                                self.rows@[ri as int]@.actions.take(k as int),
                                *session,
                                name,
                            )
                        } else {
                            0nat
                        }),
                decreases na - k,
            {
                let a = self.rows[ri].actions[k];
                proof {
                    assert(a.0 < self.types@.len());
                    assert(a.0 < session@.len());
                }
                let name: String = session.action_name(a).to_owned();
                let ghost pre_sources = sources@;
                add_text(&mut sources, &self.rows[ri].input.source, name, &self.rows[ri].input.text);
                proof {
                    self.lemma_binds_upto_step(*session, ri as int, k as int);
                    assert(self.rows@[ri as int]@.actions.take(k as int + 1)
                        =~= self.rows@[ri as int]@.actions.take(k as int).push(a));
                    assert forall|kind: Seq<char>, nm: Seq<char>, text: Seq<char>|
                        #[trigger] mention_count(sources@, kind, nm, text)
                            == Bindings::rows_name_count(
                            self.rows@.take(ri as int),
                            *session,
                            kind,
                            nm,
                            text,
                        ) + (if self.rows@[ri as int]@.input.source == kind
                            && self.rows@[ri as int]@.input.text == text {
                            Bindings::actions_name_count(
                                self.rows@[ri as int]@.actions.take(k as int + 1),
                                *session,
                                nm,
                            )
                        } else {
                            0nat
                        }) by {
                        lemma_actions_count_snoc(
                            self.rows@[ri as int]@.actions.take(k as int),
                            a,
                            *session,
                            nm,
                        );
                    }
                    assert forall|kind: Seq<char>, nm: Seq<char>, text: Seq<char>|
                        #[trigger] config_mentions(sources@, kind, nm, text)
                            <==> self.binds_text_upto(
                        *session,
                        kind,
                        nm,
                        text,
                        ri as int,
                        k as int + 1,
                    ) by {
                        assert(config_mentions(sources@, kind, nm, text) <==> (config_mentions(
                            pre_sources,
                            kind,
                            nm,
                            text,
                        ) || (kind == self.rows@[ri as int]@.input.source && nm == session@[a.0 as int].name && text == self.rows@[ri as int]@.input.text)));
                    }
                }
                k = k + 1;
            }
            proof {
                self.lemma_binds_upto_row(*session, ri as int);
                assert(self.rows@.take(ri as int + 1) =~= self.rows@.take(ri as int).push(
                    self.rows@[ri as int],
                ));
                assert(self.rows@[ri as int]@.actions.take(na as int)
                    =~= self.rows@[ri as int]@.actions);
                assert forall|kind: Seq<char>, nm: Seq<char>, text: Seq<char>|
                    #[trigger] mention_count(sources@, kind, nm, text)
                        == Bindings::rows_name_count(
                        self.rows@.take(ri as int + 1),
                        *session,
                        kind,
                        nm,
                        text,
                    ) by {
                    lemma_rows_count_snoc(
                        self.rows@.take(ri as int),
                        self.rows@[ri as int],
                        *session,
                        kind,
                        nm,
                        text,
                    );
                }
            }
            ri = ri + 1;
        }
        proof {
            assert(self.rows@.take(nr as int) =~= self.rows@);
        }
        let mut fcfgs: Vec<FilterConfig> = Vec::new();
        let nf = self.filters.len();
        let mut fi: usize = 0;
        while fi < nf
            invariant
                fi <= nf,
                nf == self.filters@.len(),
                self.wf(),
                session.wf(),
                self.session_matches(*session),
                fcfgs@.len() == fi,
                forall|j: int|
                    0 <= j < fi ==> (#[trigger] fcfgs@[j]).ty@ == self.filters@[j].spec_kind()
                        && fcfgs@[j].targets@.len() == self.filters@[j].spec_target_names(
                        *session,
                    ).len() && (forall|ti: int|
                        0 <= ti < fcfgs@[j].targets@.len() ==> (#[trigger] fcfgs@[j].targets@[ti])@
                            == self.filters@[j].spec_target_names(*session)[ti]),
            decreases nf - fi,
        {
            proof {
                assert(self.filters@[fi as int].wf() && self.filters@[fi as int].types_ok(
                    self.types@,
                ));
                assert(self.filters@[fi as int].save_ok(*session)) by {
                    match self.filters@[fi as int] {
                        Filter::DPad(d) => {
                            assert(d.target.id.0 < self.types@.len());
                        },
                    }
                }
            }
            let fc = self.filters[fi].save(session);
            fcfgs.push(fc);
            fi = fi + 1;
        }
        proof {
            self.lemma_binds_upto_all(*session);
        }
        Config { sources, filters: fcfgs }
    }

    /// One more action of row `ri` extends the partial binding relation by
    /// exactly the triple that action contributes.
    proof fn lemma_binds_upto_step(self, session: Session, ri: int, k: int)
        requires
            0 <= ri < self.rows@.len(),
            0 <= k < self.rows@[ri]@.actions.len(),
            0 <= self.rows@[ri]@.actions[k].0 < session@.len(),
        ensures
            forall|kind: Seq<char>, name: Seq<char>, text: Seq<char>|
                #[trigger] self.binds_text_upto(session, kind, name, text, ri, k + 1) <==> (
                self.binds_text_upto(session, kind, name, text, ri, k) || (kind
                    == self.rows@[ri]@.input.source && name == session@[self.rows@[ri]@.actions[k].0 as int].name && text == self.rows@[ri]@.input.text)),
    {
        assert forall|kind: Seq<char>, name: Seq<char>, text: Seq<char>|
            #[trigger] self.binds_text_upto(session, kind, name, text, ri, k + 1) implies (
        self.binds_text_upto(session, kind, name, text, ri, k) || (kind
            == self.rows@[ri]@.input.source && name == session@[self.rows@[ri]@.actions[k].0 as int].name && text == self.rows@[ri]@.input.text)) by {
            let (r, j): (int, int) = choose|r: int, j: int|
                (r < ri || (r == ri && j < k + 1)) && 0 <= r < self.rows@.len() && 0 <= j
                    < self.rows@[r]@.actions.len() && self.rows@[r]@.input.source == kind
                    && self.rows@[r]@.input.text == text && 0 <= (
                #[trigger] self.rows@[r]@.actions[j]).0 < session@.len() && session@[self.rows@[r]@.actions[j].0 as int].name == name;
            if r == ri && j == k {
            } else {
                assert(self.binds_text_upto(session, kind, name, text, ri, k));
            }
        }
        assert forall|kind: Seq<char>, name: Seq<char>, text: Seq<char>|
            (self.binds_text_upto(session, kind, name, text, ri, k) || (kind
                == self.rows@[ri]@.input.source && name == session@[self.rows@[ri]@.actions[k].0 as int].name && text == self.rows@[ri]@.input.text)) implies #[trigger] self.binds_text_upto(
            session,
            kind,
            name,
            text,
            ri,
            k + 1,
        ) by {
            if self.binds_text_upto(session, kind, name, text, ri, k) {
                let (r, j): (int, int) = choose|r: int, j: int|
                    (r < ri || (r == ri && j < k)) && 0 <= r < self.rows@.len() && 0 <= j
                        < self.rows@[r]@.actions.len() && self.rows@[r]@.input.source == kind
                        && self.rows@[r]@.input.text == text && 0 <= (
                    #[trigger] self.rows@[r]@.actions[j]).0 < session@.len() && session@[self.rows@[r]@.actions[j].0 as int].name == name;
                assert((r < ri || (r == ri && j < k + 1)));
            } else {
                let a0 = self.rows@[ri]@.actions[k];
                assert((ri < ri || (ri == ri && k < k + 1)) && 0 <= ri < self.rows@.len() && 0 <= k
                    < self.rows@[ri]@.actions.len() && self.rows@[ri]@.input.source == kind
                    && self.rows@[ri]@.input.text == text && 0 <= (
                #[trigger] self.rows@[ri]@.actions[k]).0 < session@.len() && session@[self.rows@[ri]@.actions[k].0 as int].name == name);
            }
        }
    }

    /// Finishing a row moves the partial binding relation to the start of
    /// the next row.
    proof fn lemma_binds_upto_row(self, session: Session, ri: int)
        requires
            0 <= ri < self.rows@.len(),
        ensures
            forall|kind: Seq<char>, name: Seq<char>, text: Seq<char>|
                #[trigger] self.binds_text_upto(
                    session,
                    kind,
                    name,
                    text,
                    ri,
                    self.rows@[ri]@.actions.len() as int,
                ) <==> self.binds_text_upto(session, kind, name, text, ri + 1, 0),
    {
        let na = self.rows@[ri]@.actions.len() as int;
        assert forall|kind: Seq<char>, name: Seq<char>, text: Seq<char>|
            #[trigger] self.binds_text_upto(session, kind, name, text, ri, na)
                <==> self.binds_text_upto(session, kind, name, text, ri + 1, 0) by {
            if self.binds_text_upto(session, kind, name, text, ri, na) {
                let (r, j): (int, int) = choose|r: int, j: int|
                    (r < ri || (r == ri && j < na)) && 0 <= r < self.rows@.len() && 0 <= j
                        < self.rows@[r]@.actions.len() && self.rows@[r]@.input.source == kind
                        && self.rows@[r]@.input.text == text && 0 <= (
                    #[trigger] self.rows@[r]@.actions[j]).0 < session@.len() && session@[self.rows@[r]@.actions[j].0 as int].name == name;
                assert(r < ri + 1);
                assert(self.binds_text_upto(session, kind, name, text, ri + 1, 0));
            }
            if self.binds_text_upto(session, kind, name, text, ri + 1, 0) {
                let (r, j): (int, int) = choose|r: int, j: int|
                    (r < ri + 1 || (r == ri + 1 && j < 0)) && 0 <= r < self.rows@.len() && 0 <= j
                        < self.rows@[r]@.actions.len() && self.rows@[r]@.input.source == kind
                        && self.rows@[r]@.input.text == text && 0 <= (
                    #[trigger] self.rows@[r]@.actions[j]).0 < session@.len() && session@[self.rows@[r]@.actions[j].0 as int].name == name;
                assert(r < ri || (r == ri && j < na));
                assert(self.binds_text_upto(session, kind, name, text, ri, na));
            }
        }
    }

    /// Past the last row the partial binding relation is the whole one.
    proof fn lemma_binds_upto_all(self, session: Session)
        ensures
            forall|kind: Seq<char>, name: Seq<char>, text: Seq<char>|
                #[trigger] self.binds_text_upto(
                    session,
                    kind,
                    name,
                    text,
                    self.rows@.len() as int,
                    0,
                ) <==> self.binds_text(session, kind, name, text),
    {
        let nr = self.rows@.len() as int;
        assert forall|kind: Seq<char>, name: Seq<char>, text: Seq<char>|
            #[trigger] self.binds_text_upto(session, kind, name, text, nr, 0) <==> self.binds_text(
                session,
                kind,
                name,
                text,
            ) by {
            if self.binds_text_upto(session, kind, name, text, nr, 0) {
                let (r, j): (int, int) = choose|r: int, j: int|
                    (r < nr || (r == nr && j < 0)) && 0 <= r < self.rows@.len() && 0 <= j
                        < self.rows@[r]@.actions.len() && self.rows@[r]@.input.source == kind
                        && self.rows@[r]@.input.text == text && 0 <= (
                    #[trigger] self.rows@[r]@.actions[j]).0 < session@.len() && session@[self.rows@[r]@.actions[j].0 as int].name == name;
                assert(self.binds_text(session, kind, name, text));
            }
            if self.binds_text(session, kind, name, text) {
                let (r, j): (int, int) = choose|r: int, j: int|
                    0 <= r < self.rows@.len() && 0 <= j < self.rows@[r]@.actions.len()
                        && self.rows@[r]@.input.source == kind && self.rows@[r]@.input.text == text
                        && 0 <= (#[trigger] self.rows@[r]@.actions[j]).0 < session@.len()
                        && session@[self.rows@[r]@.actions[j].0 as int].name == name;
                assert(r < nr);
                assert(self.binds_text_upto(session, kind, name, text, nr, 0));
            }
        }
    }

    /// Find the routing-table row for `input`, if any.
    fn find_row(&self, input: &Input) -> (r: Option<usize>)
        requires
            self.wf(),
        ensures
            r is Some <==> self.has_row(input@),
            r matches Some(i) ==> i < self.rows@.len() && i as int == self.row_idx(input@)
                && self.rows@[i as int]@.input == input@,
    {
        let n = self.rows.len();
        let mut i: usize = 0;
        while i < n
            invariant
                i <= n,
                n == self.rows@.len(),
                self.wf(),
                forall|j: int| 0 <= j < i ==> (#[trigger] self.rows@[j])@.input != input@,
            decreases n - i,
        {
            let hit = self.rows[i].input == *input;
            if hit {
                proof {
                    lemma_row_idx_unique(*self, i as int, input@);
                }
                return Some(i);
            }
            i = i + 1;
        }
        proof {
            if self.has_row(input@) {
                let j = self.row_idx(input@);
                assert(self.rows@[j]@.input == input@);
            }
        }
        None
    }

    /// Look up the filter consuming `a`, if any.
    fn lookup_filter(&self, a: ActionId) -> (r: Option<usize>)
        requires
            self.wf(),
        ensures
            r is Some <==> self.fs_has(a),
            r matches Some(fi) ==> self.filter_for(a) == Some(fi as int) && fi
                < self.filters@.len(),
    {
        let n = self.filter_sources.len();
        let mut i: usize = 0;
        while i < n
            invariant
                i <= n,
                n == self.filter_sources@.len(),
                self.wf(),
                forall|j: int| 0 <= j < i ==> (#[trigger] self.filter_sources@[j]).0 != a,
            decreases n - i,
        {
            let e = self.filter_sources[i];
            if e.0 == a {
                proof {
                    lemma_fsq_idx_unique(self.filter_sources@, i as int, a);
                }
                return Some(e.1);
            }
            i = i + 1;
        }
        proof {
            if self.fs_has(a) {
                let j = fsq_idx(self.filter_sources@, a);
                assert(self.filter_sources@[j].0 == a);
            }
        }
        None
    }

    /// Update actions populated from filters dependent on `action` in
    /// `seat`, walking the dependency graph with a work list.
    ///
    /// The walk is bounded by the number of filters, a defensive guard
    /// against cyclic filter graphs, which no construction path currently
    /// rejects; on a graph whose filter targets feed no further filter the
    /// bound is never reached.
    fn propagate(&self, action: ActionId, seat: &mut Seat)
        requires
            self.wf(),
            old(seat).wf(),
            self.seat_ok(old(seat)@),
        ensures
            final(seat).wf(),
            self.seat_ok(final(seat)@),
            final(seat)@ == self.worklist_model(
                old(seat)@,
                seq![action],
                self.filters@.len() as nat,
            ),
            self.filter_for(action) is None ==> final(seat)@ == old(seat)@,
            self.single_step() ==> final(seat)@ == self.step_model(old(seat)@, action),
    {
        let mut dirty: Vec<ActionId> = Vec::new();
        dirty.push(action);
        let mut budget: usize = self.filters.len();
        proof {
            assert(dirty@ =~= seq![action]);
        }
        while dirty.len() > 0
            invariant
                self.wf(),
                seat.wf(),
                self.seat_ok(seat@),
                budget <= self.filters@.len(),
                self.worklist_model(seat@, dirty@, budget as nat) == self.worklist_model(
                    old(seat)@,
                    seq![action],
                    self.filters@.len() as nat,
                ),
                self.filter_for(action) is None ==> seat@ == old(seat)@ && (forall|j: int|
                    0 <= j < dirty@.len() ==> self.filter_for(#[trigger] dirty@[j]) is None),
                self.single_step() ==> ((seat@ == old(seat)@ && dirty@ == seq![action] && budget
                    == self.filters@.len()) || (seat@ == self.step_model(old(seat)@, action) && (
                forall|j: int|
                    0 <= j < dirty@.len() ==> self.filter_for(#[trigger] dirty@[j]) is None))),
            decreases budget * 2 + dirty@.len(),
        {
            let ghost g_m = seat@;
            let ghost g_dirty = dirty@;
            let ghost g_budget = budget as nat;
            let a = match dirty.pop() {
                Option::Some(x) => x,
                Option::None => {
                    proof {
                        assert(false);
                    }
                    action
                },
            };
            proof {
                assert(a == g_dirty.last());
                assert(dirty@ =~= g_dirty.drop_last());
            }
            match self.lookup_filter(a) {
                Option::None => {
                    proof {
                        assert(self.worklist_model(g_m, g_dirty, g_budget)
                            == self.worklist_model(seat@, dirty@, budget as nat));
                    }
                },
                Option::Some(fi) => {
                    if budget > 0 {
                        budget = budget - 1;
                        let ghost pre_m = seat@;
                        proof {
                            lemma_filter_seat_compat(*self, seat@, fi as int);
                        }
                        let flt = &self.filters[fi];
                        flt.apply(seat);
                        proof {
                            lemma_apply_preserves_seat_ok(*self, pre_m, fi as int);
                        }
                        let ts = flt.target_actions();
                        proof {
                            assert(ts@.len() == 1);
                        }
                        let tgt = ts[0];
                        dirty.push(tgt);
                        proof {
                            if self.single_step() {
                                assert(!self.fs_has(self.filters@[fi as int].spec_targets()[0]));
                                assert(self.filter_for(tgt) is None);
                            }
                            match self.filters@[fi as int] {
                                Filter::DPad(d) => {
                                    assert(tgt == d.target.id);
                                    assert(seat@ == push_model(pre_m, d.target.id, d.output(pre_m)));
                                    assert(dirty@ =~= g_dirty.drop_last().push(d.target.id));
                                },
                            }
                            assert(self.worklist_model(g_m, g_dirty, g_budget)
                                == self.worklist_model(seat@, dirty@, budget as nat));
                        }
                    } else {
                        proof {
                            assert(self.worklist_model(g_m, g_dirty, g_budget)
                                == self.worklist_model(seat@, dirty@, budget as nat));
                        }
                    }
                },
            }
        }
        proof {
            assert(self.worklist_model(seat@, dirty@, budget as nat) == seat@);
        }
    }

    /// Change the state of `input` to `data` in `seat`.
    ///
    /// Fails with a [`TypeError`], changing nothing, iff `data`'s type is
    /// not the payload type `input` declares — a caller contract violation.
    /// Otherwise each action bound to `input` receives `data` in binding
    /// order, each delivery followed by filter propagation; an input with
    /// no bindings is a harmless no-op.
    pub fn handle(&self, input: &Input, data: Value, seat: &mut Seat) -> (r: Result<(), TypeError>)
        requires
            self.wf(),
            old(seat).wf(),
            self.seat_ok(old(seat)@),
        ensures
            final(seat).wf(),
            self.seat_ok(final(seat)@),
            r is Ok <==> data.spec_tag() == input@.tag,
            r matches Err(e) ==> final(seat)@ == old(seat)@ && e == (TypeError {
                expected: input@.tag,
                actual: data.spec_tag(),
            }),
            r is Ok ==> final(seat)@ == self.deliver_model(old(seat)@, self.bound(input@), data),
            r is Ok && !self.has_row(input@) ==> final(seat)@ == old(seat)@,
            r is Ok && self.single_step() ==> final(seat)@ == self.cascade(
                old(seat)@,
                self.bound(input@),
                data,
            ),
    {
        if data.tag() != input.tag {
            return Err(TypeError { expected: input.tag, actual: data.tag() });
        }
        let i = match self.find_row(input) {
            Option::Some(i) => i,
            Option::None => {
                proof {
                    assert(self.bound(input@) == Seq::<ActionId>::empty());
                    assert(self.deliver_model(old(seat)@, self.bound(input@), data) == old(seat)@);
                    if self.single_step() {
                        assert(self.cascade(old(seat)@, self.bound(input@), data) == old(seat)@);
                    }
                }
                return Ok(());
            },
        };
        proof {
            assert(self.bound(input@) == self.rows@[i as int]@.actions);
        }
        let ghost bound_seq = self.bound(input@);
        let m = self.rows[i].actions.len();
        let mut k: usize = 0;
        while k < m
            invariant
                k <= m,
                i < self.rows@.len(),
                m == self.rows@[i as int]@.actions.len(),
                self.rows@[i as int]@.input == input@,
                bound_seq == self.rows@[i as int]@.actions,
                bound_seq == self.bound(input@),
                data.spec_tag() == input@.tag,
                self.wf(),
                seat.wf(),
                self.seat_ok(seat@),
                seat@ == self.deliver_model(old(seat)@, bound_seq.take(k as int), data),
                self.single_step() ==> seat@ == self.cascade(
                    old(seat)@,
                    bound_seq.take(k as int),
                    data,
                ),
            decreases m - k,
        {
            let a = self.rows[i].actions[k];
            proof {
                assert(a == bound_seq[k as int]);
                assert(a.0 < self.types@.len() && self.types@[a.0 as int] == input@.tag);
                assert(push_ok(seat@, a, data)) by {
                    if seat@.dom().contains(a.0 as int) {
                        assert(seat@[a.0 as int].tag() == self.types@[a.0 as int]);
                    }
                }
            }
            let ghost pre_push = seat@;
            let res = seat.push(a, data);
            match res {
                Result::Ok(_) => (),
                Result::Err(_) => {
                    proof {
                        assert(false);
                    }
                },
            }
            proof {
                lemma_push_preserves_seat_ok(*self, pre_push, a, data);
            }
            let ghost pre_prop = seat@;
            self.propagate(a, seat);
            proof {
                assert(bound_seq.take(k as int + 1) =~= bound_seq.take(k as int).push(a));
                lemma_deliver_snoc(*self, old(seat)@, bound_seq.take(k as int), a, data);
                assert(seat@ == self.worklist_model(
                    push_model(self.deliver_model(old(seat)@, bound_seq.take(k as int), data), a, data),
                    seq![a],
                    self.filters@.len() as nat,
                ));
                if self.single_step() {
                    assert(seat@ == self.step_model(push_model(
                        self.cascade(old(seat)@, bound_seq.take(k as int), data),
                        a,
                        data,
                    ), a));
                    lemma_cascade_snoc(
                        *self,
                        old(seat)@,
                        bound_seq.take(k as int),
                        a,
                        data,
                    );
                    assert(bound_seq.take(k as int + 1) =~= bound_seq.take(k as int).push(a));
                }
            }
            k = k + 1;
        }
        proof {
            assert(bound_seq.take(m as int) =~= bound_seq);
        }
        Ok(())
    }
}

/// Copy a list of action identifiers.
fn clone_ids(v: &Vec<ActionId>) -> (r: Vec<ActionId>)
    ensures
        r@ == v@,
{
    let n = v.len();
    let mut r: Vec<ActionId> = Vec::new();
    let mut i: usize = 0;
    while i < n
        invariant
            i <= n,
            n == v@.len(),
            r@ == v@.take(i as int),
        decreases n - i,
    {
        r.push(v[i]);
        proof {
            assert(r@ =~= v@.take(i as int + 1));
        }
        i = i + 1;
    }
    proof {
        assert(v@.take(n as int) =~= v@);
    }
    r
}

impl Default for Bindings {
    /// See [`Bindings::new`].
    fn default() -> (r: Bindings)
        ensures
            r.wf(),
            r.rows@ == Seq::<BindingRow>::empty(),
            r.filters@ == Seq::<Filter>::empty(),
            r.filter_sources@ == Seq::<(ActionId, usize)>::empty(),
            r.type_table() == Seq::<TypeTag>::empty(),
    {
        Bindings::new()
    }
}

impl Clone for Bindings {
    /// A cloned set of bindings has the same routing table, filters, and
    /// type table, so it routes and recomputes identically.
    fn clone(&self) -> (r: Bindings)
        ensures
            r.rows@.len() == self.rows@.len(),
            forall|i: int| 0 <= i < self.rows@.len() ==> #[trigger] r.rows@[i]@ == self.rows@[i]@,
            r.filters@ == self.filters@,
            r.filter_sources@ == self.filter_sources@,
            r.type_table() == self.type_table(),
            self.wf() ==> r.wf(),
            self.wf() ==> forall|im: InputModel| #[trigger] r.bound(im) == self.bound(im),
    {
        let nr = self.rows.len();
        let mut rows: Vec<BindingRow> = Vec::new();
        let mut i: usize = 0;
        while i < nr
            invariant
                i <= nr,
                nr == self.rows@.len(),
                rows@.len() == i,
                forall|j: int| 0 <= j < i ==> #[trigger] rows@[j]@ == self.rows@[j]@,
            decreases nr - i,
        {
            let row = &self.rows[i];
            rows.push(BindingRow { input: row.input.duplicate(), actions: clone_ids(&row.actions) });
            i = i + 1;
        }
        let nf = self.filters.len();
        let mut filters: Vec<Filter> = Vec::new();
        let mut k: usize = 0;
        while k < nf
            invariant
                k <= nf,
                nf == self.filters@.len(),
                filters@ == self.filters@.take(k as int),
            decreases nf - k,
        {
            filters.push(self.filters[k]);
            proof {
                assert(filters@ =~= self.filters@.take(k as int + 1));
            }
            k = k + 1;
        }
        let ns = self.filter_sources.len();
        let mut filter_sources: Vec<(ActionId, usize)> = Vec::new();
        let mut p: usize = 0;
        while p < ns
            invariant
                p <= ns,
                ns == self.filter_sources@.len(),
                filter_sources@ == self.filter_sources@.take(p as int),
            decreases ns - p,
        {
            filter_sources.push(self.filter_sources[p]);
            proof {
                assert(filter_sources@ =~= self.filter_sources@.take(p as int + 1));
            }
            p = p + 1;
        }
        let r = Bindings { rows, filters, filter_sources, types: Ghost(self.types@) };
        proof {
            assert(r.filters@ =~= self.filters@);
            assert(r.filter_sources@ =~= self.filter_sources@);
            if self.wf() {
                assert(r.wf()) by {
                    assert forall|a: int, b: int|
                        0 <= a < b < r.rows@.len() implies (#[trigger] r.rows@[a])@.input != (
                    #[trigger] r.rows@[b])@.input by {
                        assert(self.rows@[a]@.input != self.rows@[b]@.input);
                    }
                    assert forall|a: int, b: int|
                        0 <= a < r.rows@.len() && 0 <= b < r.rows@[a]@.actions.len() implies ({
                        let x = #[trigger] r.rows@[a]@.actions[b];
                        x.0 < r.types@.len() && r.types@[x.0 as int] == r.rows@[a]@.input.tag
                    }) by {
                        assert(self.rows@[a]@.actions[b].0 < self.types@.len());
                    }
                }
                assert forall|im: InputModel| #[trigger] r.bound(im) == self.bound(im) by {
                    if self.has_row(im) {
                        let j = self.row_idx(im);
                        assert(self.rows@[j]@.input == im);
                        assert(r.rows@[j]@.input == im);
                        lemma_row_idx_unique(*self, j, im);
                        lemma_row_idx_unique(r, j, im);
                    } else {
                        if r.has_row(im) {
                            let j = r.row_idx(im);
                            assert(r.rows@[j]@.input == im);
                            assert(self.rows@[j]@.input == im);
                            assert(self.has_row(im));
                        }
                    }
                }
            }
        }
        r
    }
}

/// Appending one action raises its name's count by one and no other.
proof fn lemma_actions_count_snoc(s: Seq<ActionId>, x: ActionId, ss: Session, nm: Seq<char>)
    ensures
        Bindings::actions_name_count(s.push(x), ss, nm) == Bindings::actions_name_count(s, ss, nm)
            + (if 0 <= x.0 < ss@.len() && ss@[x.0 as int].name == nm {
            1nat
        } else {
            0nat
        }),
    decreases s.len(),
{
    if s.len() == 0 {
        assert(s.push(x)[0] == x);
        assert(s.push(x).drop_first() =~= Seq::<ActionId>::empty());
        assert(Bindings::actions_name_count(s.push(x).drop_first(), ss, nm) == 0);
    } else {
        assert(s.push(x)[0] == s[0]);
        assert(s.push(x).drop_first() =~= s.drop_first().push(x));
        lemma_actions_count_snoc(s.drop_first(), x, ss, nm);
        assert(Bindings::actions_name_count(s.push(x), ss, nm) == (if 0 <= s[0].0 < ss@.len()
            && ss@[s[0].0 as int].name == nm {
            1nat
        } else {
            0nat
        }) + Bindings::actions_name_count(s.drop_first().push(x), ss, nm));
    }
}

/// Appending one row adds exactly that row's contribution to the count.
proof fn lemma_rows_count_snoc(
    rows: Seq<BindingRow>,
    r: BindingRow,
    ss: Session,
    kind: Seq<char>,
    nm: Seq<char>,
    t: Seq<char>,
)
    ensures
        Bindings::rows_name_count(rows.push(r), ss, kind, nm, t) == Bindings::rows_name_count(
            rows,
            ss,
            kind,
            nm,
            t,
        ) + (if r@.input.source == kind && r@.input.text == t {
            Bindings::actions_name_count(r@.actions, ss, nm)
        } else {
            0nat
        }),
    decreases rows.len(),
{
    if rows.len() == 0 {
        assert(rows.push(r)[0] == r);
        assert(rows.push(r).drop_first() =~= Seq::<BindingRow>::empty());
        assert(Bindings::rows_name_count(rows.push(r).drop_first(), ss, kind, nm, t) == 0);
    } else {
        assert(rows.push(r)[0] == rows[0]);
        assert(rows.push(r).drop_first() =~= rows.drop_first().push(r));
        lemma_rows_count_snoc(rows.drop_first(), r, ss, kind, nm, t);
        assert(Bindings::rows_name_count(rows.push(r), ss, kind, nm, t) == (if rows[0]@.input.source
            == kind && rows[0]@.input.text == t {
            Bindings::actions_name_count(rows[0]@.actions, ss, nm)
        } else {
            0nat
        }) + Bindings::rows_name_count(rows.drop_first().push(r), ss, kind, nm, t));
    }
}

/// In a filter-source table with distinct keys an index holding key `a` is
/// the unique one, so it is the one `fsq_idx` denotes.
proof fn lemma_fsq_idx_unique(s: Seq<(ActionId, usize)>, i: int, a: ActionId)
    requires
        forall|p: int, q: int| 0 <= p < q < s.len() ==> (#[trigger] s[p]).0 != (#[trigger] s[q]).0,
        0 <= i < s.len(),
        s[i].0 == a,
    ensures
        fsq_has(s, a),
        fsq_idx(s, a) == i,
{
    assert(fsq_has(s, a));
    let j = fsq_idx(s, a);
    assert(0 <= j < s.len() && s[j].0 == a);
    if j < i {
        assert(s[j].0 != s[i].0);
    } else if j > i {
        assert(s[i].0 != s[j].0);
    }
}

/// Route `a` to the filter at `idx`: overwrite the existing entry for `a`,
/// or append one.
fn fs_set(fs: &mut Vec<(ActionId, usize)>, a: ActionId, idx: usize)
    requires
        forall|p: int, q: int|
            0 <= p < q < old(fs)@.len() ==> (#[trigger] old(fs)@[p]).0 != (#[trigger] old(fs)@[q]).0,
    ensures
        forall|p: int, q: int|
            0 <= p < q < final(fs)@.len() ==> (#[trigger] final(fs)@[p]).0 != (
            #[trigger] final(fs)@[q]).0,
        fsq_lookup(final(fs)@, a) == Some(idx as int),
        forall|b: ActionId|
            b != a ==> #[trigger] fsq_lookup(final(fs)@, b) == fsq_lookup(old(fs)@, b),
        forall|i: int|
            0 <= i < final(fs)@.len() ==> ((#[trigger] final(fs)@[i]) == (a, idx) || (i < old(
                fs,
            )@.len() && final(fs)@[i] == old(fs)@[i] && old(fs)@[i].0 != a)),
{
    let n = fs.len();
    let mut i: usize = 0;
    while i < n
        invariant
            i <= n,
            n == fs@.len(),
            fs@ == old(fs)@,
            forall|p: int, q: int|
                0 <= p < q < fs@.len() ==> (#[trigger] fs@[p]).0 != (#[trigger] fs@[q]).0,
            forall|j: int| 0 <= j < i ==> (#[trigger] fs@[j]).0 != a,
        decreases n - i,
    {
        let e = fs[i];
        if e.0 == a {
            fs.set(i, (a, idx));
            proof {
                assert(fs@ == old(fs)@.update(i as int, (a, idx)));
                assert forall|p: int, q: int|
                    0 <= p < q < fs@.len() implies (#[trigger] fs@[p]).0 != (
                #[trigger] fs@[q]).0 by {
                    assert(old(fs)@[p].0 != old(fs)@[q].0);
                    if p != i {
                        assert(fs@[p] == old(fs)@[p]);
                    }
                    if q != i {
                        assert(fs@[q] == old(fs)@[q]);
                    }
                }
                lemma_fsq_idx_unique(fs@, i as int, a);
                assert(fsq_lookup(fs@, a) == Some(idx as int));
                assert forall|b: ActionId|
                    b != a implies #[trigger] fsq_lookup(fs@, b) == fsq_lookup(old(fs)@, b) by {
                    if fsq_has(old(fs)@, b) {
                        let p = fsq_idx(old(fs)@, b);
                        assert(old(fs)@[p].0 == b);
                        lemma_fsq_idx_unique(old(fs)@, p, b);
                        assert(p != i);
                        assert(fs@[p].0 == b);
                        lemma_fsq_idx_unique(fs@, p, b);
                    } else {
                        if fsq_has(fs@, b) {
                            let p = fsq_idx(fs@, b);
                            assert(fs@[p].0 == b);
                            assert(p != i);
                            assert(old(fs)@[p].0 == b);
                            assert(fsq_has(old(fs)@, b));
                        }
                    }
                }
            }
            return ;
        }
        i = i + 1;
    }
    let ghost pre = fs@;
    fs.push((a, idx));
    proof {
        assert(!fsq_has(pre, a)) by {
            if fsq_has(pre, a) {
                let j = fsq_idx(pre, a);
                assert(pre[j].0 == a);
            }
        }
        let ni = pre.len() as int;
        assert(fs@[ni] == (a, idx));
        assert forall|p: int, q: int|
            0 <= p < q < fs@.len() implies (#[trigger] fs@[p]).0 != (#[trigger] fs@[q]).0 by {
            if q < ni {
                assert(pre[p].0 != pre[q].0);
            } else {
                assert(fs@[q].0 == a);
                assert(fs@[p] == pre[p]);
            }
        }
        lemma_fsq_idx_unique(fs@, ni, a);
        assert forall|b: ActionId|
            b != a implies #[trigger] fsq_lookup(fs@, b) == fsq_lookup(pre, b) by {
            if fsq_has(pre, b) {
                let p = fsq_idx(pre, b);
                assert(pre[p].0 == b);
                lemma_fsq_idx_unique(pre, p, b);
                assert(fs@[p].0 == b);
                lemma_fsq_idx_unique(fs@, p, b);
            } else {
                if fsq_has(fs@, b) {
                    let p = fsq_idx(fs@, b);
                    assert(fs@[p].0 == b);
                    assert(p != ni);
                    assert(pre[p].0 == b);
                    assert(fsq_has(pre, b));
                }
            }
        }
    }
}

/// A well-formed seat state that agrees with the bindings' type table is
/// compatible with every filter of the bindings.
proof fn lemma_filter_seat_compat(b: Bindings, m: Map<int, CellModel>, fi: int)
    requires
        b.wf(),
        b.seat_ok(m),
        0 <= fi < b.filters@.len(),
    ensures
        b.filters@[fi].seat_compat(m),
{
    let f = b.filters@[fi];
    assert(f.wf() && f.types_ok(b.types@));
    match f {
        Filter::DPad(d) => {
            assert(cell_tag_ok(m, d.up)) by {
                if m.dom().contains(d.up.id.0 as int) {
                    assert(m[d.up.id.0 as int].tag() == b.types@[d.up.id.0 as int]);
                }
            }
            assert(cell_tag_ok(m, d.left)) by {
                if m.dom().contains(d.left.id.0 as int) {
                    assert(m[d.left.id.0 as int].tag() == b.types@[d.left.id.0 as int]);
                }
            }
            assert(cell_tag_ok(m, d.down)) by {
                if m.dom().contains(d.down.id.0 as int) {
                    assert(m[d.down.id.0 as int].tag() == b.types@[d.down.id.0 as int]);
                }
            }
            assert(cell_tag_ok(m, d.right)) by {
                if m.dom().contains(d.right.id.0 as int) {
                    assert(m[d.right.id.0 as int].tag() == b.types@[d.right.id.0 as int]);
                }
            }
            assert(cell_tag_ok(m, d.target)) by {
                if m.dom().contains(d.target.id.0 as int) {
                    assert(m[d.target.id.0 as int].tag() == b.types@[d.target.id.0 as int]);
                }
            }
        },
    }
}

/// Pushing a value of the type the table declares for `a` preserves
/// agreement between a seat state and the type table.
proof fn lemma_push_preserves_seat_ok(b: Bindings, m: Map<int, CellModel>, a: ActionId, v: Value)
    requires
        b.seat_ok(m),
        a.0 < b.types@.len(),
        b.types@[a.0 as int] == v.spec_tag(),
    ensures
        b.seat_ok(push_model(m, a, v)),
{
    let m2 = push_model(m, a, v);
    assert forall|id: int|
        m2.dom().contains(id) && 0 <= id < b.types@.len() implies (#[trigger] m2[id]).tag()
        == b.types@[id] by {
        if id == a.0 as int {
            assert(m2[id].latest == v);
        } else {
            assert(m2[id] == m[id]);
            assert(m.dom().contains(id));
        }
    }
}

/// A filter recomputation preserves agreement between a seat state and the
/// bindings' type table.
proof fn lemma_apply_preserves_seat_ok(b: Bindings, m: Map<int, CellModel>, fi: int)
    requires
        b.wf(),
        b.seat_ok(m),
        0 <= fi < b.filters@.len(),
    ensures
        b.seat_ok(b.filters@[fi].apply_model(m)),
{
    let f = b.filters@[fi];
    assert(f.wf() && f.types_ok(b.types@));
    match f {
        Filter::DPad(d) => {
            assert(d.output(m).spec_tag() == TypeTag::Vec2);
            lemma_push_preserves_seat_ok(b, m, d.target.id, d.output(m));
        },
    }
}

/// Extending a delivery sequence by one more action applies the push and
/// a full propagation run to the previous deliveries' result.
proof fn lemma_deliver_snoc(
    b: Bindings,
    m: Map<int, CellModel>,
    s: Seq<ActionId>,
    x: ActionId,
    v: Value,
)
    ensures
        b.deliver_model(m, s.push(x), v) == b.worklist_model(
            push_model(b.deliver_model(m, s, v), x, v),
            seq![x],
            b.filters@.len() as nat,
        ),
    decreases s.len(),
{
    if s.len() == 0 {
        assert(s.push(x)[0] == x);
        assert(s.push(x).drop_first() =~= Seq::<ActionId>::empty());
        assert(b.deliver_model(m, s, v) == m);
        let w = b.worklist_model(push_model(m, x, v), seq![x], b.filters@.len() as nat);
        assert(b.deliver_model(m, s.push(x), v) == b.deliver_model(
            w,
            s.push(x).drop_first(),
            v,
        ));
        assert(b.deliver_model(w, Seq::<ActionId>::empty(), v) == w);
    } else {
        assert(s.push(x)[0] == s[0]);
        assert(s.push(x).drop_first() =~= s.drop_first().push(x));
        let m1 = b.worklist_model(push_model(m, s[0], v), seq![s[0]], b.filters@.len() as nat);
        assert(b.deliver_model(m, s.push(x), v) == b.deliver_model(
            m1,
            s.drop_first().push(x),
            v,
        ));
        assert(b.deliver_model(m, s, v) == b.deliver_model(m1, s.drop_first(), v));
        lemma_deliver_snoc(b, m1, s.drop_first(), x, v);
    }
}

/// Extending a single-step cascade by one more delivery applies the push
/// and the one filter step to the cascade's result.
proof fn lemma_cascade_snoc(
    b: Bindings,
    m: Map<int, CellModel>,
    s: Seq<ActionId>,
    x: ActionId,
    v: Value,
)
    ensures
        b.cascade(m, s.push(x), v) == b.step_model(push_model(b.cascade(m, s, v), x, v), x),
    decreases s.len(),
{
    if s.len() == 0 {
        assert(s.push(x)[0] == x);
        assert(s.push(x).drop_first() =~= Seq::<ActionId>::empty());
        assert(b.cascade(b.step_model(push_model(m, x, v), x), Seq::<ActionId>::empty(), v)
            == b.step_model(push_model(m, x, v), x));
        assert(b.cascade(m, s, v) == m);
    } else {
        assert(s.push(x)[0] == s[0]);
        assert(s.push(x).drop_first() =~= s.drop_first().push(x));
        let m1 = b.step_model(push_model(m, s[0], v), s[0]);
        lemma_cascade_snoc(b, m1, s.drop_first(), x, v);
    }
}

/// Two binding tables with the same rows, the first keyed by distinct
/// inputs, bind the same actions to every input.
proof fn lemma_bound_rows_eq(a: Bindings, b: Bindings)
    requires
        a.rows@ == b.rows@,
        forall|i: int, j: int|
            0 <= i < j < a.rows@.len() ==> (#[trigger] a.rows@[i])@.input != (
            #[trigger] a.rows@[j])@.input,
    ensures
        forall|im: InputModel| #[trigger] a.bound(im) == b.bound(im),
{
    assert forall|im: InputModel| #[trigger] a.bound(im) == b.bound(im) by {
        if a.has_row(im) {
            let ja = a.row_idx(im);
            assert(a.rows@[ja]@.input == im);
            assert(b.rows@[ja]@.input == im);
            assert(b.has_row(im));
            let jb = b.row_idx(im);
            assert(b.rows@[jb]@.input == im);
            assert(a.rows@[jb]@.input == im);
            if ja < jb {
                assert(a.rows@[ja]@.input != a.rows@[jb]@.input);
            } else if jb < ja {
                assert(a.rows@[jb]@.input != a.rows@[ja]@.input);
            }
        } else {
            if b.has_row(im) {
                let jb = b.row_idx(im);
                assert(a.rows@[jb]@.input == im);
                assert(a.has_row(im));
            }
        }
    }
}

/// In a well-formed routing table an index whose row is keyed by `im` is
/// the unique one, so it is the one `row_idx` denotes.
pub proof fn lemma_row_idx_unique(b: Bindings, i: int, im: InputModel)
    requires
        b.wf(),
        0 <= i < b.rows@.len(),
        b.rows@[i]@.input == im,
    ensures
        b.has_row(im),
        b.row_idx(im) == i,
{
    assert(b.has_row(im));
    let j = b.row_idx(im);
    assert(0 <= j < b.rows@.len() && b.rows@[j]@.input == im);
    if j < i {
        assert(b.rows@[j]@.input != b.rows@[i]@.input);
    } else if j > i {
        assert(b.rows@[i]@.input != b.rows@[j]@.input);
    }
}

/// Appending one action to the row at `i`, keyed by `im`, extends the
/// actions bound to `im` and leaves every other input's bindings unchanged.
proof fn lemma_bind_update_effect(pre: Bindings, post: Bindings, i: int, im: InputModel, action: ActionId)
    requires
        pre.wf(),
        0 <= i < pre.rows@.len(),
        pre.rows@[i]@.input == im,
        pre.types@[action.0 as int] == im.tag,
        action.0 < pre.types@.len(),
        post.rows@.len() == pre.rows@.len(),
        forall|j: int| 0 <= j < pre.rows@.len() && j != i ==> post.rows@[j] == pre.rows@[j],
        post.rows@[i]@.input == im,
        post.rows@[i]@.actions == pre.rows@[i]@.actions.push(action),
        post.filters@ == pre.filters@,
        post.filter_sources@ == pre.filter_sources@,
        post.types@ == pre.types@,
    ensures
        post.wf(),
        post.bound(im) == pre.bound(im).push(action),
        forall|other: InputModel| other != im ==> #[trigger] post.bound(other) == pre.bound(other),
{
    assert(post.rows@.len() == pre.rows@.len());
    assert(post.rows@[i]@.input == im);
    assert(post.rows@[i]@.actions == pre.rows@[i]@.actions.push(action));
    assert forall|j: int| 0 <= j < post.rows@.len() && j != i implies post.rows@[j]
        == pre.rows@[j] by {}
    assert(post.wf()) by {
        assert forall|p: int, q: int|
            0 <= p < q < post.rows@.len() implies (#[trigger] post.rows@[p])@.input != (
        #[trigger] post.rows@[q])@.input by {
            assert(pre.rows@[p]@.input != pre.rows@[q]@.input);
            assert(post.rows@[p]@.input == pre.rows@[p]@.input);
            assert(post.rows@[q]@.input == pre.rows@[q]@.input);
        }
        assert forall|p: int, k: int|
            0 <= p < post.rows@.len() && 0 <= k < post.rows@[p]@.actions.len()
                implies ({
            let a = #[trigger] post.rows@[p]@.actions[k];
            a.0 < post.types@.len() && post.types@[a.0 as int] == post.rows@[p]@.input.tag
        }) by {
            if p == i {
                if k < pre.rows@[i]@.actions.len() {
                    assert(pre.rows@[p]@.actions[k].0 < pre.types@.len());
                } else {
                    assert(post.rows@[p]@.actions[k] == action);
                }
            } else {
                assert(pre.rows@[p]@.actions[k].0 < pre.types@.len());
            }
        }
    }
    lemma_row_idx_unique(pre, i, im);
    lemma_row_idx_unique(post, i, im);
    assert forall|other: InputModel| other != im implies #[trigger] post.bound(other) == pre.bound(
        other,
    ) by {
        if pre.has_row(other) {
            let j = pre.row_idx(other);
            assert(pre.rows@[j]@.input == other);
            assert(j != i);
            assert(post.rows@[j]@.input == other);
            lemma_row_idx_unique(post, j, other);
        } else {
            if post.has_row(other) {
                let j = post.row_idx(other);
                assert(post.rows@[j]@.input == other);
                assert(j != i);
                assert(pre.rows@[j]@.input == other);
                assert(pre.has_row(other));
            }
        }
    }
}

/// Appending a fresh row keyed by `im` binds `im` to just `action` and
/// leaves every other input's bindings unchanged.
proof fn lemma_bind_append_effect(pre: Bindings, post: Bindings, im: InputModel, action: ActionId)
    requires
        pre.wf(),
        !pre.has_row(im),
        pre.types@[action.0 as int] == im.tag,
        action.0 < pre.types@.len(),
        post.rows@.len() == pre.rows@.len() + 1,
        forall|j: int| 0 <= j < pre.rows@.len() ==> post.rows@[j] == pre.rows@[j],
        post.rows@[pre.rows@.len() as int]@.input == im,
        post.rows@[pre.rows@.len() as int]@.actions == seq![action],
        post.filters@ == pre.filters@,
        post.filter_sources@ == pre.filter_sources@,
        post.types@ == pre.types@,
    ensures
        post.wf(),
        post.bound(im) == pre.bound(im).push(action),
        forall|other: InputModel| other != im ==> #[trigger] post.bound(other) == pre.bound(other),
{
    let n = pre.rows@.len() as int;
    assert(post.wf()) by {
        assert forall|p: int, q: int|
            0 <= p < q < post.rows@.len() implies (#[trigger] post.rows@[p])@.input != (
        #[trigger] post.rows@[q])@.input by {
            if q < n {
                assert(pre.rows@[p]@.input != pre.rows@[q]@.input);
            } else {
                assert(post.rows@[q]@.input == im);
                assert(post.rows@[p]@.input == pre.rows@[p]@.input);
                if pre.rows@[p]@.input == im {
                    assert(pre.has_row(im));
                }
            }
        }
        assert forall|p: int, k: int|
            0 <= p < post.rows@.len() && 0 <= k < post.rows@[p]@.actions.len()
                implies ({
            let a = #[trigger] post.rows@[p]@.actions[k];
            a.0 < post.types@.len() && post.types@[a.0 as int] == post.rows@[p]@.input.tag
        }) by {
            if p < n {
                assert(pre.rows@[p]@.actions[k].0 < pre.types@.len());
            } else {
                assert(post.rows@[p]@.actions[k] == action);
            }
        }
    }
    lemma_row_idx_unique(post, n, im);
    assert(pre.bound(im) == Seq::<ActionId>::empty());
    assert(post.bound(im) =~= pre.bound(im).push(action));
    assert forall|other: InputModel| other != im implies #[trigger] post.bound(other) == pre.bound(
        other,
    ) by {
        if pre.has_row(other) {
            let j = pre.row_idx(other);
            assert(pre.rows@[j]@.input == other);
            assert(post.rows@[j]@.input == other);
            lemma_row_idx_unique(post, j, other);
            lemma_row_idx_unique(pre, j, other);
        } else {
            if post.has_row(other) {
                let j = post.row_idx(other);
                assert(post.rows@[j]@.input == other);
                assert(j != n);
                assert(pre.rows@[j]@.input == other);
                assert(pre.has_row(other));
            }
        }
    }
}

} // verus!
