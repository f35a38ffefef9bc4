//! Filters: derived ("virtual") actions computed from other actions.
//!
//! A filter declares the source actions it reads and the target actions it
//! writes, and recomputes its targets from the current seat state. The set
//! of filter kinds is a closed tagged union; each kind has a globally
//! unique, human-readable name used in configuration files.

use vstd::prelude::*;
use vstd::string::StringExecFns;

use crate::seat::cell_tag_ok;
use crate::seat::push_model;
use crate::seat::push_ok;
use crate::seat::CellModel;
use crate::seat::Seat;
use crate::session::names_contain;
use crate::session::ActionModel;
use crate::session::Session;
use crate::types::Action;
use crate::types::ActionId;
use crate::types::DuplicateAction;
use crate::types::TypeError;
use crate::types::TypeTag;
use crate::types::Value;
use crate::types::Vec2;

verus! {

/// Serialized form of a single filter's configuration: the filter kind's
/// name and the names of its target actions.
#[derive(Clone, Debug)]
pub struct FilterConfig {
    pub ty: String,
    pub targets: Vec<String>,
}

/// Reasons why a filter entry of a configuration might not be loaded.
#[derive(Clone, Debug)]
pub enum FilterLoadError {
    /// The filter kind's name was not registered with the factory.
    UnknownFilter { ty: String },
    /// The filter requires an exact number of declared targets and the
    /// configuration supplied a different number.
    WrongOutputCount { expected: usize },
    /// The named target action does not exist in the session.
    UnknownTarget { output: String },
    /// The filter tried to create a source action whose name collides with
    /// an existing action.
    DuplicateSource { name: String },
    /// A target action's payload type does not match what the filter
    /// produces.
    TypeError { filter_ty: String, action: String, error: TypeError },
    /// Reserved for future cycle detection over the filter graph; currently
    /// never produced.
    Cycle,
}

impl From<DuplicateAction> for FilterLoadError {
    fn from(value: DuplicateAction) -> (r: Self) {
        FilterLoadError::DuplicateSource { name: value.name }
    }
}

impl vstd::std_specs::convert::FromSpecImpl<DuplicateAction> for FilterLoadError {
    open spec fn obeys_from_spec() -> bool {
        true
    }

    open spec fn from_spec(value: DuplicateAction) -> Self {
        FilterLoadError::DuplicateSource { name: value.name }
    }
}

/// `base` followed by `suffix`.
fn derived_name(base: &str, suffix: &str) -> (r: String)
    ensures
        r@ == base@ + suffix@,
{
    let mut s: String = base.to_owned();
    s.append(suffix);
    s
}

/// Appending different suffixes to one base yields different names.
proof fn lemma_append_ne(base: Seq<char>, s1: Seq<char>, s2: Seq<char>)
    requires
        s1 != s2,
    ensures
        base + s1 != base + s2,
{
    if base + s1 == base + s2 {
        assert((base + s1).len() == (base + s2).len());
        assert(s1.len() == s2.len());
        assert forall|k: int| 0 <= k < s1.len() implies s1[k] == s2[k] by {
            assert((base + s1)[base.len() + k] == s1[k]);
            assert((base + s2)[base.len() + k] == s2[k]);
        }
        assert(s1 =~= s2);
    }
}

/// The configuration-file name of the directional-pad filter kind.
pub open spec fn dpad_kind_name() -> Seq<char> {
    "dpad"@
}

/// The four direction suffixes, in the order the derived source actions are
/// created: up, left, down, right.
pub open spec fn dpad_suffix(k: int) -> Seq<char> {
    if k == 0 {
        ".up"@
    } else if k == 1 {
        ".left"@
    } else if k == 2 {
        ".down"@
    } else {
        ".right"@
    }
}

/// The name of the `k`-th derived direction action for a target named
/// `base`.
pub open spec fn dpad_source_name(base: Seq<char>, k: int) -> Seq<char> {
    base + dpad_suffix(k)
}

/// The four derived direction names for one base are pairwise distinct.
proof fn lemma_dpad_names_distinct(base: Seq<char>)
    ensures
        forall|j: int, k: int|
            0 <= j < k < 4 ==> dpad_source_name(base, j) != dpad_source_name(base, k),
{
    reveal_strlit(".up");
    reveal_strlit(".left");
    reveal_strlit(".down");
    reveal_strlit(".right");
    assert(".up"@.len() == 3);
    assert(".left"@.len() == 5);
    assert(".down"@.len() == 5);
    assert(".right"@.len() == 6);
    assert(".left"@[1] == 'l');
    assert(".down"@[1] == 'd');
    assert(".left"@ != ".down"@);
    assert forall|j: int, k: int|
        0 <= j < k < 4 implies dpad_source_name(base, j) != dpad_source_name(base, k) by {
        lemma_append_ne(base, dpad_suffix(j), dpad_suffix(k));
    }
}

/// True when the latest value for `a` in seat state `m` is the boolean
/// `true`; an action that never fired counts as `false`.
pub open spec fn held(m: Map<int, CellModel>, a: Action) -> bool {
    m.dom().contains(a.id.0 as int) && m[a.id.0 as int].latest == Value::Bool(true)
}

/// The signed axis value derived from a positive and a negative direction:
/// 1, -1, or 0.
pub open spec fn axis(m: Map<int, CellModel>, pos: Action, neg: Action) -> int {
    (if held(m, pos) {
        1int
    } else {
        0int
    }) - (if held(m, neg) {
        1int
    } else {
        0int
    })
}

/// Converts four directional boolean actions into a single two-dimensional
/// vector action.
///
/// Source action names are derived by suffixing `.up`/`.left`/`.down`/
/// `.right` to the target action's name.
#[derive(Clone, Copy)]
pub struct DPad {
    pub target: Action,
    pub up: Action,
    pub left: Action,
    pub down: Action,
    pub right: Action,
}

impl DPad {
    /// The four direction sources carry booleans, the target carries a
    /// vector, and all identifiers lie in the dense identifier space.
    pub open spec fn wf(self) -> bool {
        &&& self.target.tag == TypeTag::Vec2
        &&& self.up.tag == TypeTag::Bool
        &&& self.left.tag == TypeTag::Bool
        &&& self.down.tag == TypeTag::Bool
        &&& self.right.tag == TypeTag::Bool
        &&& self.target.id.0 < u32::MAX
        &&& self.up.id.0 < u32::MAX
        &&& self.left.id.0 < u32::MAX
        &&& self.down.id.0 < u32::MAX
        &&& self.right.id.0 < u32::MAX
    }

    /// True when every action handle this filter holds agrees with the
    /// type table `types`: its identifier lies in the table and carries the
    /// handle's tag.
    pub open spec fn types_ok(self, types: Seq<TypeTag>) -> bool {
        &&& self.target.id.0 < types.len() && types[self.target.id.0 as int] == self.target.tag
        &&& self.up.id.0 < types.len() && types[self.up.id.0 as int] == self.up.tag
        &&& self.left.id.0 < types.len() && types[self.left.id.0 as int] == self.left.tag
        &&& self.down.id.0 < types.len() && types[self.down.id.0 as int] == self.down.tag
        &&& self.right.id.0 < types.len() && types[self.right.id.0 as int] == self.right.tag
    }

    /// True when the seat state carries the right payload types for this
    /// filter's sources and target.
    pub open spec fn seat_compat(self, m: Map<int, CellModel>) -> bool {
        &&& cell_tag_ok(m, self.up)
        &&& cell_tag_ok(m, self.left)
        &&& cell_tag_ok(m, self.down)
        &&& cell_tag_ok(m, self.right)
        &&& cell_tag_ok(m, self.target)
    }

    /// The vector this filter computes from seat state `m`:
    /// `x = right - left`, `y = up - down`, treating actions that never
    /// fired as `false`.
    pub open spec fn output(self, m: Map<int, CellModel>) -> Value {
        Value::Vec2(
            Vec2 { x: axis(m, self.right, self.left) as i64, y: axis(m, self.up, self.down) as i64 },
        )
    }

    /// Create a directional-pad filter for `target`, creating its four
    /// boolean source actions in `session` with names derived from the
    /// target's name.
    ///
    /// Creation is attempted for every direction in order even after a
    /// collision: the first colliding direction's error is returned, and
    /// every non-colliding direction remains created in the session.
    pub fn new(session: &mut Session, target: Action) -> (r: Result<DPad, DuplicateAction>)
        requires
            old(session).wf(),
            old(session).defines(target.id),
            target.tag == TypeTag::Vec2,
            old(session)@.len() + 4 <= u32::MAX,
        ensures
            final(session).wf(),
            old(session)@.len() <= final(session)@.len(),
            forall|i: int| 0 <= i < old(session)@.len() ==> final(session)@[i] == old(session)@[i],
            ({
                let base = old(session)@[target.id.0 as int].name;
                let n = old(session)@.len() as int;
                &&& (r is Ok <==> (forall|k: int|
                    0 <= k < 4 ==> !old(session).has_name(#[trigger] dpad_source_name(base, k))))
                &&& r matches Ok(d) ==> {
                    &&& final(session)@ == old(session)@ + seq![
                        ActionModel { name: dpad_source_name(base, 0), tag: TypeTag::Bool },
                        ActionModel { name: dpad_source_name(base, 1), tag: TypeTag::Bool },
                        ActionModel { name: dpad_source_name(base, 2), tag: TypeTag::Bool },
                        ActionModel { name: dpad_source_name(base, 3), tag: TypeTag::Bool },
                    ]
                    &&& d.target == target
                    &&& d.up == (Action { id: ActionId(n as u32), tag: TypeTag::Bool })
                    &&& d.left == (Action { id: ActionId((n + 1) as u32), tag: TypeTag::Bool })
                    &&& d.down == (Action { id: ActionId((n + 2) as u32), tag: TypeTag::Bool })
                    &&& d.right == (Action { id: ActionId((n + 3) as u32), tag: TypeTag::Bool })
                    &&& d.wf()
                }
                &&& r matches Err(e) ==> ({
                    let fc = dpad_first_collision(old(session)@, base, 0);
                    &&& 0 <= fc < 4
                    &&& e.name@ == dpad_source_name(base, fc)
                    &&& final(session)@ == old(session)@ + dpad_created_attempting_all(
                        old(session)@,
                        base,
                        0,
                    )
                })
            }),
    {
        let base: String = session.action_name(target.id).to_owned();
        match create_direction_actions(session, base.as_str()) {
            Result::Ok(dirs) => Ok(
                DPad { target, up: dirs.0, left: dirs.1, down: dirs.2, right: dirs.3 },
            ),
            Result::Err(e) => Err(e),
        }
    }

    /// Create the four derived boolean source actions named by the target
    /// in `config`, which must declare exactly one target.
    ///
    /// The directions are created in order and the first name collision
    /// stops the sequence: directions before the collision remain created,
    /// later ones are not attempted.
    pub fn create_source_actions(session: &mut Session, config: &FilterConfig) -> (r: Result<
        (),
        FilterLoadError,
    >)
        requires
            old(session).wf(),
            old(session)@.len() + 4 <= u32::MAX,
        ensures
            final(session).wf(),
            old(session)@.len() <= final(session)@.len(),
            final(session)@.len() <= old(session)@.len() + 4,
            forall|i: int| 0 <= i < old(session)@.len() ==> final(session)@[i] == old(session)@[i],
            config.targets@.len() != 1 ==> r == Err::<(), FilterLoadError>(
                FilterLoadError::WrongOutputCount { expected: 1usize },
            ) && final(session)@ == old(session)@,
            config.targets@.len() == 1 ==> ({
                let base = config.targets@[0]@;
                let fc = dpad_first_collision(old(session)@, base, 0);
                &&& final(session)@ == old(session)@ + dpad_created_until_collision(
                    old(session)@,
                    base,
                    0,
                )
                &&& (r is Ok <==> fc == 4)
                &&& r matches Err(e) ==> 0 <= fc < 4 && (
                e matches FilterLoadError::DuplicateSource { name } && name@ == dpad_source_name(
                    base,
                    fc,
                ))
                &&& r is Ok ==> dpad_sources_ok(*final(session), base)
            }),
    {
        if config.targets.len() != 1 {
            return Err(FilterLoadError::WrongOutputCount { expected: 1 });
        }
        let base = &config.targets[0];
        proof {
            lemma_dpad_names_distinct(base@);
        }
        let up_n = derived_name(base.as_str(), ".up");
        let left_n = derived_name(base.as_str(), ".left");
        let down_n = derived_name(base.as_str(), ".down");
        let right_n = derived_name(base.as_str(), ".right");
        proof {
            assert(up_n@ == dpad_source_name(base@, 0));
            assert(left_n@ == dpad_source_name(base@, 1));
            assert(down_n@ == dpad_source_name(base@, 2));
            assert(right_n@ == dpad_source_name(base@, 3));
        }
        let ghost o = session@;
        let ghost m0 = ActionModel { name: dpad_source_name(base@, 0), tag: TypeTag::Bool };
        let ghost m1 = ActionModel { name: dpad_source_name(base@, 1), tag: TypeTag::Bool };
        let ghost m2 = ActionModel { name: dpad_source_name(base@, 2), tag: TypeTag::Bool };
        let ghost m3 = ActionModel { name: dpad_source_name(base@, 3), tag: TypeTag::Bool };
        let ghost h0: Session = *session;
        let r0 = session.create_action(up_n.as_str(), TypeTag::Bool);
        match r0 {
            Result::Err(e) => {
                proof {
                    assert(names_contain(o, dpad_source_name(base@, 0)));
                    assert(dpad_first_collision(o, base@, 0) == 0);
                    assert(dpad_created_until_collision(o, base@, 0)
                        =~= Seq::<ActionModel>::empty());
                    assert(session@ =~= o + dpad_created_until_collision(o, base@, 0));
                }
                return Err(FilterLoadError::DuplicateSource { name: e.name });
            },
            Result::Ok(_) => (),
        }
        let ghost h1: Session = *session;
        let r1 = session.create_action(left_n.as_str(), TypeTag::Bool);
        match r1 {
            Result::Err(e) => {
                proof {
                    crate::session::lemma_has_name_after_push(
                        h0,
                        h1,
                        m0,
                        dpad_source_name(base@, 1),
                    );
                    assert(names_contain(o, dpad_source_name(base@, 1)));
                    assert(!names_contain(o, dpad_source_name(base@, 0)));
                    assert(dpad_first_collision(o, base@, 1) == 1);
                    assert(dpad_first_collision(o, base@, 0) == 1);
                    assert(dpad_created_until_collision(o, base@, 1)
                        =~= Seq::<ActionModel>::empty());
                    assert(dpad_created_until_collision(o, base@, 0) =~= seq![m0]);
                    assert(session@ =~= o + dpad_created_until_collision(o, base@, 0));
                }
                return Err(FilterLoadError::DuplicateSource { name: e.name });
            },
            Result::Ok(_) => (),
        }
        let ghost h2: Session = *session;
        let r2 = session.create_action(down_n.as_str(), TypeTag::Bool);
        match r2 {
            Result::Err(e) => {
                proof {
                    crate::session::lemma_has_name_after_push(
                        h0,
                        h1,
                        m0,
                        dpad_source_name(base@, 1),
                    );
                    crate::session::lemma_has_name_after_push(
                        h0,
                        h1,
                        m0,
                        dpad_source_name(base@, 2),
                    );
                    crate::session::lemma_has_name_after_push(
                        h1,
                        h2,
                        m1,
                        dpad_source_name(base@, 2),
                    );
                    assert(names_contain(o, dpad_source_name(base@, 2)));
                    assert(!names_contain(o, dpad_source_name(base@, 0)));
                    assert(!names_contain(o, dpad_source_name(base@, 1)));
                    assert(dpad_first_collision(o, base@, 2) == 2);
                    assert(dpad_first_collision(o, base@, 1) == 2);
                    assert(dpad_first_collision(o, base@, 0) == 2);
                    assert(dpad_created_until_collision(o, base@, 2)
                        =~= Seq::<ActionModel>::empty());
                    assert(dpad_created_until_collision(o, base@, 1) =~= seq![m1]);
                    assert(dpad_created_until_collision(o, base@, 0) =~= seq![m0, m1]);
                    assert(session@ =~= o + dpad_created_until_collision(o, base@, 0));
                }
                return Err(FilterLoadError::DuplicateSource { name: e.name });
            },
            Result::Ok(_) => (),
        }
        let ghost h3: Session = *session;
        let r3 = session.create_action(right_n.as_str(), TypeTag::Bool);
        match r3 {
            Result::Err(e) => {
                proof {
                    crate::session::lemma_has_name_after_push(
                        h0,
                        h1,
                        m0,
                        dpad_source_name(base@, 3),
                    );
                    crate::session::lemma_has_name_after_push(
                        h1,
                        h2,
                        m1,
                        dpad_source_name(base@, 3),
                    );
                    crate::session::lemma_has_name_after_push(
                        h2,
                        h3,
                        m2,
                        dpad_source_name(base@, 3),
                    );
                    crate::session::lemma_has_name_after_push(
                        h0,
                        h1,
                        m0,
                        dpad_source_name(base@, 1),
                    );
                    crate::session::lemma_has_name_after_push(
                        h0,
                        h1,
                        m0,
                        dpad_source_name(base@, 2),
                    );
                    crate::session::lemma_has_name_after_push(
                        h1,
                        h2,
                        m1,
                        dpad_source_name(base@, 2),
                    );
                    assert(names_contain(o, dpad_source_name(base@, 3)));
                    assert(!names_contain(o, dpad_source_name(base@, 0)));
                    assert(!names_contain(o, dpad_source_name(base@, 1)));
                    assert(!names_contain(o, dpad_source_name(base@, 2)));
                    assert(dpad_first_collision(o, base@, 3) == 3);
                    assert(dpad_first_collision(o, base@, 2) == 3);
                    assert(dpad_first_collision(o, base@, 1) == 3);
                    assert(dpad_first_collision(o, base@, 0) == 3);
                    assert(dpad_created_until_collision(o, base@, 3)
                        =~= Seq::<ActionModel>::empty());
                    assert(dpad_created_until_collision(o, base@, 2) =~= seq![m2]);
                    assert(dpad_created_until_collision(o, base@, 1) =~= seq![m1, m2]);
                    assert(dpad_created_until_collision(o, base@, 0) =~= seq![m0, m1, m2]);
                    assert(session@ =~= o + dpad_created_until_collision(o, base@, 0));
                }
                return Err(FilterLoadError::DuplicateSource { name: e.name });
            },
            Result::Ok(_) => (),
        }
        proof {
            let n = o.len() as int;
            crate::session::lemma_has_name_after_push(h0, h1, m0, dpad_source_name(base@, 1));
            crate::session::lemma_has_name_after_push(h0, h1, m0, dpad_source_name(base@, 2));
            crate::session::lemma_has_name_after_push(h1, h2, m1, dpad_source_name(base@, 2));
            crate::session::lemma_has_name_after_push(h0, h1, m0, dpad_source_name(base@, 3));
            crate::session::lemma_has_name_after_push(h1, h2, m1, dpad_source_name(base@, 3));
            crate::session::lemma_has_name_after_push(h2, h3, m2, dpad_source_name(base@, 3));
            assert(!names_contain(o, dpad_source_name(base@, 0)));
            assert(!names_contain(o, dpad_source_name(base@, 1)));
            assert(!names_contain(o, dpad_source_name(base@, 2)));
            assert(!names_contain(o, dpad_source_name(base@, 3)));
            assert(dpad_first_collision(o, base@, 4) == 4);
            assert(dpad_first_collision(o, base@, 3) == 4);
            assert(dpad_first_collision(o, base@, 2) == 4);
            assert(dpad_first_collision(o, base@, 1) == 4);
            assert(dpad_first_collision(o, base@, 0) == 4);
            assert(dpad_created_until_collision(o, base@, 4) =~= Seq::<ActionModel>::empty());
            assert(dpad_created_until_collision(o, base@, 3) =~= seq![m3]);
            assert(dpad_created_until_collision(o, base@, 2) =~= seq![m2, m3]);
            assert(dpad_created_until_collision(o, base@, 1) =~= seq![m1, m2, m3]);
            assert(dpad_created_until_collision(o, base@, 0) =~= seq![m0, m1, m2, m3]);
            assert(session@ =~= o + dpad_created_until_collision(o, base@, 0));
            assert forall|k: int|
                0 <= k < 4 implies final(session).has_name(#[trigger] dpad_source_name(base@, k))
                && final(session)@[final(session).id_of(dpad_source_name(base@, k))].tag
                == TypeTag::Bool by {
                assert(final(session)@[n + k].name == dpad_source_name(base@, k));
                crate::session::lemma_id_of_unique(
                    *final(session),
                    n + k,
                    dpad_source_name(base@, k),
                );
            }
        }
        Ok(())
    }

    /// Check that the four derived direction actions for a target named
    /// `base` exist and carry booleans, so that a configuration entry for
    /// this filter can be loaded.
    pub fn sources_ready(session: &Session, base: &str) -> (r: bool)
        requires
            session.wf(),
        ensures
            r == dpad_sources_ok(*session, base@),
    {
        let up_n = derived_name(base, ".up");
        let left_n = derived_name(base, ".left");
        let down_n = derived_name(base, ".down");
        let right_n = derived_name(base, ".right");
        let ok0 = Self::source_ready(session, &up_n);
        let ok1 = Self::source_ready(session, &left_n);
        let ok2 = Self::source_ready(session, &down_n);
        let ok3 = Self::source_ready(session, &right_n);
        let r = ok0 && ok1 && ok2 && ok3;
        proof {
            if r {
                assert forall|k: int|
                    0 <= k < 4 implies session.has_name(#[trigger] dpad_source_name(base@, k))
                    && session@[session.id_of(dpad_source_name(base@, k))].tag
                    == TypeTag::Bool by {
                    assert(k == 0 || k == 1 || k == 2 || k == 3);
                }
            } else {
                assert(dpad_source_name(base@, 0) == up_n@);
                assert(dpad_source_name(base@, 1) == left_n@);
                assert(dpad_source_name(base@, 2) == down_n@);
                assert(dpad_source_name(base@, 3) == right_n@);
                if dpad_sources_ok(*session, base@) {
                    assert(session.has_name(dpad_source_name(base@, 0)) && session@[session.id_of(
                        dpad_source_name(base@, 0),
                    )].tag == TypeTag::Bool);
                    assert(session.has_name(dpad_source_name(base@, 1)) && session@[session.id_of(
                        dpad_source_name(base@, 1),
                    )].tag == TypeTag::Bool);
                    assert(session.has_name(dpad_source_name(base@, 2)) && session@[session.id_of(
                        dpad_source_name(base@, 2),
                    )].tag == TypeTag::Bool);
                    assert(session.has_name(dpad_source_name(base@, 3)) && session@[session.id_of(
                        dpad_source_name(base@, 3),
                    )].tag == TypeTag::Bool);
                    assert(false);
                }
            }
        }
        r
    }

    /// Check that one derived direction action exists and carries booleans.
    fn source_ready(session: &Session, name: &String) -> (r: bool)
        requires
            session.wf(),
        ensures
            r == (session.has_name(name@) && session@[session.id_of(name@)].tag == TypeTag::Bool),
    {
        match session.action_id(name.as_str()) {
            Option::Some(id) => match session.action(id, TypeTag::Bool) {
                Result::Ok(_) => true,
                Result::Err(_) => false,
            },
            Option::None => false,
        }
    }

    /// Construct a directional-pad filter from a configuration entry whose
    /// derived direction actions already exist in `session`.
    ///
    /// Fails with [`FilterLoadError::UnknownTarget`] iff the named target
    /// action does not exist, and with [`FilterLoadError::TypeError`] iff
    /// it exists but does not carry a vector.
    pub fn load(session: &Session, config: &FilterConfig) -> (r: Result<DPad, FilterLoadError>)
        requires
            session.wf(),
            config.targets@.len() >= 1,
            dpad_sources_ok(*session, config.targets@[0]@),
        ensures
            ({
                let base = config.targets@[0]@;
                &&& (r is Ok <==> session.has_name(base) && session@[session.id_of(base)].tag
                    == TypeTag::Vec2)
                &&& r matches Ok(d) ==> {
                    &&& d.wf()
                    &&& d.target == (Action {
                        id: ActionId(session.id_of(base) as u32),
                        tag: TypeTag::Vec2,
                    })
                    &&& forall|k: int|
                        0 <= k < 4 ==> #[trigger] dpad_source(d, k) == (Action {
                            id: ActionId(session.id_of(dpad_source_name(base, k)) as u32),
                            tag: TypeTag::Bool,
                        })
                }
                &&& r matches Err(e) ==> (if session.has_name(base) {
                    e matches FilterLoadError::TypeError { filter_ty, action, error }
                        && filter_ty@ == dpad_kind_name() && action@ == base && error
                        == (TypeError {
                        expected: TypeTag::Vec2,
                        actual: session@[session.id_of(base)].tag,
                    })
                } else {
                    e matches FilterLoadError::UnknownTarget { output } && output@ == base
                })
            }),
    {
        let base = &config.targets[0];
        proof {
            assert(session.has_name(dpad_source_name(base@, 0)) && session@[session.id_of(
                dpad_source_name(base@, 0),
            )].tag == TypeTag::Bool);
            assert(session.has_name(dpad_source_name(base@, 1)) && session@[session.id_of(
                dpad_source_name(base@, 1),
            )].tag == TypeTag::Bool);
            assert(session.has_name(dpad_source_name(base@, 2)) && session@[session.id_of(
                dpad_source_name(base@, 2),
            )].tag == TypeTag::Bool);
            assert(session.has_name(dpad_source_name(base@, 3)) && session@[session.id_of(
                dpad_source_name(base@, 3),
            )].tag == TypeTag::Bool);
            assert(dpad_source_name(base@, 0) == base@ + ".up"@);
            assert(dpad_source_name(base@, 1) == base@ + ".left"@);
            assert(dpad_source_name(base@, 2) == base@ + ".down"@);
            assert(dpad_source_name(base@, 3) == base@ + ".right"@);
        }
        let up = Self::load_source(session, &derived_name(base.as_str(), ".up"));
        let left = Self::load_source(session, &derived_name(base.as_str(), ".left"));
        let down = Self::load_source(session, &derived_name(base.as_str(), ".down"));
        let right = Self::load_source(session, &derived_name(base.as_str(), ".right"));
        let target_id = match session.action_id(base.as_str()) {
            Option::Some(id) => id,
            Option::None => {
                return Err(FilterLoadError::UnknownTarget { output: base.clone() });
            },
        };
        match session.action(target_id, TypeTag::Vec2) {
            Result::Ok(target) => Ok(DPad { target, up, left, down, right }),
            Result::Err(e) => Err(
                FilterLoadError::TypeError {
                    filter_ty: "dpad".to_owned(),
                    action: base.clone(),
                    error: e,
                },
            ),
        }
    }

    /// Resolve one derived direction action that is known to exist and
    /// carry booleans.
    fn load_source(session: &Session, name: &String) -> (r: Action)
        requires
            session.wf(),
            session.has_name(name@),
            session@[session.id_of(name@)].tag == TypeTag::Bool,
        ensures
            r == (Action { id: ActionId(session.id_of(name@) as u32), tag: TypeTag::Bool }),
    {
        let id = match session.action_id(name.as_str()) {
            Option::Some(id) => id,
            Option::None => {
                proof {
                    assert(false);
                }
                ActionId(0)
            },
        };
        match session.action(id, TypeTag::Bool) {
            Result::Ok(a) => a,
            Result::Err(_) => {
                proof {
                    assert(false);
                }
                Action { id, tag: TypeTag::Bool }
            },
        }
    }

    /// Convert this filter into serializable form. The target is named
    /// through `session`, which must be the session its action came from.
    pub fn save(&self, session: &Session) -> (r: FilterConfig)
        requires
            session.defines(self.target.id),
        ensures
            r.ty@ == dpad_kind_name(),
            r.targets@.len() == 1,
            r.targets@[0]@ == session@[self.target.id.0 as int].name,
    {
        let mut targets: Vec<String> = Vec::new();
        targets.push(session.action_name(self.target.id).to_owned());
        FilterConfig { ty: "dpad".to_owned(), targets }
    }

    pub fn up(&self) -> (r: Action)
        ensures
            r == self.up,
    {
        self.up
    }

    pub fn left(&self) -> (r: Action)
        ensures
            r == self.left,
    {
        self.left
    }

    pub fn down(&self) -> (r: Action)
        ensures
            r == self.down,
    {
        self.down
    }

    pub fn right(&self) -> (r: Action)
        ensures
            r == self.right,
    {
        self.right
    }

    /// Actions this filter reads, in creation order.
    pub fn source_actions(&self) -> (r: Vec<ActionId>)
        ensures
            r@ == seq![self.up.id, self.left.id, self.down.id, self.right.id],
    {
        let mut r: Vec<ActionId> = Vec::new();
        r.push(self.up.id);
        r.push(self.left.id);
        r.push(self.down.id);
        r.push(self.right.id);
        proof {
            assert(r@ =~= seq![self.up.id, self.left.id, self.down.id, self.right.id]);
        }
        r
    }

    /// Actions this filter writes.
    pub fn target_actions(&self) -> (r: Vec<ActionId>)
        ensures
            r@ == seq![self.target.id],
    {
        let mut r: Vec<ActionId> = Vec::new();
        r.push(self.target.id);
        proof {
            assert(r@ =~= seq![self.target.id]);
        }
        r
    }

    /// Recompute the target from the sources' current values and push the
    /// result into `seat`.
    pub fn apply(&self, seat: &mut Seat)
        requires
            self.wf(),
            old(seat).wf(),
            self.seat_compat(old(seat)@),
        ensures
            final(seat).wf(),
            final(seat)@ == push_model(old(seat)@, self.target.id, self.output(old(seat)@)),
    {
        let r = sample_held(seat, self.right);
        let l = sample_held(seat, self.left);
        let u = sample_held(seat, self.up);
        let d = sample_held(seat, self.down);
        let x: i64 = (if r {
            1
        } else {
            0
        }) - (if l {
            1
        } else {
            0
        });
        let y: i64 = (if u {
            1
        } else {
            0
        }) - (if d {
            1
        } else {
            0
        });
        let res = seat.push(self.target.id, Value::Vec2(Vec2 { x, y }));
        match res {
            Result::Ok(_) => (),
            Result::Err(_) => {
                proof {
                    assert(false);
                }
            },
        }
    }
}

/// The `k`-th direction source of a directional-pad filter, in the order
/// up, left, down, right.
pub open spec fn dpad_source(d: DPad, k: int) -> Action {
    if k == 0 {
        d.up
    } else if k == 1 {
        d.left
    } else if k == 2 {
        d.down
    } else {
        d.right
    }
}

/// True when the four derived direction actions for a target named `base`
/// all exist in `s` and carry booleans.
pub open spec fn dpad_sources_ok(s: Session, base: Seq<char>) -> bool {
    forall|k: int|
        0 <= k < 4 ==> s.has_name(#[trigger] dpad_source_name(base, k)) && s@[s.id_of(
            dpad_source_name(base, k),
        )].tag == TypeTag::Bool
}

/// The definition of the `k`-th derived direction action for a target
/// named `base`.
pub open spec fn dpad_model(base: Seq<char>, k: int) -> ActionModel {
    ActionModel { name: dpad_source_name(base, k), tag: TypeTag::Bool }
}

/// The first direction at or after `k`, in the order up, left, down,
/// right, whose derived name already exists in `s`; 4 when none collides.
pub open spec fn dpad_first_collision(s: Seq<ActionModel>, base: Seq<char>, k: int) -> int
    decreases 4 - k,
{
    if k >= 4 {
        4
    } else if names_contain(s, dpad_source_name(base, k)) {
        k
    } else {
        dpad_first_collision(s, base, k + 1)
    }
}

/// The definitions appended when the derived direction actions from `k` on
/// are created in order, stopping at the first name collision with `s`:
/// only the directions before the collision are created.
pub open spec fn dpad_created_until_collision(
    s: Seq<ActionModel>,
    base: Seq<char>,
    k: int,
) -> Seq<ActionModel>
    decreases 4 - k,
{
    if k >= 4 || names_contain(s, dpad_source_name(base, k)) {
        Seq::<ActionModel>::empty()
    } else {
        seq![dpad_model(base, k)] + dpad_created_until_collision(s, base, k + 1)
    }
}

/// The definitions appended when all four derived direction actions from
/// `k` on are attempted in order, each created iff its name is absent from
/// `s`: a collision does not stop the later directions.
pub open spec fn dpad_created_attempting_all(
    s: Seq<ActionModel>,
    base: Seq<char>,
    k: int,
) -> Seq<ActionModel>
    decreases 4 - k,
{
    if k >= 4 {
        Seq::<ActionModel>::empty()
    } else if names_contain(s, dpad_source_name(base, k)) {
        dpad_created_attempting_all(s, base, k + 1)
    } else {
        seq![dpad_model(base, k)] + dpad_created_attempting_all(s, base, k + 1)
    }
}

/// Create the four derived direction actions for a target named `base`, in
/// the order up, left, down, right. Creation is attempted for every name
/// even after a collision; the first collision's error is reported.
fn create_direction_actions(session: &mut Session, base: &str) -> (r: Result<
    (Action, Action, Action, Action),
    DuplicateAction,
>)
    requires
        old(session).wf(),
        old(session)@.len() + 4 <= u32::MAX,
    ensures
        final(session).wf(),
        old(session)@.len() <= final(session)@.len(),
        final(session)@.len() <= old(session)@.len() + 4,
        forall|i: int| 0 <= i < old(session)@.len() ==> final(session)@[i] == old(session)@[i],
        r is Ok <==> (forall|k: int|
            0 <= k < 4 ==> !old(session).has_name(#[trigger] dpad_source_name(base@, k))),
        r matches Ok(dirs) ==> ({
            let n = old(session)@.len() as int;
            &&& final(session)@ == old(session)@ + seq![
                ActionModel { name: dpad_source_name(base@, 0), tag: TypeTag::Bool },
                ActionModel { name: dpad_source_name(base@, 1), tag: TypeTag::Bool },
                ActionModel { name: dpad_source_name(base@, 2), tag: TypeTag::Bool },
                ActionModel { name: dpad_source_name(base@, 3), tag: TypeTag::Bool },
            ]
            &&& dirs.0 == (Action { id: ActionId(n as u32), tag: TypeTag::Bool })
            &&& dirs.1 == (Action { id: ActionId((n + 1) as u32), tag: TypeTag::Bool })
            &&& dirs.2 == (Action { id: ActionId((n + 2) as u32), tag: TypeTag::Bool })
            &&& dirs.3 == (Action { id: ActionId((n + 3) as u32), tag: TypeTag::Bool })
            &&& dpad_sources_ok(*final(session), base@)
        }),
        r matches Err(e) ==> ({
            let fc = dpad_first_collision(old(session)@, base@, 0);
            &&& 0 <= fc < 4
            &&& e.name@ == dpad_source_name(base@, fc)
            &&& final(session)@ == old(session)@ + dpad_created_attempting_all(
                old(session)@,
                base@,
                0,
            )
        }),
{
    proof {
        lemma_dpad_names_distinct(base@);
    }
    let up_n = derived_name(base, ".up");
    let left_n = derived_name(base, ".left");
    let down_n = derived_name(base, ".down");
    let right_n = derived_name(base, ".right");
    let ghost g0: Session = *session;
    let r_up = session.create_action(up_n.as_str(), TypeTag::Bool);
    let ghost g1: Session = *session;
    let r_left = session.create_action(left_n.as_str(), TypeTag::Bool);
    let ghost g2: Session = *session;
    let r_down = session.create_action(down_n.as_str(), TypeTag::Bool);
    let ghost g3: Session = *session;
    let r_right = session.create_action(right_n.as_str(), TypeTag::Bool);
    let ghost g4: Session = *session;
    proof {
        let o = g0@;
        let m0 = ActionModel { name: dpad_source_name(base@, 0), tag: TypeTag::Bool };
        let m1 = ActionModel { name: dpad_source_name(base@, 1), tag: TypeTag::Bool };
        let m2 = ActionModel { name: dpad_source_name(base@, 2), tag: TypeTag::Bool };
        let m3 = ActionModel { name: dpad_source_name(base@, 3), tag: TypeTag::Bool };
        if r_up is Ok {
            crate::session::lemma_has_name_after_push(g0, g1, m0, dpad_source_name(base@, 1));
            crate::session::lemma_has_name_after_push(g0, g1, m0, dpad_source_name(base@, 2));
            crate::session::lemma_has_name_after_push(g0, g1, m0, dpad_source_name(base@, 3));
        }
        if r_left is Ok {
            crate::session::lemma_has_name_after_push(g1, g2, m1, dpad_source_name(base@, 2));
            crate::session::lemma_has_name_after_push(g1, g2, m1, dpad_source_name(base@, 3));
        }
        if r_down is Ok {
            crate::session::lemma_has_name_after_push(g2, g3, m2, dpad_source_name(base@, 3));
        }
        // Each creation fails exactly when its derived name was already in
        // the starting session: the names created meanwhile are the other,
        // distinct derived names.
        let c0 = names_contain(o, dpad_source_name(base@, 0));
        let c1 = names_contain(o, dpad_source_name(base@, 1));
        let c2 = names_contain(o, dpad_source_name(base@, 2));
        let c3 = names_contain(o, dpad_source_name(base@, 3));
        assert((r_up is Err) == c0);
        assert((r_left is Err) == c1);
        assert((r_down is Err) == c2);
        assert((r_right is Err) == c3);
        // The session effect, step by step, matches the attempt-all model.
        let x0: Seq<ActionModel> = if c0 {
            Seq::empty()
        } else {
            seq![m0]
        };
        let x1: Seq<ActionModel> = if c1 {
            Seq::empty()
        } else {
            seq![m1]
        };
        let x2: Seq<ActionModel> = if c2 {
            Seq::empty()
        } else {
            seq![m2]
        };
        let x3: Seq<ActionModel> = if c3 {
            Seq::empty()
        } else {
            seq![m3]
        };
        assert(g1@ =~= o + x0);
        assert(g2@ =~= g1@ + x1);
        assert(g3@ =~= g2@ + x2);
        assert(g4@ =~= g3@ + x3);
        assert(dpad_created_attempting_all(o, base@, 4) =~= Seq::<ActionModel>::empty());
        assert(dpad_created_attempting_all(o, base@, 3) =~= x3 + dpad_created_attempting_all(
            o,
            base@,
            4,
        ));
        assert(dpad_created_attempting_all(o, base@, 2) =~= x2 + dpad_created_attempting_all(
            o,
            base@,
            3,
        ));
        assert(dpad_created_attempting_all(o, base@, 1) =~= x1 + dpad_created_attempting_all(
            o,
            base@,
            2,
        ));
        assert(dpad_created_attempting_all(o, base@, 0) =~= x0 + dpad_created_attempting_all(
            o,
            base@,
            1,
        ));
        assert(g4@ =~= o + dpad_created_attempting_all(o, base@, 0));
        // The first collision, unfolded one direction at a time.
        assert(dpad_first_collision(o, base@, 4) == 4);
        assert(dpad_first_collision(o, base@, 3) == (if c3 {
            3int
        } else {
            4int
        }));
        assert(dpad_first_collision(o, base@, 2) == (if c2 {
            2int
        } else {
            dpad_first_collision(o, base@, 3)
        }));
        assert(dpad_first_collision(o, base@, 1) == (if c1 {
            1int
        } else {
            dpad_first_collision(o, base@, 2)
        }));
        assert(dpad_first_collision(o, base@, 0) == (if c0 {
            0int
        } else {
            dpad_first_collision(o, base@, 1)
        }));
    }
    let up = match r_up {
        Result::Ok(a) => a,
        Result::Err(e) => {
            return Err(e);
        },
    };
    let left = match r_left {
        Result::Ok(a) => a,
        Result::Err(e) => {
            return Err(e);
        },
    };
    let down = match r_down {
        Result::Ok(a) => a,
        Result::Err(e) => {
            return Err(e);
        },
    };
    let right = match r_right {
        Result::Ok(a) => a,
        Result::Err(e) => {
            return Err(e);
        },
    };
    proof {
        let n = g0@.len() as int;
        assert(g4@ =~= g0@ + seq![
            ActionModel { name: dpad_source_name(base@, 0), tag: TypeTag::Bool },
            ActionModel { name: dpad_source_name(base@, 1), tag: TypeTag::Bool },
            ActionModel { name: dpad_source_name(base@, 2), tag: TypeTag::Bool },
            ActionModel { name: dpad_source_name(base@, 3), tag: TypeTag::Bool },
        ]);
        assert forall|k: int|
            0 <= k < 4 implies g4.has_name(#[trigger] dpad_source_name(base@, k)) && g4@[g4.id_of(
            dpad_source_name(base@, k),
        )].tag == TypeTag::Bool by {
            assert(g4@[n + k].name == dpad_source_name(base@, k));
            crate::session::lemma_id_of_unique(g4, n + k, dpad_source_name(base@, k));
        }
    }
    Ok((up, left, down, right))
}

/// A mechanism to compute virtual actions from other actions' current
/// state. The closed set of filter kinds, dispatched by tag.
#[derive(Clone, Copy)]
pub enum Filter {
    DPad(DPad),
}

impl Filter {
    pub open spec fn wf(self) -> bool {
        match self {
            Filter::DPad(d) => d.wf(),
        }
    }

    /// The actions this filter reads.
    pub open spec fn spec_sources(self) -> Seq<ActionId> {
        match self {
            Filter::DPad(d) => seq![d.up.id, d.left.id, d.down.id, d.right.id],
        }
    }

    /// The actions this filter writes.
    pub open spec fn spec_targets(self) -> Seq<ActionId> {
        match self {
            Filter::DPad(d) => seq![d.target.id],
        }
    }

    /// True when the seat state carries the right payload types for this
    /// filter's sources and targets.
    pub open spec fn seat_compat(self, m: Map<int, CellModel>) -> bool {
        match self {
            Filter::DPad(d) => d.seat_compat(m),
        }
    }

    /// True when every action handle this filter holds agrees with the
    /// type table `types`.
    pub open spec fn types_ok(self, types: Seq<TypeTag>) -> bool {
        match self {
            Filter::DPad(d) => d.types_ok(types),
        }
    }

    /// The seat state after this filter recomputes its targets from seat
    /// state `m`.
    pub open spec fn apply_model(self, m: Map<int, CellModel>) -> Map<int, CellModel> {
        match self {
            Filter::DPad(d) => push_model(m, d.target.id, d.output(m)),
        }
    }

    /// Actions this filter reads.
    pub fn source_actions(&self) -> (r: Vec<ActionId>)
        ensures
            r@ == self.spec_sources(),
    {
        match self {
            Filter::DPad(d) => d.source_actions(),
        }
    }

    /// Actions this filter writes.
    pub fn target_actions(&self) -> (r: Vec<ActionId>)
        ensures
            r@ == self.spec_targets(),
    {
        match self {
            Filter::DPad(d) => d.target_actions(),
        }
    }

    /// Recompute this filter's targets from the current seat state and push
    /// the results into `seat`.
    pub fn apply(&self, seat: &mut Seat)
        requires
            self.wf(),
            old(seat).wf(),
            self.seat_compat(old(seat)@),
        ensures
            final(seat).wf(),
            final(seat)@ == self.apply_model(old(seat)@),
    {
        match self {
            Filter::DPad(d) => d.apply(seat),
        }
    }

    /// True when `session` defines every action this filter touches, so the
    /// filter can be serialized against it.
    pub open spec fn save_ok(self, session: Session) -> bool {
        match self {
            Filter::DPad(d) => session.defines(d.target.id),
        }
    }

    /// The configuration-file name of this filter's kind.
    pub open spec fn spec_kind(self) -> Seq<char> {
        match self {
            Filter::DPad(_) => dpad_kind_name(),
        }
    }

    /// The target-action names this filter serializes to, resolved through
    /// `session`.
    pub open spec fn spec_target_names(self, session: Session) -> Seq<Seq<char>> {
        match self {
            Filter::DPad(d) => seq![session@[d.target.id.0 as int].name],
        }
    }

    /// Convert this filter into serializable form.
    pub fn save(&self, session: &Session) -> (r: FilterConfig)
        requires
            self.save_ok(*session),
        ensures
            r.ty@ == self.spec_kind(),
            r.targets@.len() == self.spec_target_names(*session).len(),
            forall|i: int| 0 <= i < r.targets@.len() ==> r.targets@[i]@ == self.spec_target_names(
                *session,
            )[i],
    {
        match self {
            Filter::DPad(d) => d.save(session),
        }
    }
}

/// Read the current boolean state of `a`, treating an action that never
/// fired as `false`.
fn sample_held(seat: &Seat, a: Action) -> (r: bool)
    requires
        a.tag == TypeTag::Bool,
        seat.tag_ok(a),
    ensures
        r == held(seat@, a),
{
    match seat.get(a) {
        Option::Some(v) => match v {
            Value::Bool(b) => b,
            _ => {
                proof {
                    assert(false);
                }
                false
            },
        },
        Option::None => false,
    }
}

} // verus!
