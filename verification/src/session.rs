//! The action registry.
//!
//! A [`Session`] owns the set of defined actions. Each action gets a dense
//! integer identity, allocated sequentially from 0 and never reused, a name
//! unique within the session, and a payload type tag that never changes.
//! A session holds pure metadata; runtime values live in a
//! [`Seat`](crate::seat::Seat).

use vstd::prelude::*;

use crate::input::Input;
use crate::types::Action;
use crate::types::ActionId;
use crate::types::DuplicateAction;
use crate::types::TypeError;
use crate::types::TypeTag;

verus! {

/// Mathematical model of one action definition: its unique name and its
/// payload type tag. The action's identity is its position in the session.
pub struct ActionModel {
    pub name: Seq<char>,
    pub tag: TypeTag,
}

/// True when some definition in the sequence is named `name`. The same
/// membership as [`Session::has_name`], usable on modelled session states
/// that no `Session` value holds.
pub open spec fn names_contain(s: Seq<ActionModel>, name: Seq<char>) -> bool {
    exists|i: int| 0 <= i < s.len() && (#[trigger] s[i]).name == name
}

struct ActionDefinition {
    name: String,
    tag: TypeTag,
}

impl View for ActionDefinition {
    type V = ActionModel;

    closed spec fn view(&self) -> ActionModel {
        ActionModel { name: self.name@, tag: self.tag }
    }
}

/// A collection of action definitions.
///
/// The model is the sequence of definitions in creation order; the action
/// with identifier `i` is the `i`-th entry.
pub struct Session {
    actions: Vec<ActionDefinition>,
}

impl View for Session {
    type V = Seq<ActionModel>;

    closed spec fn view(&self) -> Seq<ActionModel> {
        self.actions@.map_values(|d: ActionDefinition| d@)
    }
}

impl Session {
    /// Action names are unique within a session, and identifiers fit the
    /// dense 32-bit identifier space.
    pub open spec fn wf(self) -> bool {
        &&& forall|i: int, j: int|
            0 <= i < j < self@.len() ==> (#[trigger] self@[i]).name != (#[trigger] self@[j]).name
        &&& self@.len() <= u32::MAX
    }

    /// True when `id` was allocated by this session.
    pub open spec fn defines(self, id: ActionId) -> bool {
        id.0 < self@.len()
    }

    /// True when some action in this session is named `name`.
    pub open spec fn has_name(self, name: Seq<char>) -> bool {
        exists|i: int| 0 <= i < self@.len() && (#[trigger] self@[i]).name == name
    }

    /// The identifier of the action named `name`. Meaningful only when
    /// `has_name(name)` holds; unique by name uniqueness.
    pub open spec fn id_of(self, name: Seq<char>) -> int {
        choose|i: int| 0 <= i < self@.len() && (#[trigger] self@[i]).name == name
    }

    /// Create a session with no actions.
    pub fn new() -> (r: Session)
        ensures
            r@ == Seq::<ActionModel>::empty(),
            r.wf(),
    {
        let r = Session { actions: Vec::new() };
        proof {
            assert(r@ =~= Seq::<ActionModel>::empty());
        }
        r
    }

    /// Create an action with the unique identifier `name` and payload type
    /// `tag`.
    ///
    /// The name identifies the action in configuration files and
    /// diagnostics, so it should be terse but human-readable, like a
    /// variable name. Fails with [`DuplicateAction`], changing nothing, iff
    /// the name is already taken; otherwise the new action gets the next
    /// integer identity.
    pub fn create_action(&mut self, name: &str, tag: TypeTag) -> (r: Result<
        Action,
        DuplicateAction,
    >)
        requires
            old(self).wf(),
            old(self)@.len() < u32::MAX,
        ensures
            final(self).wf(),
            r is Ok <==> !old(self).has_name(name@),
            r matches Ok(a) ==> a == (Action { id: ActionId(old(self)@.len() as u32), tag })
                && final(self)@ == old(self)@.push(ActionModel { name: name@, tag }),
            r matches Err(e) ==> final(self)@ == old(self)@ && e.name@ == name@,
    {
        let owned: String = name.to_owned();
        let n = self.actions.len();
        let mut i: usize = 0;
        while i < n
            invariant
                i <= n,
                n == self@.len(),
                owned@ == name@,
                self@ == old(self)@,
                self.wf(),
                forall|j: int| 0 <= j < i ==> (#[trigger] self@[j]).name != name@,
            decreases n - i,
        {
            if self.actions[i].name == owned {
                proof {
                    assert(self@[i as int].name == name@);
                    assert(self.has_name(name@));
                }
                return Err(DuplicateAction { name: owned });
            }
            i = i + 1;
        }
        let id = ActionId(n as u32);
        let ghost prev = self@;
        self.actions.push(ActionDefinition { name: owned, tag });
        proof {
            assert(self@ =~= prev.push(ActionModel { name: name@, tag }));
        }
        Ok(Action { id, tag })
    }

    /// Get the typed handle with payload type `tag` for an identifier.
    ///
    /// Recovers a typed handle for an identifier that was obtained
    /// generically, such as from a configuration file. Fails with a
    /// [`TypeError`] iff the action was created with a different payload
    /// type.
    pub fn action(&self, id: ActionId, tag: TypeTag) -> (r: Result<Action, TypeError>)
        requires
            self.defines(id),
        ensures
            r is Ok <==> self@[id.0 as int].tag == tag,
            r matches Ok(a) ==> a == (Action { id, tag }),
            r matches Err(e) ==> e == (TypeError { expected: tag, actual: self@[id.0 as int].tag }),
    {
        let def = &self.actions[id.0 as usize];
        if def.tag == tag {
            Ok(Action { id, tag })
        } else {
            Err(TypeError { expected: tag, actual: def.tag })
        }
    }

    /// Get the identifier of the action named `name`, if any.
    pub fn action_id(&self, name: &str) -> (r: Option<ActionId>)
        requires
            self.wf(),
        ensures
            r is Some <==> self.has_name(name@),
            r is None <==> !self.has_name(name@),
            r matches Some(id) ==> self.defines(id) && self@[id.0 as int].name == name@
                && id.0 as int == self.id_of(name@),
    {
        let owned: String = name.to_owned();
        let n = self.actions.len();
        let mut i: usize = 0;
        while i < n
            invariant
                i <= n,
                n == self@.len(),
                owned@ == name@,
                self.wf(),
                forall|j: int| 0 <= j < i ==> (#[trigger] self@[j]).name != name@,
            decreases n - i,
        {
            if self.actions[i].name == owned {
                proof {
                    assert(self@[i as int].name == name@);
                    assert(self.has_name(name@));
                    let j = self.id_of(name@);
                    assert(0 <= j < self@.len() && self@[j].name == name@);
                    if j < i as int {
                        assert(self@[j].name != self@[i as int].name);
                    } else if j > i as int {
                        assert(self@[i as int].name != self@[j].name);
                    }
                    assert(j == i as int);
                }
                return Some(ActionId(i as u32));
            }
            i = i + 1;
        }
        None
    }

    /// Get the name of the action with identifier `id`.
    pub fn action_name(&self, id: ActionId) -> (r: &str)
        requires
            self.defines(id),
        ensures
            r@ == self@[id.0 as int].name,
    {
        self.actions[id.0 as usize].name.as_str()
    }

    /// The number of actions defined so far; also the identifier the next
    /// created action will get.
    pub fn action_count(&self) -> (r: usize)
        ensures
            r == self@.len(),
    {
        self.actions.len()
    }

    /// Get the payload type tag of the action with identifier `id`.
    pub fn action_tag(&self, id: ActionId) -> (r: TypeTag)
        requires
            self.defines(id),
        ensures
            r == self@[id.0 as int].tag,
    {
        self.actions[id.0 as usize].tag
    }

    /// Check whether `input` can be bound to the action with identifier
    /// `id`: inputs can only be bound to actions that carry the same payload
    /// type. On mismatch the error describes the expected type (the input's)
    /// and the actual type (the action's).
    pub fn check_type(&self, id: ActionId, input: &Input) -> (r: Result<(), TypeError>)
        requires
            self.defines(id),
        ensures
            r is Ok <==> self@[id.0 as int].tag == input.tag,
            r matches Err(e) ==> e == (TypeError {
                expected: input.tag,
                actual: self@[id.0 as int].tag,
            }),
    {
        let def = &self.actions[id.0 as usize];
        if def.tag == input.tag {
            Ok(())
        } else {
            Err(TypeError { expected: input.tag, actual: def.tag })
        }
    }
}

impl Default for Session {
    /// See [`Session::new`].
    fn default() -> (r: Session)
        ensures
            r@ == Seq::<ActionModel>::empty(),
            r.wf(),
    {
        Session::new()
    }
}

impl Clone for Session {
    /// A cloned session defines exactly the same actions.
    fn clone(&self) -> (r: Session)
        ensures
            r@ == self@,
    {
        let n = self.actions.len();
        let mut actions: Vec<ActionDefinition> = Vec::new();
        let mut i: usize = 0;
        while i < n
            invariant
                i <= n,
                n == self.actions@.len(),
                actions@.len() == i,
                forall|j: int| 0 <= j < i ==> #[trigger] actions@[j]@ == self.actions@[j]@,
            decreases n - i,
        {
            let d = &self.actions[i];
            actions.push(ActionDefinition { name: d.name.clone(), tag: d.tag });
            i = i + 1;
        }
        let r = Session { actions };
        proof {
            assert(r@ =~= self@);
        }
        r
    }
}

/// The type table of a session: the payload type tag of each action, by
/// identifier.
pub open spec fn session_types(s: Session) -> Seq<TypeTag> {
    s@.map_values(|m: ActionModel| m.tag)
}

/// In a well-formed session an index holding `name` is the unique one, so
/// it is the one `id_of` denotes.
pub proof fn lemma_id_of_unique(s: Session, i: int, name: Seq<char>)
    requires
        s.wf(),
        0 <= i < s@.len(),
        s@[i].name == name,
    ensures
        s.has_name(name),
        s.id_of(name) == i,
{
    assert(s.has_name(name));
    let j = s.id_of(name);
    assert(0 <= j < s@.len() && s@[j].name == name);
    if j < i {
        assert(s@[j].name != s@[i].name);
    } else if j > i {
        assert(s@[i].name != s@[j].name);
    }
}

/// After appending one definition, a name is present iff it was present
/// before or it is the new definition's name.
pub proof fn lemma_has_name_after_push(s0: Session, s1: Session, m: ActionModel, name: Seq<char>)
    requires
        s1@ == s0@.push(m),
    ensures
        s1.has_name(name) <==> (s0.has_name(name) || m.name == name),
{
    if s1.has_name(name) {
        let i = choose|i: int| 0 <= i < s1@.len() && (#[trigger] s1@[i]).name == name;
        if i < s0@.len() {
            assert(s1@[i] == s0@[i]);
            assert(s0.has_name(name));
        } else {
            assert(s1@[i] == m);
        }
    }
    if s0.has_name(name) {
        let i = choose|i: int| 0 <= i < s0@.len() && (#[trigger] s0@[i]).name == name;
        assert(s1@[i] == s0@[i]);
        assert(s1.has_name(name));
    }
    if m.name == name {
        assert(s1@[s0@.len() as int] == m);
        assert(s1.has_name(name));
    }
}

/// True iff `input` produces payloads of type `tag`.
pub fn has_type(tag: TypeTag, input: &Input) -> (r: bool)
    ensures
        r == (input.tag == tag),
{
    input.tag == tag
}

} // verus!
