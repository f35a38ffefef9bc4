use enact::Action;
use enact::ActionId;
use enact::Bindings;
use enact::Filter;
use enact::Input;
use enact::Seat;
use enact::Session;
use enact::TypeTag;
use enact::Value;
use enact::Vec2;
use enact::has_type;
use enact::DPad;

fn key(text: &str, tag: TypeTag) -> Input {
    Input { source: "keyboard".to_owned(), text: text.to_owned(), tag }
}

#[test]
fn create_action_assigns_dense_ids() {
    let mut session = Session::new();
    let jump = session.create_action("jump", TypeTag::Unit).unwrap();
    let walk = session.create_action("walk", TypeTag::Bool).unwrap();
    assert_eq!(jump.id(), ActionId(0));
    assert_eq!(walk.id(), ActionId(1));
    assert_eq!(session.action_id("jump"), Some(ActionId(0)));
    assert_eq!(session.action_id("walk"), Some(ActionId(1)));
    assert_eq!(session.action_id("fly"), None);
    assert_eq!(session.action_name(ActionId(0)), "jump");
    assert_eq!(session.action_name(ActionId(1)), "walk");
}

#[test]
fn duplicate_action_fails_and_first_stays_usable() {
    let mut session = Session::new();
    let jump = session.create_action("jump", TypeTag::Unit).unwrap();
    let second = session.create_action("jump", TypeTag::Unit);
    assert!(second.is_err());
    assert_eq!(second.unwrap_err().name, "jump");
    // The first handle still works against the session and the seat.
    assert_eq!(session.action_name(jump.id()), "jump");
    let mut seat = Seat::new();
    seat.push(jump.id(), Value::Unit).unwrap();
    assert_eq!(seat.poll(jump), Some(Value::Unit));
}

#[test]
fn action_recovers_typed_handle() {
    let mut session = Session::new();
    let walk = session.create_action("walk", TypeTag::Bool).unwrap();
    let ok = session.action(walk.id(), TypeTag::Bool).unwrap();
    assert_eq!(ok, walk);
    let err = session.action(walk.id(), TypeTag::Vec2).unwrap_err();
    assert_eq!(err.expected, TypeTag::Vec2);
    assert_eq!(err.actual, TypeTag::Bool);
}

#[test]
fn check_type_reports_both_types() {
    let mut session = Session::new();
    let walk = session.create_action("walk", TypeTag::Bool).unwrap();
    assert!(session.check_type(walk.id(), &key("w", TypeTag::Bool)).is_ok());
    let err = session.check_type(walk.id(), &key("w", TypeTag::Unit)).unwrap_err();
    assert_eq!(err.expected, TypeTag::Unit);
    assert_eq!(err.actual, TypeTag::Bool);
}

#[test]
fn has_type_matches_input_tag() {
    assert!(has_type(TypeTag::Bool, &key("w", TypeTag::Bool)));
    assert!(!has_type(TypeTag::Unit, &key("w", TypeTag::Bool)));
}

#[test]
fn seat_get_returns_latest_without_consuming() {
    let mut session = Session::new();
    let walk = session.create_action("walk", TypeTag::Bool).unwrap();
    let mut seat = Seat::new();
    assert_eq!(seat.get(walk), None);
    seat.push(walk.id(), Value::Bool(true)).unwrap();
    assert_eq!(seat.get(walk), Some(Value::Bool(true)));
    assert_eq!(seat.get(walk), Some(Value::Bool(true)));
    seat.push(walk.id(), Value::Bool(false)).unwrap();
    assert_eq!(seat.get(walk), Some(Value::Bool(false)));
}

#[test]
fn seat_poll_is_fifo_and_drains_to_none() {
    let mut session = Session::new();
    let walk = session.create_action("walk", TypeTag::Bool).unwrap();
    let mut seat = Seat::new();
    seat.push(walk.id(), Value::Bool(true)).unwrap();
    seat.push(walk.id(), Value::Bool(false)).unwrap();
    seat.push(walk.id(), Value::Bool(true)).unwrap();
    assert_eq!(seat.poll(walk), Some(Value::Bool(true)));
    assert_eq!(seat.poll(walk), Some(Value::Bool(false)));
    assert_eq!(seat.poll(walk), Some(Value::Bool(true)));
    assert_eq!(seat.poll(walk), None);
    assert_eq!(seat.poll(walk), None);
    seat.push(walk.id(), Value::Bool(false)).unwrap();
    assert_eq!(seat.poll(walk), Some(Value::Bool(false)));
}

#[test]
fn seat_push_rejects_changed_cell_type() {
    let mut seat = Seat::new();
    seat.push(ActionId(3), Value::Bool(true)).unwrap();
    let err = seat.push(ActionId(3), Value::Unit).unwrap_err();
    assert_eq!(err.expected, TypeTag::Bool);
    assert_eq!(err.actual, TypeTag::Unit);
    // The failed push changed nothing.
    let walk = Action { id: ActionId(3), tag: TypeTag::Bool };
    assert_eq!(seat.get(walk), Some(Value::Bool(true)));
}

#[test]
fn flush_empties_queues_but_keeps_latest() {
    let mut session = Session::new();
    let walk = session.create_action("walk", TypeTag::Bool).unwrap();
    let jump = session.create_action("jump", TypeTag::Unit).unwrap();
    let mut seat = Seat::new();
    seat.push(walk.id(), Value::Bool(true)).unwrap();
    seat.push(walk.id(), Value::Bool(false)).unwrap();
    seat.push(jump.id(), Value::Unit).unwrap();
    seat.flush();
    assert_eq!(seat.poll(walk), None);
    assert_eq!(seat.poll(jump), None);
    assert_eq!(seat.get(walk), Some(Value::Bool(false)));
    assert_eq!(seat.get(jump), Some(Value::Unit));
}

#[test]
fn bind_then_handle_delivers_payload_once() {
    let mut session = Session::new();
    let walk = session.create_action("walk", TypeTag::Bool).unwrap();
    let mut bindings = Bindings::new();
    bindings.bind(key("w", TypeTag::Bool), walk.id(), &session).unwrap();
    let mut seat = Seat::new();
    bindings.handle(&key("w", TypeTag::Bool), Value::Bool(true), &mut seat).unwrap();
    // Observed exactly once via poll, persistently via get.
    assert_eq!(seat.poll(walk), Some(Value::Bool(true)));
    assert_eq!(seat.poll(walk), None);
    assert_eq!(seat.get(walk), Some(Value::Bool(true)));
    assert_eq!(seat.get(walk), Some(Value::Bool(true)));
}

#[test]
fn bind_rejects_type_mismatch_and_adds_nothing() {
    let mut session = Session::new();
    let walk = session.create_action("walk", TypeTag::Bool).unwrap();
    let mut bindings = Bindings::new();
    let err = bindings.bind(key("w", TypeTag::Unit), walk.id(), &session).unwrap_err();
    assert_eq!(err.expected, TypeTag::Unit);
    assert_eq!(err.actual, TypeTag::Bool);
    // No routing entry was added: handling the input is a no-op.
    let mut seat = Seat::new();
    bindings.handle(&key("w", TypeTag::Unit), Value::Unit, &mut seat).unwrap();
    assert_eq!(seat.get(walk), None);
    assert_eq!(seat.poll(walk), None);
}

#[test]
fn handle_unbound_input_is_harmless() {
    let mut session = Session::new();
    let walk = session.create_action("walk", TypeTag::Bool).unwrap();
    let bindings = Bindings::new();
    let mut seat = Seat::new();
    bindings.handle(&key("w", TypeTag::Bool), Value::Bool(true), &mut seat).unwrap();
    assert_eq!(seat.get(walk), None);
}

#[test]
fn handle_rejects_payload_of_wrong_type() {
    let mut session = Session::new();
    let walk = session.create_action("walk", TypeTag::Bool).unwrap();
    let mut bindings = Bindings::new();
    bindings.bind(key("w", TypeTag::Bool), walk.id(), &session).unwrap();
    let mut seat = Seat::new();
    let err = bindings.handle(&key("w", TypeTag::Bool), Value::Unit, &mut seat).unwrap_err();
    assert_eq!(err.expected, TypeTag::Bool);
    assert_eq!(err.actual, TypeTag::Unit);
    assert_eq!(seat.get(walk), None);
}

#[test]
fn handle_notifies_bound_actions_in_binding_order() {
    let mut session = Session::new();
    let a = session.create_action("a", TypeTag::Bool).unwrap();
    let b = session.create_action("b", TypeTag::Bool).unwrap();
    let mut bindings = Bindings::new();
    bindings.bind(key("w", TypeTag::Bool), a.id(), &session).unwrap();
    bindings.bind(key("w", TypeTag::Bool), b.id(), &session).unwrap();
    let mut seat = Seat::new();
    bindings.handle(&key("w", TypeTag::Bool), Value::Bool(true), &mut seat).unwrap();
    assert_eq!(seat.get(a), Some(Value::Bool(true)));
    assert_eq!(seat.get(b), Some(Value::Bool(true)));
}

#[test]
fn cloned_session_and_bindings_behave_identically() {
    let mut session = Session::new();
    let walk = session.create_action("walk", TypeTag::Bool).unwrap();
    let mut bindings = Bindings::new();
    bindings.bind(key("w", TypeTag::Bool), walk.id(), &session).unwrap();
    let session2 = session.clone();
    let bindings2 = bindings.clone();
    assert_eq!(session2.action_id("walk"), Some(walk.id()));
    assert_eq!(session2.action_name(walk.id()), "walk");
    let mut seat = Seat::new();
    bindings2.handle(&key("w", TypeTag::Bool), Value::Bool(true), &mut seat).unwrap();
    assert_eq!(seat.get(walk), Some(Value::Bool(true)));
    // Defaults are the empty values.
    assert_eq!(Session::default().action_id("walk"), None);
    let mut seat = Seat::default();
    assert_eq!(seat.poll(walk), None);
}

#[test]
fn dpad_derives_source_actions_from_target_name() {
    let mut session = Session::new();
    let mov = session.create_action("move", TypeTag::Vec2).unwrap();
    let dpad = DPad::new(&mut session, mov).unwrap();
    assert_eq!(session.action_name(dpad.up().id()), "move.up");
    assert_eq!(session.action_name(dpad.left().id()), "move.left");
    assert_eq!(session.action_name(dpad.down().id()), "move.down");
    assert_eq!(session.action_name(dpad.right().id()), "move.right");
    assert_eq!(dpad.up().tag, TypeTag::Bool);
}

#[test]
fn dpad_new_fails_on_name_collision() {
    let mut session = Session::new();
    let mov = session.create_action("move", TypeTag::Vec2).unwrap();
    session.create_action("move.up", TypeTag::Bool).unwrap();
    match DPad::new(&mut session, mov) {
        Ok(_) => panic!("collision not detected"),
        Err(e) => assert_eq!(e.name, "move.up"),
    }
}

#[test]
fn dpad_new_reports_first_collision_and_creates_the_rest() {
    let mut session = Session::new();
    let mov = session.create_action("move", TypeTag::Vec2).unwrap();
    // The second direction collides; the error names it, while every
    // non-colliding direction is still created.
    session.create_action("move.left", TypeTag::Bool).unwrap();
    match DPad::new(&mut session, mov) {
        Ok(_) => panic!("collision not detected"),
        Err(e) => assert_eq!(e.name, "move.left"),
    }
    assert!(session.action_id("move.up").is_some());
    assert!(session.action_id("move.down").is_some());
    assert!(session.action_id("move.right").is_some());
}

#[test]
fn dpad_combines_directions_into_vector() {
    let mut session = Session::new();
    let mov = session.create_action("move", TypeTag::Vec2).unwrap();
    let dpad = DPad::new(&mut session, mov).unwrap();
    let up = dpad.up();
    let left = dpad.left();
    let right = dpad.right();
    let mut bindings = Bindings::new();
    bindings.bind(key("w", TypeTag::Bool), up.id(), &session).unwrap();
    bindings.bind(key("a", TypeTag::Bool), left.id(), &session).unwrap();
    bindings.bind(key("d", TypeTag::Bool), right.id(), &session).unwrap();
    bindings.add_filter(Filter::DPad(dpad), &session);
    let mut seat = Seat::new();
    bindings.handle(&key("w", TypeTag::Bool), Value::Bool(true), &mut seat).unwrap();
    bindings.handle(&key("a", TypeTag::Bool), Value::Bool(false), &mut seat).unwrap();
    // down and right never pushed: treated as false.
    assert_eq!(seat.get(mov), Some(Value::Vec2(Vec2 { x: 0, y: 1 })));
    bindings.handle(&key("d", TypeTag::Bool), Value::Bool(true), &mut seat).unwrap();
    assert_eq!(seat.get(mov), Some(Value::Vec2(Vec2 { x: 1, y: 1 })));
}
