use enact::Bindings;
use enact::BindingsFactory;
use enact::DPad;
use enact::Filter;
use enact::Config;
use enact::FilterConfig;
use enact::FilterLoadError;
use enact::Input;
use enact::LoadError;
use enact::Seat;
use enact::Session;
use enact::SourceConfig;
use enact::SourceSpec;
use enact::TypeTag;
use enact::Value;
use enact::Vec2;
use enact::VocabEntry;

fn keyboard_spec() -> SourceSpec {
    // Each key's text parses to a held-boolean candidate and a
    // pressed-event candidate, in that order.
    let keys = ["w", "a", "s", "d", "space"];
    let mut vocab = Vec::new();
    for k in keys {
        vocab.push(VocabEntry { text: k.to_owned(), tags: vec![TypeTag::Bool, TypeTag::Unit] });
    }
    SourceSpec { name: "keyboard".to_owned(), vocab }
}

fn key(text: &str, tag: TypeTag) -> Input {
    Input { source: "keyboard".to_owned(), text: text.to_owned(), tag }
}

fn source_entry(ty: &str, pairs: &[(&str, &[&str])]) -> SourceConfig {
    let mut bindings = Vec::new();
    for (name, texts) in pairs {
        bindings.push((
            (*name).to_owned(),
            texts.iter().map(|t| (*t).to_owned()).collect::<Vec<String>>(),
        ));
    }
    SourceConfig { ty: ty.to_owned(), bindings }
}

#[test]
fn unregistered_source_is_an_error_but_others_still_load() {
    let mut session = Session::new();
    let jump = session.create_action("jump", TypeTag::Unit).unwrap();
    let mut factory = BindingsFactory::new();
    factory.register_source(keyboard_spec());
    let config = Config {
        sources: vec![
            source_entry("unregistered", &[("jump", &["x"])]),
            source_entry("keyboard", &[("jump", &["space"])]),
        ],
        filters: Vec::new(),
    };
    let (bindings, errors) = factory.load(&mut session, &config);
    assert_eq!(errors.len(), 1);
    assert!(matches!(&errors[0], LoadError::UnknownSource { name } if name == "unregistered"));
    // The well-formed keyboard entry still took effect.
    let mut seat = Seat::new();
    bindings.handle(&key("space", TypeTag::Unit), Value::Unit, &mut seat).unwrap();
    assert_eq!(seat.poll(jump), Some(Value::Unit));
}

#[test]
fn binding_text_selects_candidate_matching_action_type() {
    // "space" parses to a held-boolean and a pressed-event candidate; the
    // instantaneous action selects the pressed-event one, a boolean action
    // the held one.
    let mut session = Session::new();
    let fire = session.create_action("fire", TypeTag::Unit).unwrap();
    let hold = session.create_action("hold", TypeTag::Bool).unwrap();
    let mut factory = BindingsFactory::new();
    factory.register_source(keyboard_spec());
    let config = Config {
        sources: vec![source_entry("keyboard", &[("fire", &["space"]), ("hold", &["space"])])],
        filters: Vec::new(),
    };
    let (bindings, errors) = factory.load(&mut session, &config);
    assert_eq!(errors.len(), 0);
    let mut seat = Seat::new();
    // The pressed-event input reaches only the instantaneous action.
    bindings.handle(&key("space", TypeTag::Unit), Value::Unit, &mut seat).unwrap();
    assert_eq!(seat.poll(fire), Some(Value::Unit));
    assert_eq!(seat.get(hold), None);
    // The held-boolean input reaches only the boolean action.
    bindings.handle(&key("space", TypeTag::Bool), Value::Bool(true), &mut seat).unwrap();
    assert_eq!(seat.get(hold), Some(Value::Bool(true)));
    assert_eq!(seat.poll(fire), None);
}

#[test]
fn unknown_action_and_unknown_input_are_recorded() {
    let mut session = Session::new();
    session.create_action("jump", TypeTag::Unit).unwrap();
    let mut factory = BindingsFactory::new();
    factory.register_source(keyboard_spec());
    let config = Config {
        sources: vec![source_entry("keyboard", &[("fly", &["space"]), ("jump", &["pedal"])])],
        filters: Vec::new(),
    };
    let (_, errors) = factory.load(&mut session, &config);
    assert_eq!(errors.len(), 2);
    assert!(matches!(&errors[0], LoadError::UnknownAction { name } if name == "fly"));
    assert!(matches!(&errors[1], LoadError::UnknownInput { input } if input == "pedal"));
}

#[test]
fn input_type_error_lists_rejected_candidates() {
    let mut session = Session::new();
    session.create_action("look", TypeTag::Vec2).unwrap();
    let mut factory = BindingsFactory::new();
    factory.register_source(keyboard_spec());
    let config = Config {
        sources: vec![source_entry("keyboard", &[("look", &["space"])])],
        filters: Vec::new(),
    };
    let (_, errors) = factory.load(&mut session, &config);
    assert_eq!(errors.len(), 1);
    match &errors[0] {
        LoadError::InputTypeError { action_name, input, actual, expected } => {
            assert_eq!(action_name, "look");
            assert_eq!(input, "space");
            assert_eq!(*actual, TypeTag::Vec2);
            assert_eq!(*expected, vec![TypeTag::Bool, TypeTag::Unit]);
        },
        _ => panic!("unexpected error"),
    }
}

#[test]
fn unknown_filter_kind_is_recorded() {
    let mut session = Session::new();
    let mut factory = BindingsFactory::new();
    let config = Config {
        sources: Vec::new(),
        filters: vec![FilterConfig { ty: "mixer".to_owned(), targets: vec!["move".to_owned()] }],
    };
    let (_, errors) = factory.load(&mut session, &config);
    assert_eq!(errors.len(), 1);
    assert!(matches!(
        &errors[0],
        LoadError::Filter(FilterLoadError::UnknownFilter { ty }) if ty == "mixer"
    ));
}

#[test]
fn filters_are_disabled_in_an_empty_factory() {
    let mut session = Session::new();
    session.create_action("move", TypeTag::Vec2).unwrap();
    let mut factory = BindingsFactory::empty();
    let config = Config {
        sources: Vec::new(),
        filters: vec![FilterConfig { ty: "dpad".to_owned(), targets: vec!["move".to_owned()] }],
    };
    let (_, errors) = factory.load(&mut session, &config);
    assert_eq!(errors.len(), 1);
    assert!(matches!(
        &errors[0],
        LoadError::Filter(FilterLoadError::UnknownFilter { ty }) if ty == "dpad"
    ));
    // After registering the filter kind, the same entry loads.
    factory.register_filter();
    let (_, errors) = factory.load(&mut session, &config);
    assert_eq!(errors.len(), 0);
}

#[test]
fn filter_wrong_output_count_is_recorded() {
    let mut session = Session::new();
    let factory = BindingsFactory::new();
    let config = Config {
        sources: Vec::new(),
        filters: vec![FilterConfig { ty: "dpad".to_owned(), targets: Vec::new() }],
    };
    let (_, errors) = factory.load(&mut session, &config);
    assert_eq!(errors.len(), 1);
    assert!(matches!(
        &errors[0],
        LoadError::Filter(FilterLoadError::WrongOutputCount { expected: 1 })
    ));
}

#[test]
fn filter_unknown_target_is_recorded() {
    let mut session = Session::new();
    let factory = BindingsFactory::new();
    let config = Config {
        sources: Vec::new(),
        filters: vec![FilterConfig { ty: "dpad".to_owned(), targets: vec!["move".to_owned()] }],
    };
    let (_, errors) = factory.load(&mut session, &config);
    assert_eq!(errors.len(), 1);
    assert!(matches!(
        &errors[0],
        LoadError::Filter(FilterLoadError::UnknownTarget { output }) if output == "move"
    ));
}

#[test]
fn filter_target_type_mismatch_is_recorded() {
    let mut session = Session::new();
    session.create_action("move", TypeTag::Bool).unwrap();
    let factory = BindingsFactory::new();
    let config = Config {
        sources: Vec::new(),
        filters: vec![FilterConfig { ty: "dpad".to_owned(), targets: vec!["move".to_owned()] }],
    };
    let (_, errors) = factory.load(&mut session, &config);
    assert_eq!(errors.len(), 1);
    match &errors[0] {
        LoadError::Filter(FilterLoadError::TypeError { filter_ty, action, error }) => {
            assert_eq!(filter_ty, "dpad");
            assert_eq!(action, "move");
            assert_eq!(error.expected, TypeTag::Vec2);
            assert_eq!(error.actual, TypeTag::Bool);
        },
        _ => panic!("unexpected error"),
    }
}

#[test]
fn filter_duplicate_source_is_recorded_but_filter_still_loads() {
    let mut session = Session::new();
    let mov = session.create_action("move", TypeTag::Vec2).unwrap();
    // All four derived boolean actions already exist, as after an earlier
    // load of the same filter; the collision is recorded, and since every
    // derived name resolves to a boolean the filter itself still loads.
    session.create_action("move.up", TypeTag::Bool).unwrap();
    session.create_action("move.left", TypeTag::Bool).unwrap();
    session.create_action("move.down", TypeTag::Bool).unwrap();
    session.create_action("move.right", TypeTag::Bool).unwrap();
    let mut factory = BindingsFactory::new();
    factory.register_source(keyboard_spec());
    let config = Config {
        sources: vec![source_entry("keyboard", &[("move.up", &["w"])])],
        filters: vec![FilterConfig { ty: "dpad".to_owned(), targets: vec!["move".to_owned()] }],
    };
    let (bindings, errors) = factory.load(&mut session, &config);
    assert_eq!(errors.len(), 1);
    assert!(matches!(
        &errors[0],
        LoadError::Filter(FilterLoadError::DuplicateSource { name }) if name == "move.up"
    ));
    let mut seat = Seat::new();
    bindings.handle(&key("w", TypeTag::Bool), Value::Bool(true), &mut seat).unwrap();
    assert_eq!(seat.get(mov), Some(Value::Vec2(Vec2 { x: 0, y: 1 })));
}

#[test]
fn filter_source_creation_stops_at_first_collision() {
    let mut session = Session::new();
    session.create_action("move", TypeTag::Vec2).unwrap();
    // Only the first derived direction collides; creation stops there, so
    // the later directions are not created and the filter cannot load.
    session.create_action("move.up", TypeTag::Unit).unwrap();
    let factory = BindingsFactory::new();
    let config = Config {
        sources: Vec::new(),
        filters: vec![FilterConfig { ty: "dpad".to_owned(), targets: vec!["move".to_owned()] }],
    };
    let (_, errors) = factory.load(&mut session, &config);
    assert_eq!(errors.len(), 1);
    assert!(matches!(
        &errors[0],
        LoadError::Filter(FilterLoadError::DuplicateSource { name }) if name == "move.up"
    ));
    assert_eq!(session.action_id("move.left"), None);
    assert_eq!(session.action_id("move.down"), None);
    assert_eq!(session.action_id("move.right"), None);
}

#[test]
fn dpad_loads_from_config_and_recomputes() {
    let mut session = Session::new();
    let mov = session.create_action("move", TypeTag::Vec2).unwrap();
    let mut factory = BindingsFactory::new();
    factory.register_source(keyboard_spec());
    let config = Config {
        sources: vec![
            source_entry(
                "keyboard",
                &[("move.up", &["w"]), ("move.left", &["a"]), ("move.down", &["s"]), (
                    "move.right",
                    &["d"],
                )],
            ),
        ],
        filters: vec![FilterConfig { ty: "dpad".to_owned(), targets: vec!["move".to_owned()] }],
    };
    let (bindings, errors) = factory.load(&mut session, &config);
    assert_eq!(errors.len(), 0);
    let mut seat = Seat::new();
    bindings.handle(&key("w", TypeTag::Bool), Value::Bool(true), &mut seat).unwrap();
    bindings.handle(&key("d", TypeTag::Bool), Value::Bool(true), &mut seat).unwrap();
    assert_eq!(seat.get(mov), Some(Value::Vec2(Vec2 { x: 1, y: 1 })));
    bindings.handle(&key("w", TypeTag::Bool), Value::Bool(false), &mut seat).unwrap();
    assert_eq!(seat.get(mov), Some(Value::Vec2(Vec2 { x: 1, y: 0 })));
}

#[test]
fn save_sorts_entries_by_action_name() {
    let mut session = Session::new();
    let zoom = session.create_action("zoom", TypeTag::Bool).unwrap();
    let aim = session.create_action("aim", TypeTag::Bool).unwrap();
    let mut bindings = Bindings::new();
    bindings.bind(key("w", TypeTag::Bool), zoom.id(), &session).unwrap();
    bindings.bind(key("a", TypeTag::Bool), aim.id(), &session).unwrap();
    let config = bindings.save(&session);
    assert_eq!(config.sources.len(), 1);
    assert_eq!(config.sources[0].ty, "keyboard");
    let names: Vec<&str> =
        config.sources[0].bindings.iter().map(|(n, _)| n.as_str()).collect();
    assert_eq!(names, ["aim", "zoom"]);
}

#[test]
fn save_then_load_reproduces_bindings() {
    let mut session = Session::new();
    let jump = session.create_action("jump", TypeTag::Unit).unwrap();
    let walk = session.create_action("walk", TypeTag::Bool).unwrap();
    let mut bindings = Bindings::new();
    bindings.bind(key("space", TypeTag::Unit), jump.id(), &session).unwrap();
    bindings.bind(key("w", TypeTag::Bool), walk.id(), &session).unwrap();
    bindings.bind(key("s", TypeTag::Bool), walk.id(), &session).unwrap();
    let config = bindings.save(&session);

    let mut factory = BindingsFactory::new();
    factory.register_source(keyboard_spec());
    let (reloaded, errors) = factory.load(&mut session, &config);
    assert_eq!(errors.len(), 0);

    let mut seat = Seat::new();
    reloaded.handle(&key("space", TypeTag::Unit), Value::Unit, &mut seat).unwrap();
    reloaded.handle(&key("w", TypeTag::Bool), Value::Bool(true), &mut seat).unwrap();
    assert_eq!(seat.poll(jump), Some(Value::Unit));
    assert_eq!(seat.get(walk), Some(Value::Bool(true)));
    reloaded.handle(&key("s", TypeTag::Bool), Value::Bool(false), &mut seat).unwrap();
    assert_eq!(seat.get(walk), Some(Value::Bool(false)));
}

#[test]
fn empty_config_loads_to_empty_bindings() {
    let mut session = Session::new();
    let jump = session.create_action("jump", TypeTag::Unit).unwrap();
    let factory = BindingsFactory::new();
    let config = Config { sources: Vec::new(), filters: Vec::new() };
    let (bindings, errors) = factory.load(&mut session, &config);
    assert_eq!(errors.len(), 0);
    let mut seat = Seat::new();
    bindings.handle(&key("space", TypeTag::Unit), Value::Unit, &mut seat).unwrap();
    assert_eq!(seat.poll(jump), None);
}

#[test]
fn save_then_load_reproduces_filter_graph() {
    let mut session = Session::new();
    let mov = session.create_action("move", TypeTag::Vec2).unwrap();
    let dpad = DPad::new(&mut session, mov).unwrap();
    let up = dpad.up();
    let mut bindings = Bindings::new();
    bindings.bind(key("w", TypeTag::Bool), up.id(), &session).unwrap();
    bindings.add_filter(Filter::DPad(dpad), &session);
    let config = bindings.save(&session);
    assert_eq!(config.filters.len(), 1);
    assert_eq!(config.filters[0].ty, "dpad");
    assert_eq!(config.filters[0].targets, ["move"]);

    // Reloading against the same session: the derived direction actions
    // already exist, which is recorded as a collision, but the filter and
    // the bindings still load and behave identically.
    let mut factory = BindingsFactory::new();
    factory.register_source(keyboard_spec());
    let (reloaded, errors) = factory.load(&mut session, &config);
    assert_eq!(errors.len(), 1);
    assert!(matches!(
        &errors[0],
        LoadError::Filter(FilterLoadError::DuplicateSource { name }) if name == "move.up"
    ));
    let mut seat = Seat::new();
    reloaded.handle(&key("w", TypeTag::Bool), Value::Bool(true), &mut seat).unwrap();
    assert_eq!(seat.get(mov), Some(Value::Vec2(Vec2 { x: 0, y: 1 })));
}

#[test]
fn later_source_entry_replaces_earlier_one() {
    let mut session = Session::new();
    let jump = session.create_action("jump", TypeTag::Unit).unwrap();
    let walk = session.create_action("walk", TypeTag::Bool).unwrap();
    let mut factory = BindingsFactory::new();
    factory.register_source(keyboard_spec());
    let config = Config {
        sources: vec![
            source_entry("keyboard", &[("jump", &["space"])]),
            source_entry("keyboard", &[("walk", &["w"])]),
        ],
        filters: Vec::new(),
    };
    let (bindings, errors) = factory.load(&mut session, &config);
    assert_eq!(errors.len(), 0);
    let mut seat = Seat::new();
    // Only the later entry's bindings survive.
    bindings.handle(&key("space", TypeTag::Unit), Value::Unit, &mut seat).unwrap();
    assert_eq!(seat.poll(jump), None);
    bindings.handle(&key("w", TypeTag::Bool), Value::Bool(true), &mut seat).unwrap();
    assert_eq!(seat.get(walk), Some(Value::Bool(true)));
}
