use control_mason::config::{
    modifier_from_token, pattern_from_attrs, scan_from_token, state_from_token,
    virtual_from_token, ConfigError,
};
use control_mason::mason::ControlMason;
use control_mason::pattern::{ElementState, KeyEvent, KeyState};
use control_mason::tree::Tree;

fn wildcard() -> KeyState {
    KeyState::default()
}

fn event(scan: u32, state: ElementState, shift: bool, ctrl: bool) -> KeyEvent {
    KeyEvent {
        scancode: scan,
        state,
        shift,
        ctrl,
        alt: false,
        logo: false,
        virtual_keycode: None,
    }
}

#[test]
fn it_works() {
    assert_eq!(2 + 2, 4);
}

#[test]
fn subsumption_reflexive_on_samples() {
    let a = KeyState {
        shift: Some(true),
        ..wildcard()
    };
    let b = KeyState {
        scancode: Some(30),
        state: Some(ElementState::Pressed),
        shift: Some(true),
        ctrl: Some(false),
        alt: Some(false),
        logo: Some(false),
        virtual_keycode: None,
    };
    assert!(wildcard().subsumes(&wildcard()));
    assert!(a.subsumes(&a));
    assert!(b.subsumes(&b));
}

#[test]
fn subsumption_antisymmetric_on_samples() {
    let a = KeyState {
        shift: Some(true),
        ..wildcard()
    };
    let b = KeyState {
        shift: Some(true),
        ctrl: Some(false),
        ..wildcard()
    };
    // Mutual subsumption only between structurally equal patterns.
    assert!(a.subsumes(&b));
    assert!(!b.subsumes(&a) || a.key_eq(&b));
    let a2 = KeyState {
        shift: Some(true),
        ..wildcard()
    };
    assert!(a.subsumes(&a2) && a2.subsumes(&a) && a.key_eq(&a2));
}

#[test]
fn subsumption_transitive_on_samples() {
    let top = wildcard();
    let mid = KeyState {
        shift: Some(true),
        ..wildcard()
    };
    let bot = KeyState {
        scancode: Some(30),
        shift: Some(true),
        ctrl: Some(false),
        ..wildcard()
    };
    assert!(top.subsumes(&mid));
    assert!(mid.subsumes(&bot));
    assert!(top.subsumes(&bot));
    assert!(!bot.subsumes(&mid));
    assert!(!mid.subsumes(&top));
}

#[test]
fn wildcard_matches_every_event() {
    let w = wildcard();
    assert!(w.subsumes_event(&event(0, ElementState::Pressed, false, false)));
    assert!(w.subsumes_event(&event(123, ElementState::Released, true, true)));
}

#[test]
fn root_invariant_empty_tree() {
    // The fully-wildcard root answers when nothing else is registered.
    let tree = Tree::with_root();
    let res = tree.all_nearest(&event(57, ElementState::Pressed, false, false));
    assert_eq!(res, vec![0]);
}

#[test]
fn root_invariant_never_empty() {
    let mut mason = ControlMason::default();
    mason.insert(
        KeyState {
            scancode: Some(30),
            ..wildcard()
        },
        String::from("jump"),
    );
    // An event matching no registered binding still yields the root.
    let res = mason
        .key_tree
        .all_nearest(&event(99, ElementState::Released, true, false));
    assert_eq!(res.len(), 1);
    assert_eq!(res, vec![0]);
}

#[test]
fn insertion_idempotent() {
    let mut mason = ControlMason::default();
    let p = KeyState {
        scancode: Some(30),
        state: Some(ElementState::Pressed),
        ..wildcard()
    };
    mason.insert(p, String::from("jump"));
    let nodes_once = mason.key_tree.node_count();
    mason.insert(p, String::from("jump"));
    assert_eq!(mason.key_tree.node_count(), nodes_once);
    // The node reached by the event really holds the inserted pattern.
    let hits = mason
        .key_tree
        .all_nearest(&event(30, ElementState::Pressed, false, false));
    assert_eq!(hits.len(), 1);
    assert!(mason.key_tree.pattern_of(hits[0]).key_eq(&p));
    let fired = mason.handle_key(event(30, ElementState::Pressed, false, false));
    // The action is bound exactly once.
    assert_eq!(fired, vec![String::from("jump")]);
}

#[test]
fn merge_on_equal_patterns() {
    let mut mason = ControlMason::default();
    let p = KeyState {
        scancode: Some(30),
        ..wildcard()
    };
    let q = KeyState {
        scancode: Some(30),
        ..wildcard()
    };
    mason.insert(p, String::from("jump"));
    let nodes_once = mason.key_tree.node_count();
    mason.insert(q, String::from("crouch"));
    // One node carries both actions.
    assert_eq!(mason.key_tree.node_count(), nodes_once);
    let mut fired = mason.handle_key(event(30, ElementState::Pressed, false, false));
    fired.sort();
    assert_eq!(fired, vec![String::from("crouch"), String::from("jump")]);
}

#[test]
fn deepest_match_wins() {
    let mut mason = ControlMason::default();
    let general = KeyState {
        shift: Some(true),
        ..wildcard()
    };
    let specific = KeyState {
        scancode: Some(30),
        shift: Some(true),
        ..wildcard()
    };
    mason.insert(general, String::from("general"));
    mason.insert(specific, String::from("specific"));
    // An event matching the more specific pattern yields only its node.
    let fired = mason.handle_key(event(30, ElementState::Pressed, true, false));
    assert_eq!(fired, vec![String::from("specific")]);
    // An event matching only the general pattern yields the general node.
    let fired = mason.handle_key(event(31, ElementState::Pressed, true, false));
    assert_eq!(fired, vec![String::from("general")]);
}

#[test]
fn registration_order_can_split_comparable_patterns() {
    // When the more specific pattern is registered first, the more general
    // one cannot be placed above it and becomes a sibling: an event
    // matching both then yields both, one per branch.
    let mut mason = ControlMason::default();
    let specific = KeyState {
        scancode: Some(30),
        shift: Some(true),
        ..wildcard()
    };
    let general = KeyState {
        shift: Some(true),
        ..wildcard()
    };
    mason.insert(specific, String::from("specific"));
    mason.insert(general, String::from("general"));
    let fired = mason.handle_key(event(30, ElementState::Pressed, true, false));
    assert_eq!(fired, vec![String::from("specific"), String::from("general")]);
}

#[test]
fn press_release_symmetry() {
    let mut mason = ControlMason::default();
    mason.insert(
        KeyState {
            scancode: Some(30),
            state: Some(ElementState::Pressed),
            shift: Some(true),
            ..wildcard()
        },
        String::from("jump"),
    );
    let fired = mason.handle_key(event(30, ElementState::Pressed, true, false));
    assert_eq!(fired, vec![String::from("jump")]);
    assert!(mason.active.iter().any(|s| s == "jump"));
    mason.handle_key(event(30, ElementState::Released, true, false));
    assert!(!mason.active.iter().any(|s| s == "jump"));
}

#[test]
fn modifier_drift_leaves_action_stuck() {
    let mut mason = ControlMason::default();
    mason.insert(
        KeyState {
            scancode: Some(30),
            state: Some(ElementState::Pressed),
            shift: Some(true),
            ..wildcard()
        },
        String::from("jump"),
    );
    mason.handle_key(event(30, ElementState::Pressed, true, false));
    assert!(mason.active.iter().any(|s| s == "jump"));
    // The release carries different modifiers, so the deactivation query
    // no longer finds the binding: the action stays active by design.
    mason.handle_key(event(30, ElementState::Released, false, false));
    assert!(mason.active.iter().any(|s| s == "jump"));
}

#[test]
fn sibling_bindings_fire_independently() {
    let mut mason = ControlMason::default();
    mason.insert(
        KeyState {
            ctrl: Some(true),
            ..wildcard()
        },
        String::from("A"),
    );
    mason.insert(
        KeyState {
            shift: Some(true),
            ..wildcard()
        },
        String::from("B"),
    );
    let mut fired = mason.handle_key(event(5, ElementState::Pressed, true, true));
    fired.sort();
    assert_eq!(fired, vec![String::from("A"), String::from("B")]);
    assert!(mason.active.iter().any(|s| s == "A"));
    assert!(mason.active.iter().any(|s| s == "B"));
}

#[test]
fn scan_tokens() {
    assert_eq!(scan_from_token("30"), Ok(Some(30)));
    assert_eq!(scan_from_token("+7"), Ok(Some(7)));
    assert_eq!(scan_from_token("0"), Ok(Some(0)));
    assert_eq!(scan_from_token("4294967295"), Ok(Some(u32::MAX)));
    assert_eq!(scan_from_token("*"), Ok(None));
    assert_eq!(scan_from_token("4294967296"), Err(ConfigError::MalformedToken));
    assert_eq!(scan_from_token("abc"), Err(ConfigError::MalformedToken));
    assert_eq!(scan_from_token(""), Err(ConfigError::MalformedToken));
    assert_eq!(scan_from_token("+"), Err(ConfigError::MalformedToken));
    assert_eq!(scan_from_token("3O"), Err(ConfigError::MalformedToken));
}

#[test]
fn state_tokens() {
    assert_eq!(state_from_token("pressed"), Ok(Some(ElementState::Pressed)));
    assert_eq!(state_from_token("Pressed"), Ok(Some(ElementState::Pressed)));
    assert_eq!(state_from_token("RELEASED"), Ok(Some(ElementState::Released)));
    assert_eq!(state_from_token("*"), Ok(None));
    assert_eq!(state_from_token("held"), Err(ConfigError::MalformedToken));
}

#[test]
fn modifier_tokens() {
    assert_eq!(modifier_from_token("true"), Ok(Some(true)));
    assert_eq!(modifier_from_token("FALSE"), Ok(Some(false)));
    assert_eq!(modifier_from_token("*"), Ok(None));
    assert_eq!(modifier_from_token("maybe"), Err(ConfigError::MalformedToken));
}

#[test]
fn virtual_tokens() {
    assert_eq!(virtual_from_token("*"), Ok(None));
    assert_eq!(virtual_from_token("Space"), Err(ConfigError::UnsupportedSelector));
}

#[test]
fn pattern_from_attr_pairs() {
    let attrs = vec![
        (String::from("scan"), String::from("30")),
        (String::from("shift"), String::from("true")),
        (String::from("color"), String::from("red")),
    ];
    let p = pattern_from_attrs(&attrs).unwrap();
    assert_eq!(p.scancode, Some(30));
    assert_eq!(p.state, Some(ElementState::Pressed));
    assert_eq!(p.shift, Some(true));
    assert_eq!(p.ctrl, Some(false));
    assert_eq!(p.alt, Some(false));
    assert_eq!(p.logo, Some(false));
    assert_eq!(p.virtual_keycode, None);
}

#[test]
fn pattern_rejects_bad_token() {
    let attrs = vec![
        (String::from("scan"), String::from("thirty")),
        (String::from("shift"), String::from("true")),
    ];
    assert!(matches!(
        pattern_from_attrs(&attrs),
        Err(ConfigError::MalformedToken)
    ));
    let attrs = vec![(String::from("virtual"), String::from("Space"))];
    assert!(matches!(
        pattern_from_attrs(&attrs),
        Err(ConfigError::UnsupportedSelector)
    ));
}

#[test]
fn read_key_registers_binding() {
    let mut mason = ControlMason::default();
    let attrs = vec![
        (String::from("scan"), String::from("30")),
        (String::from("shift"), String::from("true")),
    ];
    assert!(mason.read_key(&attrs, String::from("jump")).is_ok());
    let fired = mason.handle_key(event(30, ElementState::Pressed, true, false));
    assert_eq!(fired, vec![String::from("jump")]);
    // Default state is pressed, so the shifted press with another scan
    // code does not fire the binding.
    let fired = mason.handle_key(event(31, ElementState::Pressed, true, false));
    assert!(fired.is_empty());
}

#[test]
fn read_key_rejects_and_leaves_tree_alone() {
    let mut mason = ControlMason::default();
    let nodes_before = mason.key_tree.node_count();
    let attrs = vec![(String::from("scan"), String::from("thirty"))];
    assert_eq!(
        mason.read_key(&attrs, String::from("jump")),
        Err(ConfigError::MalformedToken)
    );
    assert_eq!(mason.key_tree.node_count(), nodes_before);
}

#[test]
fn released_binding_fires_on_release_only() {
    let mut mason = ControlMason::default();
    mason.insert(
        KeyState {
            scancode: Some(30),
            state: Some(ElementState::Released),
            ..wildcard()
        },
        String::from("note_off"),
    );
    let fired = mason.handle_key(event(30, ElementState::Pressed, false, false));
    assert!(fired.is_empty());
    let fired = mason.handle_key(event(30, ElementState::Released, false, false));
    assert_eq!(fired, vec![String::from("note_off")]);
    // The release did not add anything to the active set.
    assert!(mason.active.is_empty());
}

#[test]
fn wildcard_state_binding_clears_on_release() {
    let mut mason = ControlMason::default();
    // State left wildcard: the binding fires on press and on release, and
    // the re-query with state pinned to pressed still finds it.
    mason.insert(
        KeyState {
            scancode: Some(30),
            ..wildcard()
        },
        String::from("toggle"),
    );
    let fired = mason.handle_key(event(30, ElementState::Pressed, false, false));
    assert_eq!(fired, vec![String::from("toggle")]);
    assert!(mason.active.iter().any(|s| s == "toggle"));
    let fired = mason.handle_key(event(30, ElementState::Released, false, false));
    assert_eq!(fired, vec![String::from("toggle")]);
    assert!(!mason.active.iter().any(|s| s == "toggle"));
}
