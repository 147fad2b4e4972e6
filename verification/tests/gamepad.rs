use std::collections::BTreeSet;

use vx_app::gamepad::{key_for, taps, Button, Context, KeyCode, NOT_ON_THE_PAD};

#[test]
fn confirm_and_back_out_swap_when_a_panel_opens() {
    assert_eq!(key_for(Button::South, Context::World), Some(KeyCode::Space));
    assert_eq!(key_for(Button::South, Context::Panel), Some(KeyCode::Enter));
    assert_eq!(key_for(Button::East, Context::Panel), Some(KeyCode::Escape));
    assert_eq!(key_for(Button::DPadUp, Context::Panel), Some(KeyCode::ArrowUp));
}

#[test]
fn a_machine_feed_can_be_hung_up_from_the_pad() {
    assert_eq!(key_for(Button::East, Context::Feed), Some(KeyCode::Escape));
    assert_ne!(key_for(Button::East, Context::Feed), key_for(Button::East, Context::World));
    assert_eq!(key_for(Button::North, Context::Feed), Some(KeyCode::KeyR));
}

#[test]
fn the_modifier_layers_do_not_collide_with_the_layer_under_them() {
    for button in [Button::DPadUp, Button::DPadDown, Button::DPadLeft, Button::DPadRight] {
        let world = key_for(button, Context::World);
        assert_ne!(key_for(button, Context::Palette), world, "{button:?} unchanged on the palette");
        assert_ne!(key_for(button, Context::Second), world, "{button:?} unchanged on the second layer");
    }
    let slots: Vec<KeyCode> = [
        Button::DPadUp,
        Button::DPadRight,
        Button::DPadDown,
        Button::DPadLeft,
        Button::North,
        Button::East,
        Button::South,
        Button::West,
        Button::RightTrigger,
        Button::RightThumb,
    ]
    .into_iter()
    .filter_map(|button| key_for(button, Context::Palette))
    .collect();
    assert_eq!(slots.len(), 10, "the palette lost a slot");
    let unique: BTreeSet<_> = slots.iter().collect();
    assert_eq!(unique.len(), 10, "two palette slots pick the same block");
}

#[test]
fn every_binding_the_game_has_is_reachable_from_the_pad() {
    let bound = [
        KeyCode::KeyE, KeyCode::KeyF, KeyCode::KeyV, KeyCode::KeyC, KeyCode::KeyT,
        KeyCode::KeyL, KeyCode::KeyM, KeyCode::KeyN, KeyCode::KeyG, KeyCode::KeyR,
        KeyCode::KeyX, KeyCode::KeyZ, KeyCode::KeyW, KeyCode::KeyS, KeyCode::KeyA,
        KeyCode::KeyD, KeyCode::KeyQ, KeyCode::KeyH, KeyCode::KeyP,
        KeyCode::KeyI, KeyCode::KeyB,
        KeyCode::Space, KeyCode::ShiftLeft, KeyCode::ControlLeft,
        KeyCode::Tab, KeyCode::Enter, KeyCode::Escape, KeyCode::Backspace,
        KeyCode::Delete, KeyCode::Home, KeyCode::End,
        KeyCode::PageUp, KeyCode::PageDown,
        KeyCode::ArrowUp, KeyCode::ArrowDown, KeyCode::ArrowLeft, KeyCode::ArrowRight,
        KeyCode::BracketLeft, KeyCode::BracketRight,
        KeyCode::F3, KeyCode::F5, KeyCode::F10,
        KeyCode::Digit0, KeyCode::Digit1, KeyCode::Digit2, KeyCode::Digit3,
        KeyCode::Digit4, KeyCode::Digit5, KeyCode::Digit6, KeyCode::Digit7,
        KeyCode::Digit8, KeyCode::Digit9,
    ];
    let on_the_stick = [KeyCode::KeyW, KeyCode::KeyS, KeyCode::KeyA, KeyCode::KeyD, KeyCode::KeyQ];
    let every_context = [
        Context::World,
        Context::Second,
        Context::Palette,
        Context::Panel,
        Context::Feed,
        Context::Typing,
    ];
    let every_button = [
        Button::South,
        Button::East,
        Button::West,
        Button::North,
        Button::LeftTrigger,
        Button::RightTrigger,
        Button::LeftThumb,
        Button::RightThumb,
        Button::DPadUp,
        Button::DPadDown,
        Button::DPadLeft,
        Button::DPadRight,
        Button::Start,
        Button::Select,
    ];
    for key in bound {
        if on_the_stick.contains(&key) {
            continue;
        }
        if NOT_ON_THE_PAD.iter().any(|(excused, _)| *excused == key) {
            continue;
        }
        let reachable = every_context
            .iter()
            .any(|context| every_button.iter().any(|button| key_for(*button, *context) == Some(key)))
            || taps().iter().any(|(_, tap, _)| *tap == Some(key));
        assert!(reachable, "{key:?} is bound but no pad button reaches it");
    }
    for (excused, reason) in NOT_ON_THE_PAD {
        assert!(!reason.is_empty(), "{excused:?} is excused without a reason");
    }
}

#[test]
fn every_mapped_button_resolves_in_the_world_and_in_panels() {
    for button in [
        Button::South,
        Button::East,
        Button::West,
        Button::North,
        Button::DPadUp,
        Button::DPadDown,
        Button::DPadLeft,
        Button::DPadRight,
        Button::Start,
    ] {
        assert!(key_for(button, Context::World).is_some(), "{button:?} dead in the world");
        assert!(key_for(button, Context::Panel).is_some(), "{button:?} dead in panels");
    }
    for context in [Context::World, Context::Panel, Context::Feed, Context::Second, Context::Typing] {
        assert_eq!(key_for(Button::Select, context), None);
    }
    assert_eq!(key_for(Button::LeftTrigger, Context::World), None);
}

#[test]
fn the_analog_triggers_press_no_key_anywhere() {
    for context in [
        Context::World,
        Context::Second,
        Context::Palette,
        Context::Panel,
        Context::Feed,
        Context::Typing,
    ] {
        assert_eq!(key_for(Button::LeftTrigger2, context), None);
        assert_eq!(key_for(Button::RightTrigger2, context), None);
    }
}

#[test]
fn the_taps_are_main_s_own_buttons() {
    let t = taps();
    assert_eq!(t.len(), 2);
    for (button, _, what) in t {
        assert!(!what.is_empty());
        assert_eq!(key_for(button, Context::World), None, "{button:?} is a tap and a key at once");
    }
}
