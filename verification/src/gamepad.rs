//! The pad: what each button means on each layer.
//!
//! A pad has thirteen buttons and the game has more actions than that, so
//! the mapping has a context: the world, two held modifiers (the second
//! layer and the block palette), a panel, a machine feed, and the on-screen
//! keyboard. Each layer maps a button to the key it presses.
use vstd::prelude::*;

verus! {

/// A pad button.
#[derive(Debug, Clone, Copy, PartialEq, Eq, PartialOrd, Ord, Hash, Structural)]
pub enum Button {
    South,
    East,
    North,
    West,
    C,
    Z,
    LeftTrigger,
    LeftTrigger2,
    RightTrigger,
    RightTrigger2,
    Select,
    Start,
    Mode,
    LeftThumb,
    RightThumb,
    DPadUp,
    DPadDown,
    DPadLeft,
    DPadRight,
    Unknown,
}

/// A keyboard key the game binds.
#[derive(Debug, Clone, Copy, PartialEq, Eq, PartialOrd, Ord, Hash, Structural)]
pub enum KeyCode {
    KeyA,
    KeyB,
    KeyC,
    KeyD,
    KeyE,
    KeyF,
    KeyG,
    KeyH,
    KeyI,
    KeyL,
    KeyM,
    KeyN,
    KeyP,
    KeyQ,
    KeyR,
    KeyS,
    KeyT,
    KeyV,
    KeyW,
    KeyX,
    KeyZ,
    Digit0,
    Digit1,
    Digit2,
    Digit3,
    Digit4,
    Digit5,
    Digit6,
    Digit7,
    Digit8,
    Digit9,
    Space,
    ShiftLeft,
    ControlLeft,
    Tab,
    Enter,
    Escape,
    Backspace,
    Delete,
    Home,
    End,
    PageUp,
    PageDown,
    ArrowUp,
    ArrowDown,
    ArrowLeft,
    ArrowRight,
    BracketLeft,
    BracketRight,
    F3,
    F5,
    F10,
}

/// Which layer the pad is on. The mapping's whole context.
#[derive(Debug, Clone, Copy, PartialEq, Eq, Hash, Structural)]
pub enum Context {
    /// Walking about, nothing owning the screen.
    World,
    /// `SELECT` held: the world's second layer.
    Second,
    /// `LB` held: the block palette, one slot per direction.
    Palette,
    /// A panel owns the screen. South confirms, east backs out.
    Panel,
    /// Looking through a machine.
    Feed,
    /// The on-screen keyboard is up.
    Typing,
}

/// What a button means on a given layer: the key it presses. `Select` and
/// `LB` are the two modifiers and press nothing in the world; the analog
/// triggers mirror the mouse buttons and press no key anywhere.
pub open spec fn key_spec(button: Button, context: Context) -> Option<KeyCode> {
    match context {
        Context::World => match button {
            Button::South => Some(KeyCode::Space),
            Button::East => Some(KeyCode::ShiftLeft),
            Button::West => Some(KeyCode::KeyE),
            Button::North => Some(KeyCode::KeyV),
            Button::RightTrigger => Some(KeyCode::Tab),
            Button::LeftThumb => Some(KeyCode::ControlLeft),
            Button::RightThumb => Some(KeyCode::KeyL),
            Button::DPadUp => Some(KeyCode::KeyM),
            Button::DPadDown => Some(KeyCode::KeyN),
            Button::DPadLeft => Some(KeyCode::BracketLeft),
            Button::DPadRight => Some(KeyCode::BracketRight),
            Button::Start => Some(KeyCode::Enter),
            _ => None,
        },
        Context::Second => match button {
            Button::North => Some(KeyCode::KeyT),
            Button::South => Some(KeyCode::KeyZ),
            Button::West => Some(KeyCode::F10),
            Button::East => Some(KeyCode::Backspace),
            Button::DPadUp => Some(KeyCode::F3),
            Button::DPadDown => Some(KeyCode::F5),
            Button::DPadLeft => Some(KeyCode::KeyG),
            Button::DPadRight => Some(KeyCode::KeyF),
            Button::LeftThumb => Some(KeyCode::KeyH),
            Button::RightThumb => Some(KeyCode::KeyP),
            Button::Start => Some(KeyCode::KeyI),
            Button::LeftTrigger => Some(KeyCode::KeyB),
            _ => None,
        },
        Context::Palette => match button {
            Button::DPadUp => Some(KeyCode::Digit1),
            Button::DPadRight => Some(KeyCode::Digit2),
            Button::DPadDown => Some(KeyCode::Digit3),
            Button::DPadLeft => Some(KeyCode::Digit4),
            Button::North => Some(KeyCode::Digit5),
            Button::East => Some(KeyCode::Digit6),
            Button::South => Some(KeyCode::Digit7),
            Button::West => Some(KeyCode::Digit8),
            Button::RightTrigger => Some(KeyCode::Digit9),
            Button::RightThumb => Some(KeyCode::Digit0),
            _ => None,
        },
        Context::Panel => match button {
            Button::South => Some(KeyCode::Enter),
            Button::East => Some(KeyCode::Escape),
            Button::West => Some(KeyCode::KeyE),
            Button::North => Some(KeyCode::Tab),
            Button::DPadUp => Some(KeyCode::ArrowUp),
            Button::DPadDown => Some(KeyCode::ArrowDown),
            Button::DPadLeft => Some(KeyCode::ArrowLeft),
            Button::DPadRight => Some(KeyCode::ArrowRight),
            Button::Start => Some(KeyCode::Enter),
            Button::LeftTrigger => Some(KeyCode::PageUp),
            Button::RightTrigger => Some(KeyCode::PageDown),
            Button::LeftThumb => Some(KeyCode::Backspace),
            Button::RightThumb => Some(KeyCode::KeyX),
            _ => None,
        },
        Context::Typing => match button {
            Button::DPadUp => Some(KeyCode::ArrowUp),
            Button::DPadDown => Some(KeyCode::ArrowDown),
            Button::DPadLeft => Some(KeyCode::ArrowLeft),
            Button::DPadRight => Some(KeyCode::ArrowRight),
            Button::West => Some(KeyCode::Backspace),
            Button::North => Some(KeyCode::Tab),
            Button::East => Some(KeyCode::Escape),
            Button::Start => Some(KeyCode::Enter),
            Button::LeftThumb => Some(KeyCode::Home),
            Button::RightThumb => Some(KeyCode::End),
            _ => None,
        },
        Context::Feed => match button {
            Button::East => Some(KeyCode::Escape),
            Button::North => Some(KeyCode::KeyR),
            Button::West => Some(KeyCode::KeyV),
            Button::South => Some(KeyCode::Space),
            Button::DPadUp => Some(KeyCode::Space),
            Button::DPadDown => Some(KeyCode::ShiftLeft),
            Button::LeftThumb => Some(KeyCode::ShiftLeft),
            Button::RightThumb => Some(KeyCode::KeyL),
            Button::RightTrigger => Some(KeyCode::Tab),
            Button::Start => Some(KeyCode::Enter),
            _ => None,
        },
    }
}

/// What a button means on a given layer: the key it presses.
pub fn key_for(button: Button, context: Context) -> (key: Option<KeyCode>)
    ensures
        key == key_spec(button, context),
{
    match context {
        Context::World => match button {
            Button::South => Some(KeyCode::Space),
            Button::East => Some(KeyCode::ShiftLeft),
            Button::West => Some(KeyCode::KeyE),
            Button::North => Some(KeyCode::KeyV),
            Button::RightTrigger => Some(KeyCode::Tab),
            Button::LeftThumb => Some(KeyCode::ControlLeft),
            Button::RightThumb => Some(KeyCode::KeyL),
            Button::DPadUp => Some(KeyCode::KeyM),
            Button::DPadDown => Some(KeyCode::KeyN),
            Button::DPadLeft => Some(KeyCode::BracketLeft),
            Button::DPadRight => Some(KeyCode::BracketRight),
            Button::Start => Some(KeyCode::Enter),
            _ => None,
        },
        Context::Second => match button {
            Button::North => Some(KeyCode::KeyT),
            Button::South => Some(KeyCode::KeyZ),
            Button::West => Some(KeyCode::F10),
            Button::East => Some(KeyCode::Backspace),
            Button::DPadUp => Some(KeyCode::F3),
            Button::DPadDown => Some(KeyCode::F5),
            Button::DPadLeft => Some(KeyCode::KeyG),
            Button::DPadRight => Some(KeyCode::KeyF),
            Button::LeftThumb => Some(KeyCode::KeyH),
            Button::RightThumb => Some(KeyCode::KeyP),
            Button::Start => Some(KeyCode::KeyI),
            Button::LeftTrigger => Some(KeyCode::KeyB),
            _ => None,
        },
        Context::Palette => match button {
            Button::DPadUp => Some(KeyCode::Digit1),
            Button::DPadRight => Some(KeyCode::Digit2),
            Button::DPadDown => Some(KeyCode::Digit3),
            Button::DPadLeft => Some(KeyCode::Digit4),
            Button::North => Some(KeyCode::Digit5),
            Button::East => Some(KeyCode::Digit6),
            Button::South => Some(KeyCode::Digit7),
            Button::West => Some(KeyCode::Digit8),
            Button::RightTrigger => Some(KeyCode::Digit9),
            Button::RightThumb => Some(KeyCode::Digit0),
            _ => None,
        },
        Context::Panel => match button {
            Button::South => Some(KeyCode::Enter),
            Button::East => Some(KeyCode::Escape),
            Button::West => Some(KeyCode::KeyE),
            Button::North => Some(KeyCode::Tab),
            Button::DPadUp => Some(KeyCode::ArrowUp),
            Button::DPadDown => Some(KeyCode::ArrowDown),
            Button::DPadLeft => Some(KeyCode::ArrowLeft),
            Button::DPadRight => Some(KeyCode::ArrowRight),
            Button::Start => Some(KeyCode::Enter),
            Button::LeftTrigger => Some(KeyCode::PageUp),
            Button::RightTrigger => Some(KeyCode::PageDown),
            Button::LeftThumb => Some(KeyCode::Backspace),
            Button::RightThumb => Some(KeyCode::KeyX),
            _ => None,
        },
        Context::Typing => match button {
            Button::DPadUp => Some(KeyCode::ArrowUp),
            Button::DPadDown => Some(KeyCode::ArrowDown),
            Button::DPadLeft => Some(KeyCode::ArrowLeft),
            Button::DPadRight => Some(KeyCode::ArrowRight),
            Button::West => Some(KeyCode::Backspace),
            Button::North => Some(KeyCode::Tab),
            Button::East => Some(KeyCode::Escape),
            Button::Start => Some(KeyCode::Enter),
            Button::LeftThumb => Some(KeyCode::Home),
            Button::RightThumb => Some(KeyCode::End),
            _ => None,
        },
        Context::Feed => match button {
            Button::East => Some(KeyCode::Escape),
            Button::North => Some(KeyCode::KeyR),
            Button::West => Some(KeyCode::KeyV),
            Button::South => Some(KeyCode::Space),
            Button::DPadUp => Some(KeyCode::Space),
            Button::DPadDown => Some(KeyCode::ShiftLeft),
            Button::LeftThumb => Some(KeyCode::ShiftLeft),
            Button::RightThumb => Some(KeyCode::KeyL),
            Button::RightTrigger => Some(KeyCode::Tab),
            Button::Start => Some(KeyCode::Enter),
            _ => None,
        },
    }
}

/// What the two modifiers do when tapped rather than held: produced on
/// release, since whether a hold was a hold is only known then.
pub fn taps() -> (t: [(Button, Option<KeyCode>, &'static str); 2])
    ensures
        t@[0].0 == Button::Select && t@[0].1 is None,
        t@[1].0 == Button::LeftTrigger && t@[1].1 == Some(KeyCode::KeyC),
{
    [
        (Button::Select, None, "shows the control scheme"),
        (Button::LeftTrigger, Some(KeyCode::KeyC), "first or third person"),
    ]
}

/// Keys the pad reaches through no button on any layer, and why.
pub const NOT_ON_THE_PAD: [(KeyCode, &'static str); 2] = [
    (KeyCode::Escape, "world context: the pad never captures the mouse, so it has nothing to release"),
    (KeyCode::Delete, "terminal edit: backspace is the pad's delete, and the board has no forward delete"),
];

/// The help overlay's size in texture pixels.
pub const PAD_WIDTH: u32 = 320;
pub const PAD_HEIGHT: u32 = 528;

/// A held modifier changes what every d-pad direction means, or holding it
/// would be a lie: the palette and the second layer never read a direction
/// the way the world does.
pub proof fn lemma_modifiers_change_the_dpad(button: Button)
    requires
        button == Button::DPadUp || button == Button::DPadDown || button == Button::DPadLeft
            || button == Button::DPadRight,
    ensures
        key_spec(button, Context::Palette) != key_spec(button, Context::World),
        key_spec(button, Context::Second) != key_spec(button, Context::World),
{
}

/// The palette's ten slots pick ten different keys.
pub proof fn lemma_palette_slots_are_distinct(a: Button, b: Button)
    requires
        a != b,
        key_spec(a, Context::Palette) is Some,
    ensures
        key_spec(a, Context::Palette) != key_spec(b, Context::Palette),
{
}

/// A feed can be hung up from the pad, and the wheel can be taken: east
/// leaves the feed where in the world it crouches, and north takes the wheel.
pub proof fn lemma_a_feed_can_be_hung_up()
    ensures
        key_spec(Button::East, Context::Feed) == Some(KeyCode::Escape),
        key_spec(Button::East, Context::Feed) != key_spec(Button::East, Context::World),
        key_spec(Button::North, Context::Feed) == Some(KeyCode::KeyR),
{
}

/// Every face button, d-pad direction and `START` means something both in
/// the world and in a panel; `SELECT` is never a key itself, and `LB` is not
/// one in the world.
pub proof fn lemma_buttons_live_in_world_and_panels(button: Button, context: Context)
    ensures
        (button == Button::South || button == Button::East || button == Button::West || button
            == Button::North || button == Button::DPadUp || button == Button::DPadDown || button
            == Button::DPadLeft || button == Button::DPadRight || button == Button::Start) ==> (
        key_spec(button, Context::World) is Some && key_spec(button, Context::Panel) is Some),
        key_spec(Button::Select, context) is None,
        key_spec(Button::LeftTrigger, Context::World) is None,
{
}

/// Every key the game binds, bar the ones the sticks drive and the ones
/// written off in [`NOT_ON_THE_PAD`], is pressed by some button on some
/// layer, or by a modifier's tap.
pub proof fn lemma_every_binding_is_reachable(key: KeyCode)
    requires
        key != KeyCode::KeyW && key != KeyCode::KeyS && key != KeyCode::KeyA && key != KeyCode::KeyD
            && key != KeyCode::KeyQ,
        key != KeyCode::Delete,
    ensures
        key == KeyCode::KeyC || exists|button: Button, context: Context|
            #[trigger] key_spec(button, context) == Some(key),
{
    if key == KeyCode::KeyB {
        assert(key_spec(Button::LeftTrigger, Context::Second) == Some(key));
    }
    if key == KeyCode::KeyE {
        assert(key_spec(Button::West, Context::World) == Some(key));
    }
    if key == KeyCode::KeyF {
        assert(key_spec(Button::DPadRight, Context::Second) == Some(key));
    }
    if key == KeyCode::KeyG {
        assert(key_spec(Button::DPadLeft, Context::Second) == Some(key));
    }
    if key == KeyCode::KeyH {
        assert(key_spec(Button::LeftThumb, Context::Second) == Some(key));
    }
    if key == KeyCode::KeyI {
        assert(key_spec(Button::Start, Context::Second) == Some(key));
    }
    if key == KeyCode::KeyL {
        assert(key_spec(Button::RightThumb, Context::World) == Some(key));
    }
    if key == KeyCode::KeyM {
        assert(key_spec(Button::DPadUp, Context::World) == Some(key));
    }
    if key == KeyCode::KeyN {
        assert(key_spec(Button::DPadDown, Context::World) == Some(key));
    }
    if key == KeyCode::KeyP {
        assert(key_spec(Button::RightThumb, Context::Second) == Some(key));
    }
    if key == KeyCode::KeyR {
        assert(key_spec(Button::North, Context::Feed) == Some(key));
    }
    if key == KeyCode::KeyT {
        assert(key_spec(Button::North, Context::Second) == Some(key));
    }
    if key == KeyCode::KeyV {
        assert(key_spec(Button::North, Context::World) == Some(key));
    }
    if key == KeyCode::KeyX {
        assert(key_spec(Button::RightThumb, Context::Panel) == Some(key));
    }
    if key == KeyCode::KeyZ {
        assert(key_spec(Button::South, Context::Second) == Some(key));
    }
    if key == KeyCode::Digit0 {
        assert(key_spec(Button::RightThumb, Context::Palette) == Some(key));
    }
    if key == KeyCode::Digit1 {
        assert(key_spec(Button::DPadUp, Context::Palette) == Some(key));
    }
    if key == KeyCode::Digit2 {
        assert(key_spec(Button::DPadRight, Context::Palette) == Some(key));
    }
    if key == KeyCode::Digit3 {
        assert(key_spec(Button::DPadDown, Context::Palette) == Some(key));
    }
    if key == KeyCode::Digit4 {
        assert(key_spec(Button::DPadLeft, Context::Palette) == Some(key));
    }
    if key == KeyCode::Digit5 {
        assert(key_spec(Button::North, Context::Palette) == Some(key));
    }
    if key == KeyCode::Digit6 {
        assert(key_spec(Button::East, Context::Palette) == Some(key));
    }
    if key == KeyCode::Digit7 {
        assert(key_spec(Button::South, Context::Palette) == Some(key));
    }
    if key == KeyCode::Digit8 {
        assert(key_spec(Button::West, Context::Palette) == Some(key));
    }
    if key == KeyCode::Digit9 {
        assert(key_spec(Button::RightTrigger, Context::Palette) == Some(key));
    }
    if key == KeyCode::Space {
        assert(key_spec(Button::South, Context::World) == Some(key));
    }
    if key == KeyCode::ShiftLeft {
        assert(key_spec(Button::East, Context::World) == Some(key));
    }
    if key == KeyCode::ControlLeft {
        assert(key_spec(Button::LeftThumb, Context::World) == Some(key));
    }
    if key == KeyCode::Tab {
        assert(key_spec(Button::RightTrigger, Context::World) == Some(key));
    }
    if key == KeyCode::Enter {
        assert(key_spec(Button::Start, Context::World) == Some(key));
    }
    if key == KeyCode::Escape {
        assert(key_spec(Button::East, Context::Panel) == Some(key));
    }
    if key == KeyCode::Backspace {
        assert(key_spec(Button::East, Context::Second) == Some(key));
    }
    if key == KeyCode::Home {
        assert(key_spec(Button::LeftThumb, Context::Typing) == Some(key));
    }
    if key == KeyCode::End {
        assert(key_spec(Button::RightThumb, Context::Typing) == Some(key));
    }
    if key == KeyCode::PageUp {
        assert(key_spec(Button::LeftTrigger, Context::Panel) == Some(key));
    }
    if key == KeyCode::PageDown {
        assert(key_spec(Button::RightTrigger, Context::Panel) == Some(key));
    }
    if key == KeyCode::ArrowUp {
        assert(key_spec(Button::DPadUp, Context::Panel) == Some(key));
    }
    if key == KeyCode::ArrowDown {
        assert(key_spec(Button::DPadDown, Context::Panel) == Some(key));
    }
    if key == KeyCode::ArrowLeft {
        assert(key_spec(Button::DPadLeft, Context::Panel) == Some(key));
    }
    if key == KeyCode::ArrowRight {
        assert(key_spec(Button::DPadRight, Context::Panel) == Some(key));
    }
    if key == KeyCode::BracketLeft {
        assert(key_spec(Button::DPadLeft, Context::World) == Some(key));
    }
    if key == KeyCode::BracketRight {
        assert(key_spec(Button::DPadRight, Context::World) == Some(key));
    }
    if key == KeyCode::F3 {
        assert(key_spec(Button::DPadUp, Context::Second) == Some(key));
    }
    if key == KeyCode::F5 {
        assert(key_spec(Button::DPadDown, Context::Second) == Some(key));
    }
    if key == KeyCode::F10 {
        assert(key_spec(Button::West, Context::Second) == Some(key));
    }
}

/// The arrow key pointing the way a d-pad direction points.
pub open spec fn arrow_toward(button: Button) -> Option<KeyCode> {
    if button == Button::DPadUp {
        Some(KeyCode::ArrowUp)
    } else if button == Button::DPadDown {
        Some(KeyCode::ArrowDown)
    } else if button == Button::DPadLeft {
        Some(KeyCode::ArrowLeft)
    } else if button == Button::DPadRight {
        Some(KeyCode::ArrowRight)
    } else {
        None
    }
}

/// **In a panel and on the keyboard, the d-pad is the arrows, each the way
/// it points.** Every d-pad direction presses the arrow key of the same
/// direction there, so left moves left and up moves up in every list.
pub proof fn lemma_the_dpad_points_the_arrows_its_own_way(button: Button, context: Context)
    requires
        context == Context::Panel || context == Context::Typing,
        arrow_toward(button) is Some,
    ensures
        key_spec(button, context) == arrow_toward(button),
{
}

} // verus!
