use vstd::prelude::*;

verus! {

/// A keyboard key that a control can be bound to.
#[derive(Clone, Copy, Debug, PartialEq, Eq)]
pub enum Key {
    Tab,
    Escape,
    Return,
    Slash,
    W,
    A,
    S,
    D,
    Space,
    LShift,
    M,
    B,
    L,
    C,
    O,
    P,
    N,
    F1,
    F2,
    F3,
    F4,
    F6,
    F11,
}

/// A mouse button that a control can be bound to.
#[derive(Clone, Copy, Debug, PartialEq, Eq)]
pub enum MouseButton {
    Left,
    Right,
    Middle,
    Other(u8),
}

/// A key or a mouse button.
#[derive(Clone, Copy, Debug, PartialEq, Eq)]
pub enum KeyMouse {
    Key(Key),
    Mouse(MouseButton),
}

/// `ControlSettings` contains keybindings.
#[derive(Clone, Copy, Debug, PartialEq, Eq)]
pub struct ControlSettings {
    pub toggle_cursor: KeyMouse,
    pub escape: KeyMouse,
    pub enter: KeyMouse,
    pub command: KeyMouse,
    pub move_forward: KeyMouse,
    pub move_left: KeyMouse,
    pub move_back: KeyMouse,
    pub move_right: KeyMouse,
    pub jump: KeyMouse,
    pub glide: KeyMouse,
    pub map: KeyMouse,
    pub bag: KeyMouse,
    pub quest_log: KeyMouse,
    pub character_window: KeyMouse,
    pub social: KeyMouse,
    pub spellbook: KeyMouse,
    pub settings: KeyMouse,
    pub help: KeyMouse,
    pub toggle_interface: KeyMouse,
    pub toggle_debug: KeyMouse,
    pub fullscreen: KeyMouse,
    pub screenshot: KeyMouse,
    pub toggle_ingame_ui: KeyMouse,
    pub attack: KeyMouse,
    pub second_attack: KeyMouse,
    pub roll: KeyMouse,
}

/// The default keybindings.
pub open spec fn default_controls() -> ControlSettings {
    ControlSettings {
        toggle_cursor: KeyMouse::Key(Key::Tab),
        escape: KeyMouse::Key(Key::Escape),
        enter: KeyMouse::Key(Key::Return),
        command: KeyMouse::Key(Key::Slash),
        move_forward: KeyMouse::Key(Key::W),
        move_left: KeyMouse::Key(Key::A),
        move_back: KeyMouse::Key(Key::S),
        move_right: KeyMouse::Key(Key::D),
        jump: KeyMouse::Key(Key::Space),
        glide: KeyMouse::Key(Key::LShift),
        map: KeyMouse::Key(Key::M),
        bag: KeyMouse::Key(Key::B),
        quest_log: KeyMouse::Key(Key::L),
        character_window: KeyMouse::Key(Key::C),
        social: KeyMouse::Key(Key::O),
        spellbook: KeyMouse::Key(Key::P),
        settings: KeyMouse::Key(Key::N),
        help: KeyMouse::Key(Key::F1),
        toggle_interface: KeyMouse::Key(Key::F2),
        toggle_debug: KeyMouse::Key(Key::F3),
        fullscreen: KeyMouse::Key(Key::F11),
        screenshot: KeyMouse::Key(Key::F4),
        toggle_ingame_ui: KeyMouse::Key(Key::F6),
        attack: KeyMouse::Mouse(MouseButton::Left),
        second_attack: KeyMouse::Mouse(MouseButton::Right),
        roll: KeyMouse::Mouse(MouseButton::Middle),
    }
}

impl Default for ControlSettings {
    fn default() -> (s: Self)
        ensures
            s == default_controls(),
    {
        ControlSettings {
            toggle_cursor: KeyMouse::Key(Key::Tab),
            escape: KeyMouse::Key(Key::Escape),
            enter: KeyMouse::Key(Key::Return),
            command: KeyMouse::Key(Key::Slash),
            move_forward: KeyMouse::Key(Key::W),
            move_left: KeyMouse::Key(Key::A),
            move_back: KeyMouse::Key(Key::S),
            move_right: KeyMouse::Key(Key::D),
            jump: KeyMouse::Key(Key::Space),
            glide: KeyMouse::Key(Key::LShift),
            map: KeyMouse::Key(Key::M),
            bag: KeyMouse::Key(Key::B),
            quest_log: KeyMouse::Key(Key::L),
            character_window: KeyMouse::Key(Key::C),
            social: KeyMouse::Key(Key::O),
            spellbook: KeyMouse::Key(Key::P),
            settings: KeyMouse::Key(Key::N),
            help: KeyMouse::Key(Key::F1),
            toggle_interface: KeyMouse::Key(Key::F2),
            toggle_debug: KeyMouse::Key(Key::F3),
            fullscreen: KeyMouse::Key(Key::F11),
            screenshot: KeyMouse::Key(Key::F4),
            toggle_ingame_ui: KeyMouse::Key(Key::F6),
            attack: KeyMouse::Mouse(MouseButton::Left),
            second_attack: KeyMouse::Mouse(MouseButton::Right),
            roll: KeyMouse::Mouse(MouseButton::Middle),
        }
    }
}

/// `NetworkingSettings` stores server and networking settings.
#[derive(Clone, Debug, PartialEq, Eq)]
pub struct NetworkingSettings {
    pub username: String,
    pub servers: Vec<String>,
    pub default_server: usize,
}

impl Default for NetworkingSettings {
    fn default() -> (s: Self)
        ensures
            s.username@ == "Username"@,
            s.servers@.len() == 1,
            s.servers@[0]@ == "server.veloren.net:38889"@,
            s.default_server == 0,
    {
        let mut servers: Vec<String> = Vec::new();
        servers.push("server.veloren.net:38889".to_owned());
        NetworkingSettings { username: "Username".to_owned(), servers, default_server: 0 }
    }
}

/// `Log` stores the name of the log file.
#[derive(Clone, Debug, PartialEq, Eq)]
pub struct Log {
    pub file: String,
}

impl Default for Log {
    fn default() -> (s: Self)
        ensures
            s.file@ == "voxygen.log"@,
    {
        Log { file: "voxygen.log".to_owned() }
    }
}

/// `GraphicsSettings` contains settings related to framerate and in-game
/// visuals.
#[derive(Clone, Copy, Debug, PartialEq, Eq)]
pub struct GraphicsSettings {
    pub view_distance: u32,
    pub max_fps: u32,
}

impl Default for GraphicsSettings {
    fn default() -> (s: Self)
        ensures
            s.view_distance == 5,
            s.max_fps == 60,
    {
        GraphicsSettings { view_distance: 5, max_fps: 60 }
    }
}

} // verus!
