use veloren::settings::{ControlSettings, GraphicsSettings, Key, KeyMouse, Log, MouseButton, NetworkingSettings};

#[test]
fn default_keybindings() {
    let c = ControlSettings::default();
    assert_eq!(c.toggle_cursor, KeyMouse::Key(Key::Tab));
    assert_eq!(c.escape, KeyMouse::Key(Key::Escape));
    assert_eq!(c.enter, KeyMouse::Key(Key::Return));
    assert_eq!(c.command, KeyMouse::Key(Key::Slash));
    assert_eq!(c.move_forward, KeyMouse::Key(Key::W));
    assert_eq!(c.move_left, KeyMouse::Key(Key::A));
    assert_eq!(c.move_back, KeyMouse::Key(Key::S));
    assert_eq!(c.move_right, KeyMouse::Key(Key::D));
    assert_eq!(c.jump, KeyMouse::Key(Key::Space));
    assert_eq!(c.glide, KeyMouse::Key(Key::LShift));
    assert_eq!(c.map, KeyMouse::Key(Key::M));
    assert_eq!(c.bag, KeyMouse::Key(Key::B));
    assert_eq!(c.quest_log, KeyMouse::Key(Key::L));
    assert_eq!(c.character_window, KeyMouse::Key(Key::C));
    assert_eq!(c.social, KeyMouse::Key(Key::O));
    assert_eq!(c.spellbook, KeyMouse::Key(Key::P));
    assert_eq!(c.settings, KeyMouse::Key(Key::N));
    assert_eq!(c.help, KeyMouse::Key(Key::F1));
    assert_eq!(c.toggle_interface, KeyMouse::Key(Key::F2));
    assert_eq!(c.toggle_debug, KeyMouse::Key(Key::F3));
    assert_eq!(c.fullscreen, KeyMouse::Key(Key::F11));
    assert_eq!(c.screenshot, KeyMouse::Key(Key::F4));
    assert_eq!(c.toggle_ingame_ui, KeyMouse::Key(Key::F6));
    assert_eq!(c.attack, KeyMouse::Mouse(MouseButton::Left));
    assert_eq!(c.second_attack, KeyMouse::Mouse(MouseButton::Right));
    assert_eq!(c.roll, KeyMouse::Mouse(MouseButton::Middle));
}

#[test]
fn default_networking() {
    let n = NetworkingSettings::default();
    assert_eq!(n.username, "Username");
    assert_eq!(n.servers, vec!["server.veloren.net:38889".to_string()]);
    assert_eq!(n.default_server, 0);
}

#[test]
fn default_log_file() {
    assert_eq!(Log::default().file, "voxygen.log");
}

#[test]
fn default_graphics() {
    let g = GraphicsSettings::default();
    assert_eq!(g.view_distance, 5);
    assert_eq!(g.max_fps, 60);
}
