use veloren::audio::{pick_soundtrack, select_random_music, AudioType, Channel, ChannelState, ChannelTable};

fn tracks() -> Vec<String> {
    vec!["a.ogg".to_string(), "b.ogg".to_string(), "c.ogg".to_string()]
}

#[test]
fn pick_soundtrack_takes_the_draw_modulo_the_count() {
    assert_eq!(pick_soundtrack(&tracks(), 0), "a.ogg");
    assert_eq!(pick_soundtrack(&tracks(), 4), "b.ogg");
    assert_eq!(pick_soundtrack(&tracks(), usize::MAX), tracks()[usize::MAX % 3]);
}

#[test]
fn random_music_is_one_of_the_soundtracks() {
    for _ in 0..20 {
        assert!(tracks().contains(&select_random_music(&tracks())));
    }
}

#[test]
fn channel_life() {
    let mut c = Channel::sfx(3);
    assert_eq!(c.audio_type, AudioType::Sfx);
    assert_eq!(c.get_state(), ChannelState::Playing);
    c.update(true);
    assert_eq!(c.get_state(), ChannelState::Playing);
    c.stop();
    assert_eq!(c.get_state(), ChannelState::Stopping);
    c.update(false);
    assert_eq!(c.get_state(), ChannelState::Stopping);
    c.update(true);
    assert_eq!(c.get_state(), ChannelState::Stopped);
    assert_eq!(Channel::music(4).audio_type, AudioType::Music);
}

#[test]
fn ids_are_handed_out_in_turn() {
    let mut t = ChannelTable::new();
    assert_eq!(t.play_sound(true), 0);
    assert_eq!(t.play_sound(false), 1);
    assert_eq!(t.play_sound(true), 2);
    let ids: Vec<usize> = t.channels().iter().map(|c| c.id).collect();
    assert_eq!(ids, vec![0, 2]);
    assert!(t.channels().iter().all(|c| c.audio_type == AudioType::Music));
}

#[test]
fn stopped_and_empty_channels_are_dropped() {
    let mut t = ChannelTable::new();
    t.play_sound(true);
    t.play_sound(true);
    t.play_sound(true);
    t.stop_channel(1);
    t.stop_channel(7);
    assert_eq!(t.channels()[1].state, ChannelState::Stopping);
    assert_eq!(t.channels()[0].state, ChannelState::Playing);
    assert_eq!(t.channels()[2].state, ChannelState::Playing);
    t.maintain(&vec![true, true, true], &vec![false, false, false]);
    let ids: Vec<usize> = t.channels().iter().map(|c| c.id).collect();
    // channel 1 was fading and its fader finished
    assert_eq!(ids, vec![0, 2]);
    t.maintain(&vec![false, false], &vec![true, false]);
    let ids: Vec<usize> = t.channels().iter().map(|c| c.id).collect();
    assert_eq!(ids, vec![2]);
}

#[test]
fn stopping_channel_stays_until_its_fader_finishes() {
    let mut t = ChannelTable::new();
    let id = t.play_sound(true);
    t.stop_channel(id);
    t.maintain(&vec![false], &vec![false]);
    assert_eq!(t.channels()[0].state, ChannelState::Stopping);
    t.maintain(&vec![true], &vec![false]);
    assert!(t.channels().is_empty());
}

#[test]
fn stopping_an_unknown_id_changes_nothing() {
    let mut t = ChannelTable::new();
    t.play_sound(true);
    t.play_sound(true);
    let before: Vec<Channel> = t.channels().clone();
    t.stop_channel(5);
    assert_eq!(t.channels(), &before);
}
