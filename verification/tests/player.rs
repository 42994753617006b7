use youngl_music::player::{
    fetch_progress, get_audio_state, get_playback_progress, load_song, seek_audio, set_position,
    set_volume, spawn_playback_watcher, start_playback_monitor, stop_song, toggle_playback,
    track_duration_ms, AudioProgress, AudioState, LoadError, PlaybackError, PlaybackState,
    SinkCommand, SinkStatus, Toggled, WatcherStep, DEFAULT_VOLUME, WATCH_INTERVAL_MS,
};

fn device(paused: bool, position_ms: u64) -> SinkStatus {
    SinkStatus { empty: false, paused, position_ms }
}

fn loaded(total_duration_ms: u64) -> AudioState {
    let mut state = get_audio_state();
    load_song(&mut state, Ok(total_duration_ms)).unwrap();
    state
}

#[test]
fn a_new_engine_is_idle() {
    let state = get_audio_state();
    assert_eq!(state.playback_state(), PlaybackState::Idle);
    assert_eq!(state.volume(), 80);
    assert_eq!(DEFAULT_VOLUME, 80);
    assert_eq!(state.generation(), 0);
    assert_eq!(get_playback_progress(&state), AudioProgress { position_ms: 0, duration_ms: 0 });
}

#[test]
fn load_plays_from_the_start_with_the_returned_duration() {
    let mut state = get_audio_state();
    let plan = load_song(&mut state, Ok(180_000)).unwrap();
    assert_eq!(plan.total_duration_ms, 180_000);
    assert_eq!(plan.generation, 1);
    assert_eq!(
        plan.commands,
        vec![SinkCommand::Stop, SinkCommand::Clear, SinkCommand::Append, SinkCommand::Play]
    );
    assert_eq!(state.playback_state(), PlaybackState::Playing);
    assert_eq!(get_playback_progress(&state), AudioProgress { position_ms: 0, duration_ms: plan.total_duration_ms });
    assert_eq!(fetch_progress(&mut state, device(false, 0)), 0);
}

#[test]
fn a_failed_load_leaves_the_engine_as_it_was() {
    let mut state = get_audio_state();
    assert_eq!(load_song(&mut state, Err(LoadError::Open)), Err(LoadError::Open));
    assert_eq!(state.playback_state(), PlaybackState::Idle);
    assert_eq!(state.generation(), 0);

    let mut state = loaded(60_000);
    fetch_progress(&mut state, device(false, 12_000));
    toggle_playback(&mut state, device(false, 12_500)).unwrap();
    assert_eq!(load_song(&mut state, Err(LoadError::Decode)), Err(LoadError::Decode));
    assert_eq!(state.playback_state(), PlaybackState::Paused);
    assert_eq!(state.generation(), 1);
    assert_eq!(get_playback_progress(&state), AudioProgress { position_ms: 12_500, duration_ms: 60_000 });
}

#[test]
fn a_load_after_a_pause_plays_again() {
    let mut state = loaded(60_000);
    toggle_playback(&mut state, device(false, 30_000)).unwrap();
    let plan = load_song(&mut state, Ok(90_000)).unwrap();
    assert_eq!(plan.generation, 2);
    assert_eq!(state.playback_state(), PlaybackState::Playing);
    assert_eq!(get_playback_progress(&state), AudioProgress { position_ms: 0, duration_ms: 90_000 });
}

#[test]
fn toggles_alternate_starting_from_playing() {
    let mut state = loaded(180_000);
    let mut device_paused = false;
    for round in 0..7u64 {
        let toggled = toggle_playback(&mut state, device(device_paused, round * 1000)).unwrap();
        let expect_paused = round % 2 == 0;
        assert_eq!(toggled.is_paused, expect_paused);
        assert_eq!(
            toggled.command,
            if expect_paused { SinkCommand::Pause } else { SinkCommand::Play }
        );
        assert_eq!(
            state.playback_state(),
            if expect_paused { PlaybackState::Paused } else { PlaybackState::Playing }
        );
        device_paused = toggled.is_paused;
    }
}

#[test]
fn toggle_follows_the_device_not_the_engine() {
    let mut state = loaded(1000);
    assert_eq!(state.playback_state(), PlaybackState::Playing);
    let toggled = toggle_playback(&mut state, device(true, 0)).unwrap();
    assert_eq!(toggled, Toggled { command: SinkCommand::Play, is_paused: false });
    assert_eq!(state.playback_state(), PlaybackState::Playing);
}

#[test]
fn toggle_without_a_track_is_turned_down() {
    let mut state = get_audio_state();
    assert_eq!(toggle_playback(&mut state, device(false, 0)), Err(PlaybackError::NotLoaded));
    assert_eq!(toggle_playback(&mut state, device(true, 5)), Err(PlaybackError::NotLoaded));
    assert_eq!(state.playback_state(), PlaybackState::Idle);
}

#[test]
fn progress_follows_the_device_within_the_track() {
    let mut state = loaded(10_000);
    assert_eq!(fetch_progress(&mut state, device(false, 2_500)), 2_500);
    assert_eq!(get_playback_progress(&state), AudioProgress { position_ms: 2_500, duration_ms: 10_000 });
    assert_eq!(fetch_progress(&mut state, device(false, 10_000)), 10_000);
    assert_eq!(fetch_progress(&mut state, device(false, 10_001)), 10_000);
    assert_eq!(fetch_progress(&mut state, device(false, u64::MAX)), 10_000);
}

#[test]
fn progress_of_an_idle_engine_is_zero() {
    let mut state = get_audio_state();
    assert_eq!(fetch_progress(&mut state, device(false, 777)), 0);
    assert_eq!(get_playback_progress(&state), AudioProgress { position_ms: 0, duration_ms: 0 });
}

#[test]
fn the_position_is_frozen_while_paused() {
    let mut state = loaded(180_000);
    fetch_progress(&mut state, device(false, 41_000));
    let toggled = toggle_playback(&mut state, device(false, 41_250)).unwrap();
    assert!(toggled.is_paused);
    let first = get_playback_progress(&state);
    assert_eq!(first, AudioProgress { position_ms: 41_250, duration_ms: 180_000 });
    for drift in [0u64, 500, 1000, 1500] {
        assert_eq!(fetch_progress(&mut state, device(true, 41_250 + drift)), 41_250);
        assert_eq!(get_playback_progress(&state), first);
    }
}

#[test]
fn seek_within_the_track_lands_where_it_aims() {
    let mut state = loaded(100_000);
    for time_ms in [0u64, 1, 50_000, 99_999, 100_000] {
        assert_eq!(seek_audio(&state, time_ms), Ok(time_ms));
        assert_eq!(set_position(&mut state, time_ms, true), Ok(()));
        assert_eq!(get_playback_progress(&state).position_ms, time_ms);
    }
}

#[test]
fn seek_beyond_the_end_lands_at_the_end() {
    let mut state = loaded(100_000);
    for time_ms in [100_001u64, 1_000_000, u64::MAX] {
        assert_eq!(seek_audio(&state, time_ms), Ok(100_000));
        assert_eq!(set_position(&mut state, time_ms, true), Ok(()));
        assert_eq!(get_playback_progress(&state), AudioProgress { position_ms: 100_000, duration_ms: 100_000 });
    }
}

#[test]
fn a_seek_that_the_device_refuses_changes_nothing() {
    let mut state = loaded(100_000);
    fetch_progress(&mut state, device(false, 3_000));
    assert_eq!(set_position(&mut state, 50_000, false), Err(PlaybackError::Seek));
    assert_eq!(get_playback_progress(&state).position_ms, 3_000);
}

#[test]
fn seek_without_a_track_is_turned_down() {
    let mut state = get_audio_state();
    assert_eq!(seek_audio(&state, 10), Err(PlaybackError::NotLoaded));
    assert_eq!(set_position(&mut state, 10, true), Err(PlaybackError::NotLoaded));
    assert_eq!(set_position(&mut state, 10, false), Err(PlaybackError::NotLoaded));
    assert_eq!(get_playback_progress(&state), AudioProgress { position_ms: 0, duration_ms: 0 });
}

#[test]
fn seek_while_paused_moves_the_frozen_position() {
    let mut state = loaded(100_000);
    toggle_playback(&mut state, device(false, 10_000)).unwrap();
    assert_eq!(set_position(&mut state, 70_000, true), Ok(()));
    assert_eq!(fetch_progress(&mut state, device(true, 10_000)), 70_000);
    assert_eq!(state.playback_state(), PlaybackState::Paused);
}

#[test]
fn volume_is_held_between_0_and_100() {
    let mut state = get_audio_state();
    assert_eq!(set_volume(&mut state, 55), 55);
    assert_eq!(state.volume(), 55);
    assert_eq!(set_volume(&mut state, 0), 0);
    assert_eq!(set_volume(&mut state, 100), 100);
    assert_eq!(set_volume(&mut state, 101), 100);
    assert_eq!(set_volume(&mut state, i32::MAX), 100);
    assert_eq!(state.volume(), 100);
    assert_eq!(set_volume(&mut state, -1), 0);
    assert_eq!(set_volume(&mut state, i32::MIN), 0);
    assert_eq!(state.volume(), 0);
}

#[test]
fn volume_survives_loads_and_stops() {
    let mut state = get_audio_state();
    set_volume(&mut state, 30);
    load_song(&mut state, Ok(1000)).unwrap();
    assert_eq!(state.volume(), 30);
    stop_song(&mut state);
    assert_eq!(state.volume(), 30);
}

#[test]
fn stop_makes_the_engine_idle() {
    let mut state = loaded(5000);
    fetch_progress(&mut state, device(false, 100));
    assert_eq!(stop_song(&mut state), SinkCommand::Stop);
    assert_eq!(state.playback_state(), PlaybackState::Idle);
    assert_eq!(get_playback_progress(&state), AudioProgress { position_ms: 0, duration_ms: 0 });
    assert_eq!(state.generation(), 1);
    assert_eq!(toggle_playback(&mut state, device(false, 0)), Err(PlaybackError::NotLoaded));
}

#[test]
fn a_watcher_waits_then_reports_the_end_once() {
    let state = loaded(5000);
    let watcher = spawn_playback_watcher(&state);
    assert_eq!(watcher.generation, 1);
    assert_eq!(start_playback_monitor(&watcher, &state, device(false, 100)), WatcherStep::Wait);
    let finished = SinkStatus { empty: true, paused: false, position_ms: 5000 };
    assert_eq!(start_playback_monitor(&watcher, &state, finished), WatcherStep::Finished);
    assert_eq!(WATCH_INTERVAL_MS, 500);
}

#[test]
fn a_watcher_of_an_earlier_load_retires_silently() {
    let mut state = get_audio_state();
    load_song(&mut state, Ok(10_000)).unwrap();
    let first = spawn_playback_watcher(&state);
    load_song(&mut state, Ok(20_000)).unwrap();
    let second = spawn_playback_watcher(&state);
    let empty = SinkStatus { empty: true, paused: false, position_ms: 0 };
    assert_eq!(start_playback_monitor(&first, &state, empty), WatcherStep::Retire);
    assert_eq!(start_playback_monitor(&first, &state, device(false, 1)), WatcherStep::Retire);
    assert_eq!(start_playback_monitor(&second, &state, empty), WatcherStep::Finished);
    assert_eq!(get_playback_progress(&state).duration_ms, 20_000);
}

#[test]
fn a_watcher_retires_when_the_track_is_let_go() {
    let mut state = loaded(10_000);
    let watcher = spawn_playback_watcher(&state);
    stop_song(&mut state);
    let empty = SinkStatus { empty: true, paused: false, position_ms: 0 };
    assert_eq!(start_playback_monitor(&watcher, &state, empty), WatcherStep::Retire);
}

#[test]
fn a_paused_track_is_not_finished_while_the_device_holds_it() {
    let mut state = loaded(10_000);
    let watcher = spawn_playback_watcher(&state);
    toggle_playback(&mut state, device(false, 10)).unwrap();
    assert_eq!(start_playback_monitor(&watcher, &state, device(true, 10)), WatcherStep::Wait);
}

#[test]
fn frames_and_time_base_give_the_duration() {
    assert_eq!(track_duration_ms(Some(441_000), Some((1, 44_100))), 10_000);
    assert_eq!(track_duration_ms(Some(7_938_000), Some((1, 44_100))), 180_000);
    assert_eq!(track_duration_ms(Some(1), Some((1, 3))), 333);
    assert_eq!(track_duration_ms(Some(2), Some((1, 3))), 666);
    assert_eq!(track_duration_ms(Some(0), Some((1, 44_100))), 0);
    assert_eq!(track_duration_ms(Some(5), Some((2, 1))), 10_000);
}

#[test]
fn an_unknown_length_is_zero() {
    assert_eq!(track_duration_ms(None, Some((1, 44_100))), 0);
    assert_eq!(track_duration_ms(Some(1000), None), 0);
    assert_eq!(track_duration_ms(None, None), 0);
    assert_eq!(track_duration_ms(Some(1000), Some((1, 0))), 0);
}

#[test]
fn a_length_beyond_64_bits_is_held_at_the_largest() {
    assert_eq!(track_duration_ms(Some(u64::MAX), Some((u32::MAX, 1))), u64::MAX);
    assert_eq!(track_duration_ms(Some(u64::MAX), Some((1, 1000))), u64::MAX);
    assert_eq!(track_duration_ms(Some(u64::MAX), Some((1, 1001))), 18_428_315_757_951_600_014);
}

#[test]
fn each_load_has_the_next_token() {
    let mut state = get_audio_state();
    let mut generation = 0;
    for _ in 0..3 {
        generation = load_song(&mut state, Ok(1)).unwrap().generation;
    }
    assert_eq!(generation, 3);
}
