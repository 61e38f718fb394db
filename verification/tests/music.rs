use ray_caster::music::{
    activity_command, next_load_attempt, playback_snapshot, set_unavailable, shuffled_playlist, tracks, AudioAction, MusicCommand,
    MusicSnapshot, PlaylistState, Track,
};
use ray_caster::music_ui::{
    format_times, progress_width, MusicControl, MusicUi, BUTTON_COLOR, BUTTON_HOVER_COLOR, PANEL_COLOR,
    PROGRESS_COLOR, TEXT_COLOR,
};

#[test]
fn la_playlist_declara_las_siete_canciones() {
    assert_eq!(
        tracks().map(|track| track.filename),
        [
            "style.mp3",
            "out_of_the_woods.mp3",
            "wildest_dreams.mp3",
            "cardigan.mp3",
            "all_too_well.mp3",
            "delicate.mp3",
            "this_love.mp3",
        ]
    );
}

#[test]
fn the_shuffled_playlist_holds_each_track_once() {
    let playlist = shuffled_playlist();
    assert_eq!(playlist.len(), 7);
    for track in tracks() {
        assert_eq!(playlist.iter().filter(|t| **t == track).count(), 1);
    }
}

#[test]
fn formatea_tiempos_reales_en_minutos_y_segundos() {
    assert_eq!(&format_times(227_000, 261_000), b"03:47 / 04:21");
}

#[test]
fn times_are_capped_at_99_59() {
    assert_eq!(&format_times(6_000_999, 10_000_000_000), b"99:59 / 99:59");
    assert_eq!(&format_times(0, 59_999), b"00:00 / 00:59");
}

#[test]
fn limita_el_progreso_al_intervalo_visible() {
    assert_eq!(progress_width(226, 20_000, 10_000), 226);
    assert_eq!(progress_width(226, 0, 0), 0);
}

#[test]
fn progress_rounds_to_the_nearest_pixel() {
    assert_eq!(progress_width(226, 30_000, 120_000), 57);
    assert_eq!(progress_width(10, 1, 4), 3);
}

#[test]
fn dibuja_panel_progreso_y_controles_superpuestos() {
    let ui = MusicUi::new();
    let mut buffer = vec![0; 800 * 600];
    ui.draw(
        &mut buffer,
        800,
        600,
        MusicSnapshot {
            track_name: "STYLE",
            elapsed_ms: 30_000,
            duration_ms: 120_000,
            paused: false,
            muted: false,
            available: true,
        },
        false,
    );

    assert!(buffer.contains(&PANEL_COLOR));
    assert!(buffer.contains(&PROGRESS_COLOR));
    assert!(buffer.contains(&BUTTON_COLOR));
    assert!(buffer.contains(&TEXT_COLOR));
}

#[test]
fn clicks_trigger_the_button_under_the_pointer() {
    let mut ui = MusicUi::new();
    // Panel of an 800x600 screen starts at (538, 464); buttons at y 538..568.
    assert_eq!(ui.handle_mouse(true, Some((538 + 60, 540)), true, 800, 600), Some(MusicControl::TogglePause));
    // Holding the button is not a new click.
    assert_eq!(ui.handle_mouse(true, Some((538 + 60, 540)), true, 800, 600), None);
    ui.handle_mouse(false, None, true, 800, 600);
    assert_eq!(ui.handle_mouse(true, Some((538 + 120, 540)), true, 800, 600), Some(MusicControl::Next));
    ui.handle_mouse(false, None, true, 800, 600);
    assert_eq!(ui.handle_mouse(true, Some((538 + 170, 540)), true, 800, 600), Some(MusicControl::ToggleMute));
    ui.handle_mouse(false, None, true, 800, 600);
    // Disabled controls ignore clicks.
    assert_eq!(ui.handle_mouse(true, Some((538 + 60, 540)), false, 800, 600), None);
}

#[test]
fn the_hovered_button_is_highlighted_only_with_controls_enabled() {
    let mut ui = MusicUi::new();
    ui.handle_mouse(false, Some((538 + 60, 540)), true, 800, 600);
    let snapshot = MusicSnapshot::default();
    let mut buffer = vec![0; 800 * 600];
    ui.draw(&mut buffer, 800, 600, snapshot, true);
    assert_eq!(buffer[540 * 800 + 538 + 53], BUTTON_HOVER_COLOR);
    let mut buffer = vec![0; 800 * 600];
    ui.draw(&mut buffer, 800, 600, snapshot, false);
    assert_eq!(buffer[540 * 800 + 538 + 53], BUTTON_COLOR);
}

#[test]
fn the_worker_follows_commands() {
    let mut state = PlaylistState::new(7);
    assert_eq!(state.current_index, 6);
    assert_eq!(state.advance_track(7), 0);
    assert!(!state.should_play());
    assert_eq!(state.process_command(MusicCommand::SetGameActive(true)), AudioAction::ApplyPlayState { play: true });
    assert_eq!(state.process_command(MusicCommand::TogglePause), AudioAction::ApplyPlayState { play: false });
    assert_eq!(state.process_command(MusicCommand::TogglePause), AudioAction::ApplyPlayState { play: true });
    assert_eq!(state.process_command(MusicCommand::ToggleMute), AudioAction::SetMusicMuted { muted: true });
    assert_eq!(state.process_command(MusicCommand::PlayFootstep), AudioAction::PlayFootstep { alternate: false });
    assert_eq!(state.process_command(MusicCommand::PlayFootstep), AudioAction::PlayFootstep { alternate: true });
    assert_eq!(state.process_command(MusicCommand::Next), AudioAction::LoadNextTrack);
    assert_eq!(state.process_command(MusicCommand::PlaySuccess), AudioAction::PlaySuccess);
    assert_eq!(state.process_command(MusicCommand::Shutdown), AudioAction::Shutdown);
    assert!(state.muted && state.game_active && !state.user_paused);
}

#[test]
fn the_playlist_wraps_around() {
    let mut state = PlaylistState::new(3);
    assert_eq!(state.advance_track(3), 0);
    assert_eq!(state.advance_track(3), 1);
    assert_eq!(state.advance_track(3), 2);
    assert_eq!(state.advance_track(3), 0);
}

#[test]
fn snapshots_report_the_track_or_no_audio() {
    let track = Track { filename: "style.mp3", display_name: "STYLE" };
    let snapshot = playback_snapshot(Some((track, 9_000, 5_000)), true, false);
    assert_eq!(snapshot.track_name, "STYLE");
    assert_eq!(snapshot.elapsed_ms, 5_000);
    assert!(snapshot.available && snapshot.paused && !snapshot.muted);
    let mut none = playback_snapshot(None, false, true);
    assert_eq!(none.track_name, "AUDIO NO DISPONIBLE");
    assert!(!none.available && none.muted);
    let mut loading = MusicSnapshot::default();
    assert_eq!(loading.track_name, "CARGANDO MUSICA");
    set_unavailable(&mut loading);
    assert_eq!(loading.track_name, "AUDIO NO DISPONIBLE");
    none.muted = false;
    assert_eq!(activity_command(false, true), Some(MusicCommand::SetGameActive(true)));
    assert_eq!(activity_command(true, true), None);
}

#[test]
fn seven_advances_come_back_to_the_same_track_after_visiting_all() {
    let mut state = PlaylistState::new(7);
    state.advance_track(7);
    let start = state.current_index;
    let mut seen = [false; 7];
    for _ in 0..7 {
        let index = state.advance_track(7);
        seen[index] = true;
    }
    assert_eq!(state.current_index, start);
    assert!(seen.iter().all(|visited| *visited));
}

#[test]
fn pausing_or_muting_twice_restores_the_switches() {
    let mut state = PlaylistState::new(7);
    state.process_command(MusicCommand::SetGameActive(true));
    let before = state;
    state.process_command(MusicCommand::TogglePause);
    state.process_command(MusicCommand::TogglePause);
    assert_eq!(state, before);
    state.process_command(MusicCommand::ToggleMute);
    state.process_command(MusicCommand::ToggleMute);
    assert_eq!(state, before);
}

#[test]
fn muting_leaves_effects_and_playback_alone() {
    let mut state = PlaylistState::new(7);
    state.process_command(MusicCommand::SetGameActive(true));
    let mut muted = state;
    assert_eq!(muted.process_command(MusicCommand::ToggleMute), AudioAction::SetMusicMuted { muted: true });
    assert!(muted.should_play());
    assert_eq!(muted.current_index, state.current_index);
    assert_eq!(
        muted.process_command(MusicCommand::PlayFootstep),
        state.process_command(MusicCommand::PlayFootstep)
    );
    assert_eq!(muted.process_command(MusicCommand::PlaySuccess), AudioAction::PlaySuccess);
}

#[test]
fn loading_tries_each_track_once_then_gives_up() {
    let mut state = PlaylistState::new(3);
    let mut tried = Vec::new();
    let mut attempts = 0;
    while let Some(index) = next_load_attempt(&mut state, 3, attempts) {
        tried.push(index);
        attempts += 1;
    }
    assert_eq!(tried, vec![0, 1, 2]);
    assert_eq!(state.current_index, 2);
    assert_eq!(next_load_attempt(&mut state, 0, 0), None);
}

#[test]
fn progress_fills_any_span() {
    assert_eq!(progress_width(usize::MAX, u64::MAX, u64::MAX), usize::MAX);
    assert_eq!(progress_width(usize::MAX, 1, 2), usize::MAX / 2 + 1);
    assert_eq!(progress_width(1_000_001, 1, 2), 500_001);
}

#[test]
fn the_overlay_changes_only_its_panel() {
    let (width, height) = (800usize, 600usize);
    let snapshot = MusicSnapshot {
        track_name: "OUT OF THE WOODS",
        elapsed_ms: 61_000,
        duration_ms: 235_000,
        paused: true,
        muted: true,
        available: true,
    };
    let first: Vec<u32> = (0..width * height).map(|i| i as u32).collect();
    let second: Vec<u32> = (0..width * height).map(|i| (i as u32).wrapping_mul(7) ^ 0x55).collect();
    let (mut a, mut b) = (first.clone(), second.clone());
    let ui = MusicUi::new();
    ui.draw(&mut a, width, height, snapshot, true);
    ui.draw(&mut b, width, height, snapshot, true);
    // The panel spans [538, 790) x [464, 590).
    for y in 0..height {
        for x in 0..width {
            let i = y * width + x;
            if (538..790).contains(&x) && (464..590).contains(&y) {
                assert_eq!(a[i], b[i]);
            } else {
                assert_eq!(a[i], first[i]);
                assert_eq!(b[i], second[i]);
            }
        }
    }
}
