use ray_caster::bitmap_font::{draw_centered, draw_text};
use ray_caster::fps_counter::{FpsCounter, BACKGROUND_COLOR, TEXT_COLOR};
use ray_caster::game_state::{draw_menu, draw_success, GameState, MENU_BACKGROUND, SUCCESS_BACKGROUND, TITLE_COLOR};

#[test]
fn centra_y_dibuja_texto() {
    let mut buffer = vec![0; 100 * 30];
    draw_centered(&mut buffer, 100, 30, 4, b"MENU", 2, 0xFFFFFF);
    assert!(buffer.contains(&0xFFFFFF));
}

#[test]
fn draws_the_exact_pixels_of_a_glyph() {
    // "-" is the single middle row of five dots.
    let mut buffer = vec![0u32; 10 * 10];
    draw_text(&mut buffer, 10, 10, 1, 1, b"-", 1, 7);
    let lit: Vec<usize> = (0..100).filter(|i| buffer[*i] == 7).collect();
    assert_eq!(lit, vec![4 * 10 + 1, 4 * 10 + 2, 4 * 10 + 3, 4 * 10 + 4, 4 * 10 + 5]);
}

#[test]
fn scaled_glyphs_use_square_blocks_and_clip() {
    // "I" at scale 2 from (0, 0): top row is five dots wide, i.e. ten pixels;
    // a 6-pixel wide raster keeps only the first six.
    let mut buffer = vec![0u32; 6 * 20];
    draw_text(&mut buffer, 6, 20, 0, 0, b"I", 2, 9);
    assert!((0..6).all(|x| buffer[x] == 9 && buffer[6 + x] == 9));
    // Second font row of "I" is only the middle dot: columns 4 and 5.
    assert_eq!(&buffer[12..18], &[0, 0, 0, 0, 9, 9]);
}

#[test]
fn text_is_not_drawn_on_a_mismatched_buffer_or_at_scale_zero() {
    let mut buffer = vec![0u32; 50];
    draw_text(&mut buffer, 10, 10, 0, 0, b"A", 1, 5);
    assert!(buffer.iter().all(|p| *p == 0));
    let mut buffer = vec![0u32; 100];
    draw_text(&mut buffer, 10, 10, 0, 0, b"A", 0, 5);
    assert!(buffer.iter().all(|p| *p == 0));
}

#[test]
fn dibuja_el_contador_sin_salirse_del_buffer() {
    let mut counter = FpsCounter::new();
    counter.displayed_fps = 60;
    let mut buffer = vec![0; 120 * 30];

    counter.draw(&mut buffer, 120, 30);

    assert!(buffer.contains(&TEXT_COLOR));
    assert!(buffer.contains(&BACKGROUND_COLOR));
}

#[test]
fn the_counter_box_covers_columns_3_to_89_and_rows_3_to_23() {
    let counter = FpsCounter::new();
    let mut buffer = vec![1u32; 120 * 30];
    counter.draw(&mut buffer, 120, 30);
    assert_eq!(buffer[3 * 120 + 3], BACKGROUND_COLOR);
    assert_eq!(buffer[23 * 120 + 89], BACKGROUND_COLOR);
    assert_eq!(buffer[2 * 120 + 3], 1);
    assert_eq!(buffer[3 * 120 + 90], 1);
    assert_eq!(buffer[24 * 120 + 10], 1);
}

#[test]
fn the_counter_measures_half_second_windows() {
    let mut counter = FpsCounter::new();
    for _ in 0..29 {
        assert!(!counter.count_frame(100_000_000));
    }
    // The 30th frame arrives after exactly half a second: 60 frames per second.
    assert!(counter.count_frame(500_000_000));
    assert_eq!(counter.displayed_fps, 60);
    // 1 frame in 0.75 s rounds 1.33 down to 1.
    assert!(counter.count_frame(750_000_000));
    assert_eq!(counter.displayed_fps, 1);
}

#[test]
fn transiciona_de_menu_a_juego() {
    let mut state = GameState::Menu;
    state.start();
    assert_eq!(state, GameState::Playing);
}

#[test]
fn llega_al_exito_al_entrar_en_la_meta() {
    let mut state = GameState::Playing;
    let (player_x, player_y) = (2.5f32, 3.5f32);
    let (goal_x, goal_y) = (2.5f32, 3.5f32);
    let at_goal = (player_x - goal_x).powi(2) + (player_y - goal_y).powi(2) <= 0.4 * 0.4;
    state.check_goal(at_goal);
    assert_eq!(state, GameState::Success);
}

#[test]
fn the_screens_follow_menu_playing_success_menu() {
    let mut state = GameState::Menu;
    state.check_goal(true);
    assert_eq!(state, GameState::Menu);
    state.return_to_menu();
    assert_eq!(state, GameState::Menu);
    state.start();
    assert_eq!(state, GameState::Playing);
    state.start();
    state.return_to_menu();
    state.check_goal(false);
    assert_eq!(state, GameState::Playing);
    state.check_goal(true);
    assert_eq!(state, GameState::Success);
    state.start();
    assert_eq!(state, GameState::Success);
    state.return_to_menu();
    assert_eq!(state, GameState::Menu);
}

#[test]
fn menu_and_success_screens_fill_the_background_and_write_the_title() {
    let mut buffer = vec![0u32; 800 * 600];
    draw_menu(&mut buffer, 800, 600);
    assert_eq!(buffer[0], MENU_BACKGROUND);
    assert!(buffer.contains(&TITLE_COLOR));
    draw_success(&mut buffer, 800, 600);
    assert_eq!(buffer[0], SUCCESS_BACKGROUND);
    assert!(buffer.contains(&TITLE_COLOR));
    // A buffer of the wrong size is only cleared.
    let mut small = vec![0u32; 10];
    draw_menu(&mut small, 800, 600);
    assert!(small.iter().all(|p| *p == MENU_BACKGROUND));
}

#[test]
fn from_any_screen_start_goal_and_back_ends_on_the_menu() {
    for initial in [GameState::Menu, GameState::Playing, GameState::Success] {
        let mut state = initial;
        state.start();
        state.check_goal(true);
        state.return_to_menu();
        assert_eq!(state, GameState::Menu);
    }
}

#[test]
fn a_frame_inside_the_window_keeps_its_start() {
    let mut counter = FpsCounter::new();
    let start = counter.sample_started;
    counter.frame_rendered();
    counter.frame_rendered();
    assert_eq!(counter.frames, 2);
    assert_eq!(counter.sample_started, start);
    assert_eq!(counter.displayed_fps, 0);
}
