use ray_caster::level::Level;
use ray_caster::minimap::{
    wall_color, Minimap, PlayerMarker, BACKGROUND_COLOR, FLOOR_COLOR, GOAL_COLOR, GRID_COLOR, PLAYER_COLOR,
};

fn marker_for(x: f32, y: f32, angle: f32) -> PlayerMarker {
    PlayerMarker {
        x: (x * 5.0) as i32,
        y: (y * 5.0) as i32,
        look_x: (angle.cos() * 11.0).round() as i32,
        look_y: (angle.sin() * 11.0).round() as i32,
    }
}

#[test]
fn dibuja_layout_jugador_y_orientacion_superpuestos() {
    let level = Level::parse("11111\n1P..1\n11111").expect("el nivel debe ser válido");
    let start = level.player_start;
    let marker = marker_for(start.column as f32 + 0.5, start.row as f32 + 0.5, 0.0);
    let minimap = Minimap::new(&level);
    let mut buffer = vec![0; 160 * 100];

    minimap.draw(&mut buffer, 160, 100, marker);

    assert!(buffer.contains(&wall_color(1)));
    assert!(buffer.contains(&FLOOR_COLOR));
    assert!(buffer.iter().filter(|pixel| **pixel == PLAYER_COLOR).count() > 9);
}

#[test]
fn the_layout_sits_in_the_top_right_corner() {
    let level = Level::parse("111\n1P1\n111").expect("valid");
    let minimap = Minimap::new(&level);
    // 3x3 cells of 5 pixels plus 3 pixels of padding on each side: 21x21.
    let mut buffer = vec![1u32; 100 * 50];
    minimap.draw(&mut buffer, 100, 50, PlayerMarker { x: -100, y: -100, look_x: 0, look_y: 0 });
    let origin_x = 100 - 21 - 8;
    assert_eq!(buffer[8 * 100 + origin_x], BACKGROUND_COLOR);
    assert_eq!(buffer[8 * 100 + origin_x - 1], 1);
    assert_eq!(buffer[(8 + 3) * 100 + origin_x + 3], GRID_COLOR);
    assert_eq!(buffer[(8 + 4) * 100 + origin_x + 4], wall_color(1));
    assert_eq!(buffer[(8 + 9) * 100 + origin_x + 9], FLOOR_COLOR);
    assert_eq!(buffer[(8 + 21) * 100 + origin_x], 1);
}

#[test]
fn the_look_line_runs_from_the_player_to_its_end() {
    let level = Level::parse("111\n1P1\n111").expect("valid");
    let minimap = Minimap::new(&level);
    let mut buffer = vec![0u32; 100 * 50];
    minimap.draw(&mut buffer, 100, 50, PlayerMarker { x: 7, y: 7, look_x: 11, look_y: 0 });
    let (px, py) = (71 + 3 + 7, 8 + 3 + 7);
    for x in px - 1..=px + 11 {
        assert_eq!(buffer[py * 100 + x], PLAYER_COLOR);
    }
    assert_ne!(buffer[py * 100 + px + 12], PLAYER_COLOR);
    assert_eq!(buffer[(py - 1) * 100 + px - 1], PLAYER_COLOR);
    assert_eq!(buffer[(py + 1) * 100 + px + 1], PLAYER_COLOR);
}

#[test]
fn the_goal_cell_shows_a_green_flag() {
    let level = Level::parse("11111\n1P.G1\n11111").expect("valid");
    let minimap = Minimap::new(&level);
    let mut buffer = vec![0; 160 * 100];
    minimap.draw(&mut buffer, 160, 100, PlayerMarker { x: 7, y: 7, look_x: 0, look_y: 11 });
    // The layout is 31 pixels wide: it starts at x = 160 - 31 - 8 = 121, y = 8.
    // The goal's block (row 1, column 3) starts at (121 + 3 + 15, 8 + 3 + 5).
    let pixel = |x: usize, y: usize| buffer[y * 160 + x];
    assert_eq!(pixel(139, 17), GRID_COLOR);
    assert_eq!(pixel(140, 17), GOAL_COLOR);
    assert_eq!(pixel(140, 20), GOAL_COLOR);
    assert_eq!(pixel(142, 18), GOAL_COLOR);
    assert_eq!(pixel(142, 19), FLOOR_COLOR);
    assert_eq!(pixel(143, 17), FLOOR_COLOR);
    assert_eq!(buffer.iter().filter(|color| **color == GOAL_COLOR).count(), 8);
}

/// A closed 35 x 15 maze with all three wall types, a start and a goal.
const MAZE_35_BY_15: &str = "\
11111111111111111111111111111111111
1P....1.........2.........3.......1
1.111.1.1111111.2.1111111.3.11111.1
1.1...1.1.....1.2.1.....1.3.1...1.1
1.1.111.1.111.1.2.1.111.1.3.1.1.1.1
1.1.....1.1...1...1.1...1...1.1...1
1.1111111.1.1111111.1.1111111.11111
1.........1.........1.............1
1.2222222.33333.3.1.1.222222222.2.1
1.......2.....3.3.1.1.2.......2.2.1
1.22222.2.333.3.3.1...2.22222.2.2.1
1.2...2.2.3...3.3.11111.2...2.2.2.1
1.2.2.2.2.3.333.3.......2.2.2...2.1
1...2.....3.......33333...2.2222.G1
11111111111111111111111111111111111";

#[test]
fn se_superpone_en_la_esquina_del_framebuffer_real() {
    let level = Level::parse(MAZE_35_BY_15).expect("el nivel debe ser válido");
    let start = level.player_start;
    let marker = marker_for(start.column as f32 + 0.5, start.row as f32 + 0.5, 0.0);
    let minimap = Minimap::new(&level);
    let mut buffer = vec![0x202632; 800 * 600];

    minimap.draw(&mut buffer, 800, 600, marker);

    let minimap_width = 35 * 5 + 2 * 3;
    let origin_x = 800 - minimap_width - 8;
    assert_eq!(buffer[8 * 800 + origin_x], BACKGROUND_COLOR);
    assert!(buffer.iter().filter(|pixel| **pixel == PLAYER_COLOR).count() > 9);
}

#[test]
fn a_marker_far_off_the_screen_draws_only_the_layout() {
    let level = Level::parse("111\n1P1\n111").expect("valid");
    let minimap = Minimap::new(&level);
    let mut buffer = vec![0u32; 100 * 50];
    minimap.draw(&mut buffer, 100, 50, PlayerMarker { x: 100_000_000, y: -100_000_000, look_x: 11, look_y: 0 });
    assert!(!buffer.contains(&PLAYER_COLOR));
    assert_eq!(buffer[8 * 100 + 71], BACKGROUND_COLOR);
}
