use ray_caster::level::{Goal, Level, LevelError, PlayerStart};

#[test]
fn parsea_paredes_y_posicion_inicial() {
    let level = Level::parse("111\n1P2\n133").expect("el mapa debe ser válido");

    assert_eq!(level.tiles, vec![vec![1, 1, 1], vec![1, 0, 2], vec![1, 3, 3]]);
    assert_eq!(level.player_start, PlayerStart { row: 1, column: 1 });
    assert_eq!(level.goal, None);
}

#[test]
fn reads_the_goal_and_windows_line_endings() {
    let level = Level::parse("11111\r\n1P.G1\r\n11111\r\n").expect("valid");
    assert_eq!(level.tiles.len(), 3);
    assert_eq!(level.tiles[1], vec![1, 0, 0, 0, 1]);
    assert_eq!(level.goal, Some(Goal { row: 1, column: 3 }));
}

#[test]
fn an_enclosed_goal_on_the_edge_is_accepted() {
    assert!(Level::parse("1111\n1P11\n1111\n111G").is_ok());
}

#[test]
fn rejects_each_malformed_level() {
    assert_eq!(Level::parse("").unwrap_err(), LevelError::Empty);
    assert_eq!(Level::parse("111\n\n111").unwrap_err(), LevelError::EmptyRow { row: 1 });
    assert_eq!(
        Level::parse("111\n1x1\n111").unwrap_err(),
        LevelError::InvalidCharacter { character: b'x', row: 1, column: 1 }
    );
    assert_eq!(
        Level::parse("111\n1P4\n111").unwrap_err(),
        LevelError::UntexturedWall { wall_type: 4, row: 1, column: 2 }
    );
    assert_eq!(Level::parse("1111\n1PP1\n1111").unwrap_err(), LevelError::DuplicateStart);
    assert_eq!(Level::parse("11111\n1PGG1\n11111").unwrap_err(), LevelError::DuplicateGoal);
    assert_eq!(Level::parse("111\n1P11\n111").unwrap_err(), LevelError::NotRectangular);
    assert_eq!(Level::parse("111\n1.1\n111").unwrap_err(), LevelError::MissingStart);
    assert_eq!(Level::parse("111\n1P.\n111").unwrap_err(), LevelError::Open);
    assert_eq!(Level::parse("1111\n1P..\n1111").unwrap_err(), LevelError::Open);
    assert_eq!(Level::parse("P").unwrap_err(), LevelError::Open);
}

#[test]
fn the_first_problem_in_reading_order_is_reported() {
    assert_eq!(
        Level::parse("1P1\n1P1x").unwrap_err(),
        LevelError::DuplicateStart
    );
    assert_eq!(Level::parse("11\n1x1").unwrap_err(), LevelError::InvalidCharacter { character: b'x', row: 1, column: 1 });
}

#[test]
fn a_winding_corridor_is_closed() {
    let source = "1111111\n1P1...1\n1.1.1.1\n1...1G1\n1111111";
    let level = Level::parse(source).expect("closed");
    assert_eq!(level.player_start, PlayerStart { row: 1, column: 1 });
    assert_eq!(level.goal, Some(Goal { row: 3, column: 5 }));
}
