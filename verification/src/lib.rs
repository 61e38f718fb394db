pub mod canvas;
pub mod music_ui;
pub mod bitmap_font;
pub mod fps_counter;
pub mod game_state;
pub mod music;
pub mod level;
pub mod raycaster;
pub mod texture;
pub mod minimap;
