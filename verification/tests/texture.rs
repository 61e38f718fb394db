use ray_caster::raycaster::{wall_color, HitSide};
use ray_caster::texture::{TextureError, WallTextures, LIGHT_LEVEL_COUNT};
use std::io::Cursor;

fn png(seed: u8) -> Vec<u8> {
    let image = image::RgbImage::from_fn(128, 128, |x, y| {
        image::Rgb([seed.wrapping_mul(40).wrapping_add(x as u8), y as u8, seed])
    });
    let mut bytes = Vec::new();
    image.write_to(&mut Cursor::new(&mut bytes), image::ImageFormat::Png).expect("encodes");
    bytes
}

#[test]
fn carga_tres_texturas_distintas() {
    let (first, second, third) = (png(1), png(2), png(3));
    let textures = WallTextures::load_embedded([&first, &second, &third]).expect("las texturas deben cargar");

    assert_eq!(textures.textures.len(), 3);
    assert!(textures.textures.iter().all(|texture| texture.width == 128 && texture.height == 128));
    assert!(textures.textures.iter().all(|texture| texture.light_levels.len() == LIGHT_LEVEL_COUNT));
    assert_ne!(textures.textures[0], textures.textures[1]);
    assert_ne!(textures.textures[1], textures.textures[2]);
}

#[test]
fn light_levels_scale_from_30_to_100_percent() {
    let bytes = png(2);
    let textures = WallTextures::load_embedded([&bytes, &bytes, &bytes]).expect("loads");
    let texture = &textures.textures[0];
    // Pixel (10, 20) of seed 2 is (90, 20, 2).
    let index = 20 * 128 + 10;
    assert_eq!(texture.light_levels[15][index], 0x5A1402);
    // 30%: 27, 6, 0.
    assert_eq!(texture.light_levels[0][index], (27 << 16) | (6 << 8));
    let column = textures.column(2, 10, 15);
    assert_eq!(column.sample(20), 0x5A1402);
}

#[test]
fn a_broken_png_is_reported_with_its_wall_type() {
    let good = png(1);
    let broken = vec![1u8, 2, 3];
    match WallTextures::load_embedded([&good, &broken, &good]) {
        Err(TextureError::Decode { wall_type, .. }) => assert_eq!(wall_type, 2),
        other => panic!("unexpected {:?}", other.map(|_| ())),
    }
}

#[test]
fn horizontal_hits_are_darker() {
    assert_eq!(wall_color(1, HitSide::Vertical), 0xD95757);
    // 0xD9 * 0.72 = 156.24, 0x57 * 0.72 = 62.64
    assert_eq!(wall_color(1, HitSide::Horizontal), (156 << 16) | (62 << 8) | 62);
    assert_eq!(wall_color(0, HitSide::Vertical), 0xFFFFFF);
}

#[test]
fn brighter_levels_never_darken_a_channel() {
    let bytes = png(3);
    let textures = WallTextures::load_embedded([&bytes, &bytes, &bytes]).expect("loads");
    let texture = &textures.textures[0];
    for index in [0usize, 77, 128 * 64 + 5, 128 * 128 - 1] {
        for level in 1..LIGHT_LEVEL_COUNT {
            let dim = texture.light_levels[level - 1][index];
            let bright = texture.light_levels[level][index];
            for shift in [0, 8, 16] {
                assert!((dim >> shift) & 0xFF <= (bright >> shift) & 0xFF);
            }
        }
    }
}

#[test]
fn every_horizontal_wall_is_darker_channel_by_channel() {
    for wall_type in 0..=10u8 {
        let vertical = wall_color(wall_type, HitSide::Vertical);
        let horizontal = wall_color(wall_type, HitSide::Horizontal);
        for shift in [0, 8, 16] {
            assert!((horizontal >> shift) & 0xFF <= (vertical >> shift) & 0xFF);
        }
    }
}

#[test]
fn a_texture_is_built_from_rgb_bytes_at_every_level() {
    let texture = ray_caster::texture::Texture::from_rgb(2, 1, &[255, 0, 0, 0, 128, 255]);
    assert_eq!((texture.width, texture.height), (2, 1));
    assert_eq!(texture.light_levels.len(), LIGHT_LEVEL_COUNT);
    assert_eq!(texture.light_levels[15], vec![0xFF0000, 0x0080FF]);
    assert_eq!(texture.light_levels[0], vec![0x4C0000, 0x00264C]);
}
