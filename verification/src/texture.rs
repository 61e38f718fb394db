//! Wall textures: PNG images decoded with `image`, each kept at 16 light levels.
use crate::raycaster::{channel, is_channel_unit, lemma_scaled_channels, scaled_color, shade};
use vstd::prelude::*;

verus! {

pub const LIGHT_LEVEL_COUNT: usize = 16;

/// The RGB bytes of `bytes` decoded as a PNG: width, height and the image's
/// buffer (row-major, three bytes per pixel), or `None` when it cannot be decoded.
pub uninterp spec fn png_pixels(bytes: Seq<u8>) -> Option<(u32, u32, Seq<u8>)>;

/// `image::load_from_memory_with_format` with `ImageFormat::Png`, converted with
/// `DynamicImage::to_rgb8` and taken apart into width, height and the buffer
/// (`ImageBuffer::into_raw`); a decoding error is turned into its message.
/// The result depends on the bytes alone; the buffer holds at least three
/// bytes per pixel, as every `ImageBuffer` does.
#[verifier::external_body]
fn decode_png_rgb(bytes: &[u8]) -> (decoded: Result<(u32, u32, Vec<u8>), String>)
    ensures
        match decoded {
            Ok((width, height, raw)) => png_pixels(bytes@) == Some((width, height, raw@)) && raw@.len() >= width
                * height * 3,
            Err(_) => png_pixels(bytes@) is None,
        },
{
    match image::load_from_memory_with_format(bytes, image::ImageFormat::Png) {
        Ok(image) => {
            let rgb = image.to_rgb8();
            Ok((rgb.width(), rgb.height(), rgb.into_raw()))
        },
        Err(error) => Err(error.to_string()),
    }
}

/// Why the textures could not be loaded; `wall_type` counts from 1.
#[derive(Debug)]
pub enum TextureError {
    /// The PNG could not be decoded; `reason` is the decoder's message.
    Decode { wall_type: usize, reason: String },
    /// The image has no pixels.
    Empty { wall_type: usize },
}

/// One wall texture at every light level.
#[derive(Debug, PartialEq)]
pub struct Texture {
    pub width: usize,
    pub height: usize,
    /// `light_levels[level][y * width + x]`.
    pub light_levels: Vec<Vec<u32>>,
}

/// Pixel `i` of an RGB buffer as `0xRRGGBB`.
pub open spec fn rgb_at(raw: Seq<u8>, i: int) -> u32 {
    (raw[3 * i] * 0x10000 + raw[3 * i + 1] * 0x100 + raw[3 * i + 2]) as u32
}

/// Light level `level` scales each channel by `(45 + 7 * level) / 150`: from
/// 30% at level 0 up to 100% at level 15, rounded down.
pub open spec fn lit(color: u32, level: int) -> u32 {
    scaled_color(color, 45 + 7 * level, 150)
}

/// A brighter light level never darkens a channel, and the brightest level
/// shows a colour of the image as it is.
pub proof fn lemma_light_levels(color: u32, dim: int, bright: int, unit: int)
    requires
        0 <= dim <= bright < LIGHT_LEVEL_COUNT,
        is_channel_unit(unit),
    ensures
        channel(lit(color, dim), unit) <= channel(lit(color, bright), unit),
        color <= 0xFFFFFF ==> lit(color, LIGHT_LEVEL_COUNT - 1) == color,
{
    let value = channel(color, unit);
    assert(0 <= value) by {
        vstd::arithmetic::div_mod::lemma_mod_bound(color as int / unit, 0x100);
    }
    lemma_scaled_channels(color, 45 + 7 * dim, 150, unit);
    lemma_scaled_channels(color, 45 + 7 * bright, 150, unit);
    assert(value * (45 + 7 * dim) <= value * (45 + 7 * bright)) by (nonlinear_arith)
        requires
            0 <= value,
            dim <= bright,
    ;
    vstd::arithmetic::div_mod::lemma_div_is_ordered(value * (45 + 7 * dim), value * (45 + 7 * bright), 150);
    if color <= 0xFFFFFF {
        let r = (color as int / 0x10000) % 0x100;
        let g = (color as int / 0x100) % 0x100;
        let b = color as int % 0x100;
        vstd::arithmetic::div_mod::lemma_div_by_multiple(r, 150);
        vstd::arithmetic::div_mod::lemma_div_by_multiple(g, 150);
        vstd::arithmetic::div_mod::lemma_div_by_multiple(b, 150);
        assert(((color / 0x10000) % 0x100) * 0x10000 + ((color / 0x100) % 0x100) * 0x100 + color % 0x100
            == color) by (bit_vector)
            requires
                color <= 0xFFFFFF,
        ;
    }
}

/// A PNG that decodes to an image with pixels.
pub open spec fn usable(png: Seq<u8>) -> bool {
    png_pixels(png) matches Some((width, height, _)) && width > 0 && height > 0
}

impl Texture {
    /// The texture is the decoded image of `png`, at every light level.
    pub open spec fn decoded_from(&self, png: Seq<u8>) -> bool {
        match png_pixels(png) {
            Some((width, height, raw)) => width > 0 && height > 0 && self.shows(width as int, height as int, raw),
            None => false,
        }
    }

    /// The texture is the image of `width` by `height` pixels in `raw`, at every light level.
    pub open spec fn shows(&self, width: int, height: int, raw: Seq<u8>) -> bool {
        &&& self.width == width
        &&& self.height == height
        &&& self.light_levels@.len() == LIGHT_LEVEL_COUNT
        &&& forall|level: int|
            0 <= level < LIGHT_LEVEL_COUNT ==> #[trigger] self.light_levels@[level]@.len() == width * height
        &&& forall|level: int, i: int|
            0 <= level < LIGHT_LEVEL_COUNT && 0 <= i < width * height ==> #[trigger] self.light_levels@[level]@[i]
                == lit(rgb_at(raw, i), level)
    }
}

impl Texture {
    /// The texture of an image `width` by `height` pixels whose RGB bytes
    /// (row-major, three per pixel) start `raw`, at every light level.
    pub fn from_rgb(width: usize, height: usize, raw: &[u8]) -> (texture: Texture)
        requires
            raw@.len() >= width * height * 3,
        ensures
            texture.shows(width as int, height as int, raw@),
    {
        let raw_length = raw.len();
        let pixel_count = width * height;
        let mut base: Vec<u32> = Vec::new();
        let mut i: usize = 0;
        while i < pixel_count
            invariant
                pixel_count == width * height,
                raw@.len() >= pixel_count * 3,
                raw_length == raw@.len(),
                i <= pixel_count,
                base@.len() == i,
                forall|j: int| 0 <= j < i ==> #[trigger] base@[j] == rgb_at(raw@, j),
            decreases pixel_count - i,
        {
            let red = raw[3 * i] as u32;
            let green = raw[3 * i + 1] as u32;
            let blue = raw[3 * i + 2] as u32;
            base.push((red << 16) | (green << 8) | blue);
            proof {
                assert((red << 16) | (green << 8) | blue == red * 0x10000 + green * 0x100 + blue) by (bit_vector)
                    requires
                        red <= 255,
                        green <= 255,
                        blue <= 255,
                ;
            }
            i = i + 1;
        }
        let mut light_levels: Vec<Vec<u32>> = Vec::new();
        let mut level: usize = 0;
        while level < LIGHT_LEVEL_COUNT
            invariant
                pixel_count == width * height,
                base@.len() == pixel_count,
                forall|j: int| 0 <= j < pixel_count ==> #[trigger] base@[j] == rgb_at(raw@, j),
                level <= LIGHT_LEVEL_COUNT,
                light_levels@.len() == level,
                forall|l: int| 0 <= l < level ==> #[trigger] light_levels@[l]@.len() == pixel_count,
                forall|l: int, j: int|
                    0 <= l < level && 0 <= j < pixel_count ==> #[trigger] light_levels@[l]@[j] == lit(rgb_at(raw@, j), l),
            decreases LIGHT_LEVEL_COUNT - level,
        {
            let mut shaded: Vec<u32> = Vec::new();
            let mut j: usize = 0;
            while j < pixel_count
                invariant
                    base@.len() == pixel_count,
                    level < LIGHT_LEVEL_COUNT,
                    j <= pixel_count,
                    shaded@.len() == j,
                    forall|k: int| 0 <= k < j ==> #[trigger] shaded@[k] == lit(base@[k], level as int),
                decreases pixel_count - j,
            {
                shaded.push(shade(base[j], (45 + 7 * level) as u32, 150));
                j = j + 1;
            }
            light_levels.push(shaded);
            level = level + 1;
        }
        Texture { width, height, light_levels }
    }
}

/// Decodes the PNG of wall type `wall_type` into a texture.
fn decode_png(bytes: &[u8], wall_type: usize) -> (texture: Result<Texture, TextureError>)
    ensures
        match png_pixels(bytes@) {
            None => texture matches Err(TextureError::Decode { wall_type: w, .. }) && w == wall_type,
            Some((width, height, raw)) => if width == 0 || height == 0 {
                texture matches Err(TextureError::Empty { wall_type: w }) && w == wall_type
            } else {
                texture matches Ok(t) && t.shows(width as int, height as int, raw)
            },
        },
{
    let (width, height, raw) = match decode_png_rgb(bytes) {
        Ok(decoded) => decoded,
        Err(reason) => return Err(TextureError::Decode { wall_type, reason }),
    };
    if width == 0 || height == 0 {
        return Err(TextureError::Empty { wall_type });
    }
    Ok(Texture::from_rgb(width as usize, height as usize, &raw))
}


/// The textures of the three wall types, in order.
#[derive(Debug)]
pub struct WallTextures {
    pub textures: Vec<Texture>,
}

/// A column of one texture at one light level.
pub struct TextureColumn<'a> {
    pub pixels: &'a [u32],
    pub width: usize,
    pub height: usize,
    pub x: usize,
}

impl WallTextures {
    /// Decodes the PNG images of wall types 1, 2 and 3. The first image that
    /// cannot be used is reported.
    pub fn load_embedded(pngs: [&[u8]; 3]) -> (loaded: Result<WallTextures, TextureError>)
        ensures
            match loaded {
                Ok(textures) => textures.textures@.len() == 3 && forall|k: int|
                    0 <= k < 3 ==> #[trigger] textures.textures@[k].decoded_from(pngs@[k]@),
                Err(TextureError::Decode { wall_type, .. }) => 1 <= wall_type <= 3 && png_pixels(pngs@[wall_type - 1]@)
                    is None && forall|k: int| 0 <= k < wall_type - 1 ==> usable(#[trigger] pngs@[k]@),
                Err(TextureError::Empty { wall_type }) => 1 <= wall_type <= 3 && !usable(pngs@[wall_type - 1]@)
                    && png_pixels(pngs@[wall_type - 1]@) is Some && forall|k: int|
                    0 <= k < wall_type - 1 ==> usable(#[trigger] pngs@[k]@),
            },
    {
        let mut textures: Vec<Texture> = Vec::new();
        let mut index: usize = 0;
        while index < 3
            invariant
                index <= 3,
                textures@.len() == index,
                forall|k: int| 0 <= k < index ==> #[trigger] textures@[k].decoded_from(pngs@[k]@),
                forall|k: int| 0 <= k < index ==> usable(#[trigger] pngs@[k]@),
            decreases 3 - index,
        {
            let texture = decode_png(pngs[index], index + 1)?;
            textures.push(texture);
            index = index + 1;
        }
        Ok(WallTextures { textures })
    }

    /// Column `x` of the texture of `wall_type` at light level `light_level`;
    /// wall types without a texture use the first one.
    pub fn column(&self, wall_type: u8, x: usize, light_level: usize) -> (column: TextureColumn<'_>)
        requires
            self.textures@.len() > 0,
            x < self.chosen(wall_type).width,
            light_level < LIGHT_LEVEL_COUNT,
            self.chosen(wall_type).light_levels@.len() == LIGHT_LEVEL_COUNT,
        ensures
            column.pixels@ == self.chosen(wall_type).light_levels@[light_level as int]@,
            column.width == self.chosen(wall_type).width,
            column.height == self.chosen(wall_type).height,
            column.x == x,
    {
        let index = if wall_type > 0 { (wall_type - 1) as usize } else { 0 };
        let texture = if index < self.textures.len() { &self.textures[index] } else { &self.textures[0] };
        TextureColumn {
            pixels: texture.light_levels[light_level].as_slice(),
            width: texture.width,
            height: texture.height,
            x,
        }
    }

    /// The texture used for `wall_type`: type `n` uses texture `n - 1`, and a
    /// type without one uses the first.
    pub open spec fn chosen(&self, wall_type: u8) -> Texture {
        let index = if wall_type > 0 { wall_type - 1 } else { 0 };
        if index < self.textures@.len() { self.textures@[index] } else { self.textures@[0] }
    }
}


impl TextureColumn<'_> {
    /// The texel of row `y` in this column.
    pub fn sample(&self, y: usize) -> (texel: u32)
        requires
            y < self.height,
            self.x < self.width,
            self.pixels@.len() == self.width * self.height,
        ensures
            texel == self.pixels@[y * self.width + self.x],
    {
        let length = self.pixels.len();
        proof {
            assert(y * self.width + self.x < self.width * self.height) by (nonlinear_arith)
                requires
                    y < self.height,
                    self.x < self.width,
            ;
        }
        self.pixels[y * self.width + self.x]
    }
}

} // verus!
