# ray_caster

A first-person maze game drawn by casting rays through a grid, with a minimap,
a music player overlay and an on-screen frame counter.

- `src/` is the library, verified with Verus: the level format and its
  validation (closed maps, one start, at most one goal, textured walls only),
  the bitmap font and every overlay drawn into the framebuffer, the screens and
  their transitions, the playlist decisions, the frame counter, wall colours
  and the light levels of the wall textures.
- `app/` is the program around it: the window and input (`minifb`), audio
  output (`rodio`), reading the assets from disk, and the parts that work in
  floating point (movement with collision and the ray casting itself).
- `tests/` exercises the library on concrete inputs.

The program is played with keyboard and mouse; there is no gamepad support.

Assets are read from `assets/` relative to the working directory:
`assets/niveles/prueba.txt`, three PNG wall textures under `assets/texturas/`
and the songs under `assets/audio/`.
