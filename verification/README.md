# mazecaster

The drawing and grid logic of a small maze raycaster, verified with Verus.

- `src/framebuffer.rs`: packed `0xRRGGBB` colours, the RGB framebuffer
  (`new`, `clear`, `set_pixel`) and its conversion to one word per pixel.
- `src/bmp.rs`: the bytes of a 24-bit BMP file for an RGB image.
- `src/map.rs`: parsing a maze from text and the cell queries the player and
  the rays use.
- `src/text.rs`: bitmap text in the 8x8 font of the `font8x8` crate.
- `src/texture.rs`: sampling textures by texel.
- `src/render.rs`: the top-down view of the maze and the rows of a wall column.

`app/` is the game itself: the window (minifb), textures from image files
(image), sound (rodio), and the floating-point player and ray casting.
