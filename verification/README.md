# tinyrenderer

A small software rasterizer: TGA images, a packed frame buffer, Bresenham
lines, filled triangles and a shaded rendering pipeline.

The library under `src/` is verified with Verus:

- `tgaimage`: images of 8-bit channels, pixel access, flips, and the
  conversion of an image to TGA file bytes and back.
- `tgaformat`: the TGA header, footer and pixel data layout.
- `rle`: the run-length packets of compressed TGA data.
- `framebuffer`: the render-target trait and the 0x00RRGGBB frame buffer.
- `drawline`, `drawtriangle`: integer line and triangle rasterization.
- `renderpipeline`: the pipeline's modes, attribute slots, screen bounding
  boxes and wireframe edges.
- `model`: the face lines of Wavefront OBJ files.

`app/` holds the interactive viewer: window and keyboard handling, file
access, and the floating-point stages (transforms, shading, perspective
interpolation, depth test, blending). `tests/` exercises the library.
