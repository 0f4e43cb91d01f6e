# raytracer

A small ray tracer that renders a scene of textured cubes into a window.

- `src/` is the verified library: the row-major pixel grid (`framebuffer`),
  the choice of the nearest hit and of the first occluding hit along a ray
  (`hit`), and the packing of a frame into RGBA bytes (`present`).
- `app/` is the program around it: floating-point geometry and shading,
  textures, the camera, and the window loop.
