# rtow

A ray tracer after "Ray Tracing in One Weekend" and "Ray Tracing: The Next
Week", split in two:

- `src/` is a library verified with Verus. It holds the parts of the renderer
  that compute on integers: the PPM text the images are written in
  (`ppm`), the shuffled lattice tables of Perlin noise (`perlin`), the shape of
  the bounding volume hierarchy (`bvh`), how the pixels of an image are
  ordered, grouped and collected (`pixels`), the decisions of the task runner
  and the thread pool (`taskrunner`, `threadpool`), which lights rays can hit
  (`lights`), the placeholder material (`materials`), and which chapter renders
  each entry point runs (`chapters`). Random draws come from `rand`.
- `app/` is the program around it: vectors, rays, cameras, materials, textures
  and objects, which compute on `f64`; the worker threads, channels and rayon
  iterators; and the output on standard output.

`tests/` runs the library on concrete inputs.
