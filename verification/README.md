# nbody

A 2D gravitational N-body simulation (a naive solver, Barnes-Hut, and two
fast-multipole variants) drawn with wgpu in a winit window.

- `src/` is the verified library: the quadtrees the solvers build over the
  stars (`bh`, `fmm`, `fmm_adap`), the quadrant routing they share
  (`quadrant`), the binomial table of the multipole translations (`pascal`)
  and the frame counter of the simulation loops (`frames`). A star enters a
  tree as a `Body`: its index and the quadrant it falls in at each level of
  the subdivision of the simulated box.
- `app/` is the program: the floating-point physics, the multipole
  expansions, the random initial galaxies, the window and the GPU passes.
- `tests/` exercises the library on concrete trees.
