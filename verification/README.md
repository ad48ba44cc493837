# Squid vs Tuna — 3D Boids

A predator/prey flocking aquarium built with the Bevy game engine: squid
school tightly and flee from tuna, tuna school loosely and hunt the squid.

The crate is split in two:

- `src/` is a library verified with Verus. It holds the parts of the
  simulation that are decisions and counting rather than floating-point
  geometry:
  - `species` — the two species, the rule table of who schools with, flees
    from or hunts whom, and the census of a population;
  - `camera` — the keyboard bindings of the orbit camera and the auto-orbit
    toggle;
  - `score` — the tally of squid eaten;
  - `hud` — the statistics text shown on screen;
  - `numerals` — decimal and zero-padded numerals, and reading a `u32`
    setting;
  - `hierarchy` — the walk over a fish rig that finds every animated body
    part below a fish, reading the ECS `Children` links;
  - `capture` — the schedule of the headless capture (warm up, save one PNG
    per frame, flush, quit) and the file name of each picture.
- `app/` is the Bevy application around it: scene setup, the steering and
  movement maths (all floating point), rendering, input and the headless
  capture runner (`cargo run --release -- capture`).

`tests/` exercises the library on concrete values.
