# chimy2

The logic of a software renderer, verified with Verus: vectors, matrices and quaternions, meshes and
their levels of detail, glTF and Wavefront files, framebuffers and blending, text, particles,
cascaded shadows and image-based lighting.

Floating point is part of the model. A number is its bit pattern (`float::Float32`), and its sums,
products, quotients and roots are defined over the integers and rounded to the nearest value, so that
every contract pins down every bit. What only the machine can compute, such as sines and powers, is
passed in as an argument.

- `src/` is the verified library.
  - `float`, `arith`, `rounding`, `bignat`, `decimal`: numbers.
  - `math`: vectors, matrices, quaternions.
  - `mesh`, `derived`, `topology`, `qem`, `collapse`, `round`, `rules`, `simplify`, `lod`: meshes and
    their simplification.
  - `json`, `json_laws`, `encoding`, `gltf`: glTF documents, from bytes to posed draws.
  - `records`, `obj`, `material`, `obj_asset`: Wavefront meshes and materials.
  - `fb`, `blend`, `blend_laws`, `dither`, `font`, `overlay`, `texture`, `painting`: pixels.
  - `clip`, `culling`, `csm`, `cascade_fit`, `cascade_state`: what is seen, and what is lit.
  - `ibl`, `ibl_sampling`, `ibl_bake`: light from the surroundings.
  - `particles`, `shapes`, `icosphere`, `scenes`, `frames`, `demo`, `viewer`: what the demos are
    made of.
- `tests/` runs the library.
- `app/` reads and writes files, reads the clock and the arguments, and computes angles and powers.
