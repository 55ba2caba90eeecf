# lenia_ca

Lenia cellular automata that keep their mass: Flow Lenia (mass moves along a flow) and
diffusion Lenia (mass is shared among neighbours), with the GPU pipelines that run them, host
implementations of both, and the sound that goes with a film.

The library under `src/` is written in Verus. Executable functions carry contracts that are
proved, and what holds of the library as a whole stands in proof functions whose names start
with `law_`. Five small functions are believed instead of proved, because they hand their work
to other crates: `cast_words` and `collect_words` (`bytemuck`), `array_from_rows`, `array_rows`
and `array_at` (`ndarray`).

## Layout

| Module | Holds |
|---|---|
| `scalar`, `complex`, `field` | arithmetic over a host's floats, complex numbers, arrays |
| `gpu`, `memory` | buffers, layouts, pipelines, bind groups and queues as plain descriptions, and what buffers hold after writes and copies |
| `fl`, `ml` | the GPU pipelines of Flow Lenia and of diffusion Lenia |
| `gpu_flow_lenia`, `twiddle` | Flow Lenia with its growth parameters open to change, transform tables |
| `flow`, `connectivity` | Flow Lenia on the host |
| `mace` | diffusion Lenia on the host, with its transforms |
| `exact` | sums of real numbers, for laws that hold where nothing is rounded |
| `creature`, `settlement`, `names`, `sample` | creatures, grids full of them, their files, sample worlds |
| `audio`, `frame`, `bytes` | sound, pictures, byte formats |

Floats are not part of the proofs: code is generic over `scalar::Real`, and a contract says
which operations are applied in which order, for every float type whose operations give equal
results for equal arguments. Laws about sums and transforms are stated for arithmetic that does
not round.

## Programs

`app/` is an ordinary Rust program around the library. Its first argument picks what to run:

| Program | Does |
|---|---|
| `mace` | films of diffusion Lenia creatures (`--creature`, `--seconds`, `--fps`, `--output`, `--temp`, `--with-sound`) |
| `mace-profile`, `mace-pngs` | timings and pictures of a sample world (`--grid-size`) |
| `mace-example` | a hundred steps on the host, with the drift of the mass |
| `flow` | a film of all `random_*` creatures on one grid |
| `flow-profile`, `flow-pngs` | timings and pictures of a sample world (`--grid-size`) |
| `flow-window` | a creature in a window (`--creature`) |
| `flow-example`, `flow-example-pngs` | Flow Lenia on the host |

Creatures are read from `seed/{name}.json`, spectra of kernels from
`kernels/{name}_{size}.bin`, shaders from `fl/shaders/`, `ml/shaders/` and `shaders/`. Films
need `ffmpeg`.
