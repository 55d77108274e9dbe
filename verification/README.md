# dvsm_spectral_io

Frame supervision for a handheld, verified with Verus: predictive asset
prefetching from the spectral entropy of a state vector, power telemetry, hints
for frame interpolation, dynamic resolution, and detection of CPU-bound stutter.

- `src/` is the library. Every function has a contract that Verus proves; laws
  that relate several functions are public proof functions named `law_...`.
- `tests/` runs the library, its arithmetic against the machine's own.
- `app/` puts the library on the machine's floating point numbers.

Numbers are IEEE 754 binary32, held by their bits (`Binary32`). Contracts state
each result as a correctly rounded formula, so they fix it to the last bit. Base-2
logarithms are the one thing that the library does not compute: whoever calls
`SpectralEntropyState::update` or `SpectralIOGovernor::tick` hands them in, for the
shares that `mode_energies` returns.
