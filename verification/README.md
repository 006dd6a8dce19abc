# ndwt

The index, shape and layout logic of N-dimensional wavelet transforms (discrete and
lifting), written in Verus and proved against its specifications.

- `src/` is the verified library: boundary extension rules (`boundarys`), sub-band
  lengths and shapes (`dwt`), the multi-level N-D drivers of the DWT (`dwt::driver`) and
  of the LWT (`lwt::driver`) with the lane passes they run, strided lane views of flat
  row-major arrays (`iter`), even/odd (de)interleaving (`utils`), the one-level DWT
  kernels on integer samples (`dwt::kernels`: boundary-extended analysis, synthesis, the
  adjoint of the analysis and the periodic forms), the integer lifting steps
  (`lwt::steps`), wavelet metadata (`wavelets`) and fixed-length vectors
  (`vector`).  The drivers take the 1-D kernels as closures and state their results for
  every spec-level map a kernel computes (`lifts_by`, `splits_by`, `joins_by`: whatever
  the closure returns is the map applied to its arguments), so a closure whose `ensures`
  fixes its result by such a map gets the drivers' results and the laws over that map.
  The laws about them
  (reconstruction along one or several axes, passes that always fit, lanes that act
  independently, lifting passes that commute for kernels keeping their bands, the N-D
  deinterleave as successive lane splits) are public proof functions, as is the law that
  the adjoint DWT kernel is the transpose of the forward kernel.
- `app/` holds what the verifier does not see: the floating-point counterparts of the
  kernels (float filter taps and the lifting constants of the wavelet families) and the
  thread-parallel lane loop, built on the library.
- `tests/` runs the library on concrete values.
