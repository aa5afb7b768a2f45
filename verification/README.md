# waterui_visualizer

Real-time audio visualization for WaterUI: an oscilloscope trace, a
frequency-bar spectrum and a circular spectrum.

`src/` is the verified core, written in Verus. It holds the integer logic
every visualizer's geometry is laid out by:

- `spectrum` — logarithmically spaced band edges over a transform's bins,
  decided exactly on unbounded integers (`bignat`), and the bin range each
  band reads; the bands are proved to tile the usable spectrum.
- `columns` — how many points a trace is drawn at and which run of samples
  each point reduces; the runs are proved to tile the window.
- `spline` — the drawing plan of a Catmull-Rom spline and the neighbouring
  knots that set its tangents; the plan is proved to pass through every knot.
- `ring` — the fixed-length sample window assembled from recorder buffers of
  any size, oldest sample first.
- `capture` — the latch that lets every visualizer on one microphone share a
  single recording session.

`app/` is the rest: the floating-point geometry (`kurbo`), the Fourier
transform (`realfft`), colours and styles (`peniko`), the WaterUI views and
scene content, and the microphone capture (`waterkit-audio`). It calls the
verified core wherever a layout decision is made.

`tests/` exercises the verified core on concrete values.
