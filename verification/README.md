# SortForge 3D

A real-time 3D sorting visualizer. Sorting algorithms do not touch the
picture: each one turns an array into a list of events (compare, swap,
overwrite, pivot, mark sorted, ...). A replayable array state, work metrics
and a playback controller consume those events; a wgpu renderer and an egui
panel draw the result.

Layout:

* `src/` is the verified library (Verus):
  * `algorithms/`: bubble, insertion, selection and quick sort as event
    generators, the `Recorder` they drive, and the permutation facts the
    proofs share. Each algorithm's event stream is stated exactly by a spec
    function of its input (`bubble_events`, `insertion_events`,
    `selection_events`, `quick_events`), and proved to leave, replayed from
    the input, a sorted permutation in which every index was marked sorted by
    its own event and never written after that. Bubble sort is also proved to
    swap once per inversion, selection sort to compare every pair once, and
    insertion sort to write nothing on sorted input.
  * `simulation/`: the event vocabulary, the array state and its `apply`,
    metrics, the timeline, and the playback controller, whose state is
    proved to always equal a replay of the events applied so far.
  * `utils/`, `ui/`: the color palette and the control-panel state.
* `app/` is the program around it: window and event loop (winit), GPU
  rendering (wgpu), the egui panel, frame timing and the floating-point
  parts of playback (speed, time credit).
* `tests/` exercises the library.
