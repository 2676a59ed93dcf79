# muviz

A music visualiser game: a track is decoded, analysed window by window for
energy, spectral change and tempo, and turned into a road that the camera
flies along.

- `src/` is the verified library. It holds the integer and decision logic:
  how signals are cut into analysis windows and resampler chunks
  (`framing`, `stft`), the bookkeeping of decoding and playback
  (`decoding`), the file picker's filtering and ordering of directory
  listings, with the hidden-file test of `hf`, and the component-wise
  order and parents of paths (`file_picker`, `entry_order`, `path`; paths
  are read as Unix paths), the index buffers of the track
  meshes and the dash layout of lane lines (`mesh`), the generator's
  integer decisions (`track`), the placement of scenery (`scene`), the
  screens and their transitions (`game_state`) and the header of the
  statistics table (`report`).
- `app/` is the command-line program around it: audio decoding,
  resampling and FFTs through their crates, the floating-point signal
  processing and track geometry, JSON and CSV output, and a terminal file
  picker.
- `tests/` exercises the library on concrete values.
