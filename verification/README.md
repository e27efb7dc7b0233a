# eye_control

Steers the mouse pointer with the eyes and the head. A camera picture gives the
points of a face mesh; the position of the irises in the eyes and the turn of
the head give a point of the screen; the pointer follows it smoothly; a shut
left eye clicks.

`src/` is the verified library:

- `rounding` and `number` say what single precision numbers and their
  arithmetic are: exact results, rounded to the nearest, ties to even.
- `single` computes them on 32 bits; every operation is proved to return the
  correctly rounded result.
- `order` holds the facts on how rounding respects order.
- `face` measures eyes, head and lids on a mesh.
- `pointer` turns these readings into a smoothed pointer position.
- `text` holds the overlay texts.
- `session` is the state machine of calibration, keys and frames.
- `laws` states what holds of all of it: for example that the pointer never
  leaves the screen. That holds as long as the frames that move it give
  readings that are numbers, the bounds of the calibration are finite and a
  finite distance apart, and the extents of the screen leave a bit of the
  significand to spare, as whole pixels up to `2^23` do.

`app/` is the program around it: camera, window, mouse and the download of the
landmark model.
