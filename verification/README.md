# posecam

A camera pose-estimation pipeline and a small in-memory byte device, with
their core logic verified in Verus.

- `src/` — the verified library:
  - `color`: integer BT.601 conversion of packed YUYV frames to RGB;
  - `pixels`: packing RGB buffers into pixel rows (RGB or BGR order) and
    laying rows back out as bytes;
  - `frame`: the length-prefixed wire protocol between camera client and
    inference server (big-endian `u32` header, reply = header, encoded
    results, image);
  - `memory`: the fixed-size storage of the memory device and its bounded
    read and write at an offset;
  - `counter`: the eight-byte counter in native byte order that the
    concurrency tests increment;
  - `control`: the capture loop's exit key, and the dispatch and averaging
    of timed device operations;
  - `byte_order`: byte-order specifications and the std conversions they
    describe.
- `app/` — the programs: V4L2 and OpenCV camera clients, the two inference
  servers (TensorFlow Lite), the file-based counter tester, and a userspace
  run of the device test.
- `tests/` — tests of the library on concrete values.
