# subtitle-ocr

Post-processing of subtitle OCR output, with its decisions verified in Verus.

- `src/` — the verified library:
  - `text` — Unicode whitespace, normalisation, substring test, Levenshtein
    distance, joining of texts;
  - `merge` — grouping of recognised frames into timed segments;
  - `segments` — overlap de-duplication, substring merging and joining of
    repeated texts, each result naming the input segments it was made of;
  - `triplet` — the scan that folds a noise segment between two segments of
    the same subtitle into them, one step per verdict on a window;
  - `stats` — choice of the most frequent (rounded) key;
  - `adjust` — box-filter outcome per frame, isolation gap of a segment;
  - `types` — plain data types (segments, merge options, run metadata,
    frame times).
- `app/` — the serde result types and the computations on floating-point
  confidences and pixel coordinates, built on the library.
- `tests/` — tests of the library.

The OCR engine wrapper itself (running the detection and recognition
models on images) is not included: it needs the `rapidocr_ort` engine crate
and `ndarray`, which are not dependencies of this crate.
