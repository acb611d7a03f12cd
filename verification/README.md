# vision_rust_core

The verified core of the vision tooling, written in Verus, with the Python
and Node.js bindings around it.

- `src/` is the library. Every function in it is verified against its
  contract: connected-component bounding boxes over binary masks
  (`components`, with the union-find in `union_find` and the connectivity
  model in `connectivity`), the LabelMe-to-YOLO shape accounting and class
  maps (`labelme`), COCO-to-LabelMe regrouping (`coco`), text decoding with
  byte-order-mark handling (`text`), PNG/base64 export of pixel arrays
  (`png`), in-memory ZIP archives (`archive`), JSON parsing and writing
  (`json`), directory-walk filters and tallies (`walk`) and the step
  decisions of a file download (`download`). Calls into `image`, `base64`,
  `zip`, `simd-json`, `serde_json` and std that the library relies on go
  through small trusted wrappers whose contracts are stated in their doc
  comments.
- `app/` holds the PyO3 and Neon modules: file and network I/O, the
  floating-point image and geometry code, serde parsing into the library's
  types, and the conversions between Python/JavaScript values and plain
  values.
- `tests/` exercises the library from outside.
