# speaker_capture

Verified core of a macOS helper that captures system audio and reads text
out of screenshots.

- `src/` is the library, verified with Verus:
  - `text` — Unicode white space, trimming, splitting on a character,
    decimal `i32` parsing, and lossy UTF-8 decoding of command output.
  - `version` — reading the macOS product version and choosing the audio
    capture backend (Core Audio taps from 14.2 on, ScreenCaptureKit before).
  - `ring` — the `ringbuf` heap ring buffer behind trusted wrappers.
  - `capture` — the sample channel between the audio callback and the
    stream reader: FIFO delivery, overflow counting that ends a capture,
    and the wake-up protocol of a waiting reader, with its laws.
  - `ocr` — Base64 decoding of the image and the OCR command's result.
- `app/` holds the operating-system side: the Core Audio / ScreenCaptureKit
  plumbing (through `cidre`, macOS only), the async stream, and the OCR
  command that runs a Swift script on temporary files.
- `tests/` exercises the library on concrete values.
