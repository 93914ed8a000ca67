//! Verified core of a macOS system-audio capture and screen-text (OCR) helper.
//!
//! The library holds the decisions and data handling of the capture pipeline
//! (the sample queue shared between the audio callback and the stream reader,
//! the macOS version check that picks the capture backend) and of the OCR
//! command (decoding the image, turning the recognizer's output into a result).
//! Operating-system calls live outside the library.

pub mod text;
pub mod version;
pub mod ring;
pub mod capture;
pub mod ocr;
