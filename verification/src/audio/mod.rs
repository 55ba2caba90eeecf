//! Sound: sparse tonal pings that answer changes of a picture.
//!
//! Each of three channels has a tone of its own. A ping is fired when the spread of a
//! channel changes; pings sweep in frequency, pass a low-pass filter and an echo.

pub mod course;
pub mod features;
pub mod plan;
pub mod silence;
pub mod synth;
pub mod voice;
pub mod wav;
