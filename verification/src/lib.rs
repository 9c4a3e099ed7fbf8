//! Watching a game window: recorded frames, captcha detection and the search for items.
//!
//! - `frame` and `recorder`: captured frames and the ring buffer that keeps the latest ones;
//! - `score`, `raster` and `codec`: single-precision numbers by their bits, grey images of them,
//!   and the ways from pixels and picture files to such images; `chunks` looks at the palette of a
//!   picture file before it is decoded;
//! - `extremes` and `detect`: the smallest score of a match and what it says about a captcha;
//! - `peaks`, `items` and `search`: the best positions of a match, the catalogue of item pictures,
//!   and where an item shows in a frame;
//! - `screenshot`: when a frame is saved and when the capture stops.
//!
//! Capturing the window, matching on the graphics card, channels and files are left to the
//! program around the library.
pub mod chunks;
pub mod codec;
pub mod detect;
pub mod extremes;
pub mod frame;
pub mod items;
pub mod peaks;
pub mod raster;
pub mod recorder;
pub mod score;
pub mod screenshot;
pub mod search;
