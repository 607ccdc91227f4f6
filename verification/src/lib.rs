//! The logic behind the portfolio page's interactive demos: the keystream
//! cipher of the encrypted-channel demo, the frame recorder and player of the
//! sorting visualizer, the ordering rules of the BLE scanner list, and the
//! theme decisions. Everything that touches the DOM, the canvas, audio,
//! timing or randomness lives in the application around this library.

pub mod cipher;
pub mod sorting;
pub mod sort_laws;
pub mod frame_laws;
pub mod player;
pub mod ble;
pub mod theme;
