//! A sender for AirPlay 1 (RAOP) speakers: everything that is decided or
//! computed between reading PCM and handing bytes to a socket.

pub mod args;
pub mod audio;
pub mod bytes;
pub mod clock;
pub mod codec;
pub mod dns;
pub mod history;
pub mod log;
pub mod mdns;
pub mod random;
pub mod response;
pub mod rtsp;
pub mod session;
pub mod stream;
pub mod text;
