/// Fan-out of chat lines to every connected peer.
pub mod broadcast;
/// Trusted surface over the growable byte buffer frames are written into.
pub mod bufext;
/// Key generation, ECDH key agreement and the sealed-envelope format.
pub mod crypto;
/// The registry of connected peers, one record per identity.
pub mod directory;
/// Command dispatch: roster sync, point-to-point relay, departures, and
/// the reader loop's decisions.
pub mod engine;
/// The websocket text-frame codec.
pub mod frame;
/// The upgrade handshake: header validation and the accept token.
pub mod handshake;
/// Verified hex spelling and reading of byte strings.
pub mod hexcode;
/// The request-head parser.
pub mod http;
/// Byte-string helpers shared by the parsers.
pub mod text;
