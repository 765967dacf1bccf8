//! Room registry for a real-time multiplayer session broker.
//!
//! Rooms are created under fresh random identifiers and joined by clients,
//! each of which receives the next position in its room's join order. The
//! registry is plain data with verified operations; the server that shares it
//! behind a reader-writer lock calls each operation inside one critical
//! section.
pub mod ids;
pub mod laws;
pub mod registry;
pub mod room;

pub use ids::{generate_room_id, ROOM_ID_LEN};
pub use registry::{GameData, RoomError, ID_ATTEMPTS};
pub use room::{Client, Outbound, Room};
