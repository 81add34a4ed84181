//! Verified core of the milim_2d game engine: object identifiers, collider
//! keys, trigger and spawn events, the asset cache, the z-ordered draw
//! queue, object mailboxes and the engine's per-frame event decisions.

pub mod collision;
pub mod engine;
pub mod events;
pub mod id;
pub mod mailbox;
pub mod renderer;
pub mod resources;

pub use id::Id;
pub use collision::ColliderKey;
pub use events::{SpawnEvent, TriggerEvent, TriggerKind};
pub use resources::AssetCache;
pub use mailbox::Mailbox;
pub use renderer::{DrawCommandType, DrawQueue, WindowConfig};
