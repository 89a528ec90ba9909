//! Server-side authority for a turn-synchronised multiplayer battle.
//!
//! * [`scheduler`]: the matchmaking scheduler, which groups the participants
//!   of a lobby into sessions by the battle mode that they ask for.
//! * [`session`]: one match, with the barrier that holds a turn back until
//!   every active participant has submitted a plan, and the order in which a
//!   resolved turn is carried out.
//! * [`registry`] and [`identity`]: the combat units of a match and their
//!   identities.
//! * [`tick`]: the schedule of a turn's effects and the order in which the
//!   ticks apply them.
//! * [`volley`] and [`properties`]: the timing and the hit draws of a missile
//!   volley, and the list notation of its properties.
//! * [`menu`]: the selection of the main menu.
//!
//! The library decides and keeps state; transport, presentation and the
//! combat modules themselves belong to its caller.

pub mod identity;
pub mod menu;
pub mod properties;
pub mod registry;
pub mod scheduler;
pub mod session;
pub mod tick;
pub mod volley;
