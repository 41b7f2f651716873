//! Vigilon: local-first system and security observation — the decision
//! logic of the agent, stated and proved.
use vstd::prelude::*;

pub mod api;
pub mod assoc;
pub mod baseline;
pub mod blocklist;
pub mod detection;
pub mod engine;
pub mod events;
pub mod hostinfo;
pub mod metrics;
pub mod netparse;
pub mod notifier;
pub mod numtext;
pub mod runtime;
pub mod settings;
pub mod text;
pub mod textlines;

verus! {

} // verus!
