//! The daemon: placement, claims, actors, the mesh.

pub mod actor_laws;
pub mod actors;
pub mod agent_laws;
pub mod agents;
pub mod announce;
pub mod box_laws;
pub mod call_laws;
pub mod calls;
pub mod claim;
pub mod claim_laws;
pub mod claims;
pub mod count_laws;
pub mod election;
pub mod end_laws;
pub mod entry;
pub mod filling_laws;
pub mod frames;
pub mod gpu_laws;
pub mod hold_laws;
pub mod ident;
pub mod laws;
pub mod link_laws;
pub mod machine;
pub mod mesh;
pub mod mesh_laws;
pub mod message_laws;
pub mod messages;
pub mod moved;
pub mod node_laws;
pub mod peering;
pub mod place;
pub mod place_laws;
pub mod probes;
pub mod proto;
pub mod register_laws;
pub mod render;
pub mod render_laws;
pub mod scope_laws;
pub mod sessions;
pub mod state;
pub mod status;
pub mod sweep;
pub mod sweep_laws;
pub mod wire_laws;
