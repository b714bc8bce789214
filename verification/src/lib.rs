//! Message scheduling for the network protocol, together with the pure
//! decision logic of the voxygen client: level-of-detail targets,
//! soundtrack selection and the default settings tables.

pub mod types;
pub mod frame;
pub mod message;
pub mod serve;
pub mod prio;
pub mod settings;
pub mod lod;
pub mod audio;
pub mod scene;
pub mod grab_laws;
pub mod grab_bounds;
