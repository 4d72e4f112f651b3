//! A scheduler for independent units of work over a shared store.
//!
//! Each work unit declares, up front, which resources it reads and which it
//! writes. From those declarations the schedule groups units into ordered
//! batches such that no two units of one batch touch a resource in a
//! conflicting way, runs the batches in order, and finally applies the
//! structural changes that units deferred through a command buffer.
//!
//! The pieces:
//! - [`access::AccessDescriptor`]: one declared resource slot (identity plus
//!   mutability).
//! - [`registry::BorrowRegistry`]: runtime read/write borrow accounting per
//!   resource identity, used as a defensive check during execution.
//! - [`store::Store`]: the entity/component store, backed by `hecs::World`,
//!   with components modelled as tagged integer values.
//! - [`subworld::SubWorld`]: a capability view that allows access only to a
//!   declared set of components.
//! - [`commandbuffer::CommandBuffer`]: an ordered queue of deferred
//!   structural mutations, applied once no unit holds a borrow.
//! - [`schedule::Schedule`]: the greedy, deterministic batching algorithm and
//!   the batch-by-batch executor.

pub mod access;
pub mod commandbuffer;
pub mod context;
pub mod error;
pub mod registry;
pub mod schedule;
pub mod store;
pub mod subworld;
pub mod traits;

pub use access::AccessDescriptor;
pub use access::Target;
pub use commandbuffer::CommandBuffer;
pub use commandbuffer::Command;
pub use commandbuffer::EntityRef;
pub use context::Context;
pub use error::Error;
pub use error::ScheduleError;
pub use subworld::SubWorld;
pub use registry::BorrowRegistry;
pub use schedule::Schedule;
pub use schedule::ScheduleBuilder;
pub use schedule::WorkUnit;
pub use store::Store;
pub use traits::IntoBorrow;
pub use traits::MaybeRead;
pub use traits::MaybeWrite;
pub use traits::Read;
pub use traits::ResourceView;
pub use traits::Write;
