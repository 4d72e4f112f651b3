//! The resource table handed to each work unit.
//!
//! A context bundles the store, the command buffer and the caller-supplied
//! side resources of one execution pass. Side resources are tagged integer
//! cells: the caller supplies the set, units read and overwrite the values,
//! and the set itself never grows during a pass.

use vstd::prelude::*;

use crate::commandbuffer::CommandBuffer;
use crate::commandbuffer::drained_to;
use crate::error::Error;
use crate::store::Store;
use crate::store::comp_index;
use crate::store::comp_value;
use crate::store::find_comp;
use crate::store::has_comp;
use crate::store::upsert;

verus! {

/// The resources of one execution pass: the store, the command buffer and
/// the caller's side resources.
pub struct Context {
    /// The entity/component store.
    pub store: Store,
    /// The deferred-mutation queue shared by all units of the pass.
    pub cmd: CommandBuffer,
    /// The caller-supplied side resources, as `(identity, value)` pairs; the
    /// first occurrence of an identity governs.
    pub side: Vec<(u64, i64)>,
}

impl Context {
    /// The side resources, as `(identity, value)` pairs in the order the
    /// caller supplied them.
    pub open spec fn side_seq(self) -> Seq<(u64, i64)> {
        self.side@
    }

    /// A context over the given store and side resources, with an empty
    /// command buffer.
    pub fn new(store: Store, side: Vec<(u64, i64)>) -> (c: Context)
        ensures
            c.store == store,
            c.side_seq() == side@,
            c.cmd.records_seq().len() == 0,
    {
        Context { store, cmd: CommandBuffer::new(), side }
    }

    /// Whether a side resource with identity `id` was supplied.
    pub fn has_side(&self, id: u64) -> (r: bool)
        ensures
            r == has_comp(self.side_seq(), id),
    {
        match find_comp(&self.side, id) {
            Some(_) => true,
            None => false,
        }
    }

    /// Read a side resource; a missing identity reports `MissingResource`.
    pub fn read_side(&self, id: u64) -> (r: Result<i64, Error>)
        ensures
            has_comp(self.side_seq(), id)
                ==> r == Ok::<i64, Error>(comp_value(self.side_seq(), id)),
            !has_comp(self.side_seq(), id)
                ==> r == Err::<i64, Error>(Error::MissingResource { id }),
    {
        match find_comp(&self.side, id) {
            Some(k) => Ok(self.side[k].1),
            None => Err(Error::MissingResource { id }),
        }
    }

    /// Overwrite a side resource's value; a missing identity reports
    /// `MissingResource` and the set of supplied identities never changes.
    pub fn write_side(&mut self, id: u64, value: i64) -> (r: Result<(), Error>)
        ensures
            final(self).store == old(self).store,
            final(self).cmd == old(self).cmd,
            has_comp(old(self).side_seq(), id)
                ==> r == Ok::<(), Error>(())
                    && final(self).side_seq() == upsert(old(self).side_seq(), id, value),
            !has_comp(old(self).side_seq(), id)
                ==> r == Err::<(), Error>(Error::MissingResource { id })
                    && final(self).side_seq() == old(self).side_seq(),
    {
        match find_comp(&self.side, id) {
            Some(k) => {
                proof {
                    crate::store::lemma_comp_index(old(self).side@, id);
                }
                self.side[k] = (id, value);
                proof {
                    assert(old(self).side@[comp_index(old(self).side@, id)].0 == id);
                }
                Ok(())
            },
            None => Err(Error::MissingResource { id }),
        }
    }

    /// Apply every deferred record to the store, in enqueue order, and empty
    /// the buffer. On failure the index of the offending record is reported.
    pub fn drain_commands(&mut self) -> (r: Result<(), usize>)
        ensures
            final(self).cmd.records_seq().len() == 0,
            final(self).side_seq() == old(self).side_seq(),
            old(self).cmd.records_seq().len() == 0 ==> r == Ok::<(), usize>(())
                && final(self).store == old(self).store,
            r == Ok::<(), usize>(()) ==> drained_to(
                old(self).store.contents(),
                old(self).cmd.records_seq(),
                final(self).store.contents(),
            ),
    {
        self.cmd.drain(&mut self.store)
    }
}

} // verus!
