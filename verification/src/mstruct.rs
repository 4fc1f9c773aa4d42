//! In-memory contexts that tie a mount point to the allocation-group
//! structures being worked on.

use crate::block_dev::BlockDevice;
use crate::dstruct::{Agf, Agi};
use crate::pound_fs::MountPoint;
use vstd::prelude::*;

verus! {

/// Working context for one allocation group.
pub struct AgCtx<'a, D: BlockDevice> {
    /// The mount point the group belongs to.
    pub mp: &'a MountPoint<D>,
    /// The group's number.
    pub ag_no: u32,
    /// The group's free-space context.
    pub agfCtx: &'a AgfCtx<'a, D>,
}

impl<'a, D: BlockDevice> AgCtx<'a, D> {
    /// A context for group `ag_no` of `mp`.
    pub fn new(mp: &'a MountPoint<D>, ag_no: u32, agfCtx: &'a AgfCtx<'a, D>) -> (c: Self)
        ensures
            c.mp == mp,
            c.ag_no == ag_no,
            c.agfCtx == agfCtx,
    {
        AgCtx { mp, ag_no, agfCtx }
    }
}

/// Working context for an allocation group's free-space header.
pub struct AgfCtx<'a, D: BlockDevice> {
    /// The mount point the header belongs to.
    pub mp: &'a MountPoint<D>,
    /// The free-space header.
    pub agf: &'a Agf,
}

impl<'a, D: BlockDevice> AgfCtx<'a, D> {
    /// A context for the free-space header `agf` of `mp`.
    pub fn new(mp: &'a MountPoint<D>, agf: &'a Agf) -> (c: Self)
        ensures
            c.mp == mp,
            c.agf == agf,
    {
        AgfCtx { mp, agf }
    }
}

/// Working context for an allocation group's inode header.
pub struct AgiCtx<'a, D: BlockDevice> {
    /// The mount point the header belongs to.
    pub mp: &'a MountPoint<D>,
    /// The inode header.
    pub agi: &'a Agi,
}

impl<'a, D: BlockDevice> AgiCtx<'a, D> {
    /// A context for the inode header `agi` of `mp`.
    pub fn new(mp: &'a MountPoint<D>, agi: &'a Agi) -> (c: Self)
        ensures
            c.mp == mp,
            c.agi == agi,
    {
        AgiCtx { mp, agi }
    }
}

/// Working context for an allocation group's free list.
pub struct AgflCtx<'a, D: BlockDevice> {
    /// The mount point the list belongs to.
    pub mp: &'a MountPoint<D>,
    /// The free-list header.
    pub agfl: &'a Agf,
}

impl<'a, D: BlockDevice> AgflCtx<'a, D> {
    /// A context for the free-list header `agfl` of `mp`.
    pub fn new(mp: &'a MountPoint<D>, agfl: &'a Agf) -> (c: Self)
        ensures
            c.mp == mp,
            c.agfl == agfl,
    {
        AgflCtx { mp, agfl }
    }
}

} // verus!
