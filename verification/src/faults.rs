//! The block operations by name, and the reasons why one is refused.

use vstd::prelude::*;
use vstd::string::*;

use crate::errors::Pm;
use crate::ids::Uuid;

verus! {

/// A block operation.
#[derive(Debug, Clone, Copy, PartialEq, Eq, Structural)]
pub enum Op {
    Insert,
    Update,
    Move,
    Split,
    Merge,
}

impl Op {
    /// The key of the operation in metadata.
    pub open spec fn label(self) -> Seq<char> {
        match self {
            Op::Insert => "insert"@,
            Op::Update => "update"@,
            Op::Move => "move"@,
            Op::Split => "split"@,
            Op::Merge => "merge"@,
        }
    }

    /// The public name of the operation.
    pub open spec fn public_name(self) -> Seq<char> {
        match self {
            Op::Insert => "insert_blocks"@,
            Op::Update => "update_block"@,
            Op::Move => "move_block"@,
            Op::Split => "split_block"@,
            Op::Merge => "merge_blocks"@,
        }
    }

    /// The key of the operation in metadata.
    pub fn name(self) -> (r: &'static str)
        ensures
            r@ == self.label(),
    {
        match self {
            Op::Insert => "insert",
            Op::Update => "update",
            Op::Move => "move",
            Op::Split => "split",
            Op::Merge => "merge",
        }
    }

    /// The verb that a revision of the operation has: its public name.
    pub fn verb(self) -> (r: &'static str)
        ensures
            r@ == self.public_name(),
    {
        match self {
            Op::Insert => "insert_blocks",
            Op::Update => "update_block",
            Op::Move => "move_block",
            Op::Split => "split_block",
            Op::Merge => "merge_blocks",
        }
    }
}

/// Why an operation is refused.
#[derive(Debug, Clone, Copy, PartialEq, Eq, Structural)]
pub enum OpFault {
    Frontmatter,
    NoBlocks,
    UpdateArity { found: usize },
    SplitArity { found: usize },
    SplitNotItems,
    MergeArity { found: usize },
    BothAnchors,
    NotOneAnchor,
    AnchorNotTopLevel,
    NotAList,
    AnchorInside,
    BlockMissing,
    OtherVault,
    AnchorMissing,
    NotInNote { id: Uuid },
    KeepNotInSet,
    NonContiguous,
    NestedContainers,
    MustStayItem,
    NotSiblings,
    OtherContainer,
    SplitContainer,
    MergeTooFew,
    MergeDuplicates,
    MergeNotContiguous { ord: usize },
    MergeRetiresContainer { ord: usize },
    PinOutOfRange { old: usize, new: usize },
    MoveChanged { old: usize, new: usize },
    BlockCount { before: usize, after: usize },
    Unpinned { pinned: usize, total: usize },
    OutsideCount { before: usize, after: usize },
    OutsideChanged { old: usize, new: usize },
    Nesting { before: usize, after: usize },
    UpdateDissolved,
    SplitDissolved,
    MergeDissolved,
    SplitMerged { expected: usize, found: usize },
    /// The parse and the source disagree: a position that the parse gives does not
    /// lie between two characters of the source, or they are out of order.
    Unsliceable,
    /// The spliced source is no note.
    Unparsable,
}

impl OpFault {
    /// The error that the fault raises; none for what is not the caller's doing.
    pub open spec fn pm(self) -> Option<Pm> {
        match self {
            OpFault::Frontmatter => Some(Pm::FragmentArity),
            OpFault::NoBlocks => Some(Pm::FragmentArity),
            OpFault::UpdateArity { .. } => Some(Pm::FragmentArity),
            OpFault::SplitArity { .. } => Some(Pm::FragmentArity),
            OpFault::SplitNotItems => Some(Pm::FragmentArity),
            OpFault::MergeArity { .. } => Some(Pm::FragmentArity),
            OpFault::BothAnchors => Some(Pm::InvalidAnchor),
            OpFault::NotOneAnchor => Some(Pm::InvalidAnchor),
            OpFault::AnchorNotTopLevel => Some(Pm::InvalidAnchor),
            OpFault::NotAList => Some(Pm::InvalidAnchor),
            OpFault::AnchorInside => Some(Pm::InvalidAnchor),
            OpFault::BlockMissing => Some(Pm::BlockNotFound),
            OpFault::OtherVault => Some(Pm::BlockNotFound),
            OpFault::AnchorMissing => Some(Pm::BlockNotFound),
            OpFault::NotInNote { .. } => Some(Pm::BlockNotFound),
            OpFault::KeepNotInSet => Some(Pm::BlockNotFound),
            OpFault::NonContiguous => Some(Pm::ContainerConstraint),
            OpFault::NestedContainers => Some(Pm::ContainerConstraint),
            OpFault::MustStayItem => Some(Pm::ContainerConstraint),
            OpFault::NotSiblings => Some(Pm::ContainerConstraint),
            OpFault::OtherContainer => Some(Pm::ContainerConstraint),
            OpFault::SplitContainer => Some(Pm::ContainerConstraint),
            OpFault::MergeTooFew => Some(Pm::ContainerConstraint),
            OpFault::MergeDuplicates => Some(Pm::ContainerConstraint),
            OpFault::MergeNotContiguous { .. } => Some(Pm::ContainerConstraint),
            OpFault::MergeRetiresContainer { .. } => Some(Pm::ContainerConstraint),
            OpFault::PinOutOfRange { .. } => Some(Pm::SpliceRestructures),
            OpFault::MoveChanged { .. } => Some(Pm::SpliceRestructures),
            OpFault::BlockCount { .. } => Some(Pm::SpliceRestructures),
            OpFault::Unpinned { .. } => Some(Pm::SpliceRestructures),
            OpFault::OutsideCount { .. } => Some(Pm::SpliceRestructures),
            OpFault::OutsideChanged { .. } => Some(Pm::SpliceRestructures),
            OpFault::Nesting { .. } => Some(Pm::SpliceRestructures),
            OpFault::UpdateDissolved => Some(Pm::SpliceRestructures),
            OpFault::SplitDissolved => Some(Pm::SpliceRestructures),
            OpFault::MergeDissolved => Some(Pm::SpliceRestructures),
            OpFault::SplitMerged { .. } => Some(Pm::SpliceRestructures),
            OpFault::Unsliceable => None,
            OpFault::Unparsable => None,
        }
    }

    pub open spec fn text(self) -> Seq<char> {
        match self {
            OpFault::Frontmatter => "fragment must not carry frontmatter"@,
            OpFault::NoBlocks => "fragment contains no blocks"@,
            OpFault::UpdateArity { .. } => "update_block fragment must contain exactly one block"@,
            OpFault::SplitArity { .. } => "split_block fragment must contain at least two blocks"@,
            OpFault::SplitNotItems => "splitting a list item requires a fragment that is a single list"@,
            OpFault::MergeArity { .. } => "merge fragment must contain exactly one block"@,
            OpFault::BothAnchors => "give before OR after, not both"@,
            OpFault::NotOneAnchor => "give exactly one of before/after"@,
            OpFault::AnchorNotTopLevel => "anchor must be a top-level block or a list item"@,
            OpFault::NotAList => "item-level insert requires the fragment to be a single list"@,
            OpFault::AnchorInside => "anchor inside the moved subtree"@,
            OpFault::BlockMissing => "block not found"@,
            OpFault::OtherVault => "block not in the current vault"@,
            OpFault::AnchorMissing => "anchor block not found"@,
            OpFault::NotInNote { .. } => "block not found in note"@,
            OpFault::KeepNotInSet => "keep must be in the merge set"@,
            OpFault::NonContiguous => "target's own content is non-contiguous"@,
            OpFault::NestedContainers => "fragment must not contain nested containers (v1)"@,
            OpFault::MustStayItem => "target has container children; replacement must stay a list item (v1)"@,
            OpFault::NotSiblings => "move_block reorders siblings only (v1)"@,
            OpFault::OtherContainer => "move_block reorders siblings within one container (v1)"@,
            OpFault::SplitContainer => "split of a block with container children (v1)"@,
            OpFault::MergeTooFew => "merge needs at least two blocks"@,
            OpFault::MergeDuplicates => "duplicate blocks in merge set"@,
            OpFault::MergeNotContiguous { .. } => "merge set must be contiguous siblings"@,
            OpFault::MergeRetiresContainer { .. } => "a non-surviving merge member owns container children (v1)"@,
            OpFault::PinOutOfRange { .. } => "splice restructures adjacent content"@,
            OpFault::MoveChanged { .. } => "move changed block content"@,
            OpFault::BlockCount { .. } => "splice changed the block count"@,
            OpFault::Unpinned { .. } => "whole-note splice left a block unaccounted for"@,
            OpFault::OutsideCount { .. } => "splice restructures adjacent content"@,
            OpFault::OutsideChanged { .. } => "splice restructures adjacent content"@,
            OpFault::Nesting { .. } => "splice changed the target's container nesting"@,
            OpFault::UpdateDissolved => "replacement dissolved the target"@,
            OpFault::SplitDissolved => "split dissolved the target"@,
            OpFault::MergeDissolved => "merge dissolved into nothing"@,
            OpFault::SplitMerged { .. } => "split fragments merged or restructured after splice"@,
            OpFault::Unsliceable => "stored blocks disagree with parse"@,
            OpFault::Unparsable => "block span escapes all tiles"@,
        }
    }

    /// The error that the fault raises.
    pub fn code(self) -> (r: Option<Pm>)
        ensures
            r == self.pm(),
    {
        match self {
            OpFault::Frontmatter => Some(Pm::FragmentArity),
            OpFault::NoBlocks => Some(Pm::FragmentArity),
            OpFault::UpdateArity { .. } => Some(Pm::FragmentArity),
            OpFault::SplitArity { .. } => Some(Pm::FragmentArity),
            OpFault::SplitNotItems => Some(Pm::FragmentArity),
            OpFault::MergeArity { .. } => Some(Pm::FragmentArity),
            OpFault::BothAnchors => Some(Pm::InvalidAnchor),
            OpFault::NotOneAnchor => Some(Pm::InvalidAnchor),
            OpFault::AnchorNotTopLevel => Some(Pm::InvalidAnchor),
            OpFault::NotAList => Some(Pm::InvalidAnchor),
            OpFault::AnchorInside => Some(Pm::InvalidAnchor),
            OpFault::BlockMissing => Some(Pm::BlockNotFound),
            OpFault::OtherVault => Some(Pm::BlockNotFound),
            OpFault::AnchorMissing => Some(Pm::BlockNotFound),
            OpFault::NotInNote { .. } => Some(Pm::BlockNotFound),
            OpFault::KeepNotInSet => Some(Pm::BlockNotFound),
            OpFault::NonContiguous => Some(Pm::ContainerConstraint),
            OpFault::NestedContainers => Some(Pm::ContainerConstraint),
            OpFault::MustStayItem => Some(Pm::ContainerConstraint),
            OpFault::NotSiblings => Some(Pm::ContainerConstraint),
            OpFault::OtherContainer => Some(Pm::ContainerConstraint),
            OpFault::SplitContainer => Some(Pm::ContainerConstraint),
            OpFault::MergeTooFew => Some(Pm::ContainerConstraint),
            OpFault::MergeDuplicates => Some(Pm::ContainerConstraint),
            OpFault::MergeNotContiguous { .. } => Some(Pm::ContainerConstraint),
            OpFault::MergeRetiresContainer { .. } => Some(Pm::ContainerConstraint),
            OpFault::PinOutOfRange { .. } => Some(Pm::SpliceRestructures),
            OpFault::MoveChanged { .. } => Some(Pm::SpliceRestructures),
            OpFault::BlockCount { .. } => Some(Pm::SpliceRestructures),
            OpFault::Unpinned { .. } => Some(Pm::SpliceRestructures),
            OpFault::OutsideCount { .. } => Some(Pm::SpliceRestructures),
            OpFault::OutsideChanged { .. } => Some(Pm::SpliceRestructures),
            OpFault::Nesting { .. } => Some(Pm::SpliceRestructures),
            OpFault::UpdateDissolved => Some(Pm::SpliceRestructures),
            OpFault::SplitDissolved => Some(Pm::SpliceRestructures),
            OpFault::MergeDissolved => Some(Pm::SpliceRestructures),
            OpFault::SplitMerged { .. } => Some(Pm::SpliceRestructures),
            OpFault::Unsliceable => None,
            OpFault::Unparsable => None,
        }
    }

    /// The message that the fault raises.
    pub fn message(self) -> (r: &'static str)
        ensures
            r@ == self.text(),
    {
        match self {
            OpFault::Frontmatter => "fragment must not carry frontmatter",
            OpFault::NoBlocks => "fragment contains no blocks",
            OpFault::UpdateArity { .. } => "update_block fragment must contain exactly one block",
            OpFault::SplitArity { .. } => "split_block fragment must contain at least two blocks",
            OpFault::SplitNotItems => "splitting a list item requires a fragment that is a single list",
            OpFault::MergeArity { .. } => "merge fragment must contain exactly one block",
            OpFault::BothAnchors => "give before OR after, not both",
            OpFault::NotOneAnchor => "give exactly one of before/after",
            OpFault::AnchorNotTopLevel => "anchor must be a top-level block or a list item",
            OpFault::NotAList => "item-level insert requires the fragment to be a single list",
            OpFault::AnchorInside => "anchor inside the moved subtree",
            OpFault::BlockMissing => "block not found",
            OpFault::OtherVault => "block not in the current vault",
            OpFault::AnchorMissing => "anchor block not found",
            OpFault::NotInNote { .. } => "block not found in note",
            OpFault::KeepNotInSet => "keep must be in the merge set",
            OpFault::NonContiguous => "target's own content is non-contiguous",
            OpFault::NestedContainers => "fragment must not contain nested containers (v1)",
            OpFault::MustStayItem => "target has container children; replacement must stay a list item (v1)",
            OpFault::NotSiblings => "move_block reorders siblings only (v1)",
            OpFault::OtherContainer => "move_block reorders siblings within one container (v1)",
            OpFault::SplitContainer => "split of a block with container children (v1)",
            OpFault::MergeTooFew => "merge needs at least two blocks",
            OpFault::MergeDuplicates => "duplicate blocks in merge set",
            OpFault::MergeNotContiguous { .. } => "merge set must be contiguous siblings",
            OpFault::MergeRetiresContainer { .. } => "a non-surviving merge member owns container children (v1)",
            OpFault::PinOutOfRange { .. } => "splice restructures adjacent content",
            OpFault::MoveChanged { .. } => "move changed block content",
            OpFault::BlockCount { .. } => "splice changed the block count",
            OpFault::Unpinned { .. } => "whole-note splice left a block unaccounted for",
            OpFault::OutsideCount { .. } => "splice restructures adjacent content",
            OpFault::OutsideChanged { .. } => "splice restructures adjacent content",
            OpFault::Nesting { .. } => "splice changed the target's container nesting",
            OpFault::UpdateDissolved => "replacement dissolved the target",
            OpFault::SplitDissolved => "split dissolved the target",
            OpFault::MergeDissolved => "merge dissolved into nothing",
            OpFault::SplitMerged { .. } => "split fragments merged or restructured after splice",
            OpFault::Unsliceable => "stored blocks disagree with parse",
            OpFault::Unparsable => "block span escapes all tiles",
        }
    }
}

} // verus!
