//! Typed errors: SQLSTATE class `PM`.

use vstd::prelude::*;
use vstd::string::*;

verus! {

/// The error table.
#[derive(Debug, Clone, Copy, PartialEq, Eq, Structural)]
pub enum Pm {
    InvalidPath,
    NoteNotFound,
    BlockNotFound,
    FragmentArity,
    InvalidAnchor,
    ContainerConstraint,
    SectionNotFound,
    SpliceRestructures,
    StaleHead,
    /// No such revision: a mistake of the client.
    UnknownRevision,
    /// No longer reconstructable: the operator retained it away.
    HistoryUnavailable,
    ExcisionRefused,
    ExcisionIncomplete,
    NoteTombstoned,
    PathTaken,
    StaleBlock,
    InvalidAuthor,
    VaultNotFound,
    BatchArity,
}

impl Pm {
    pub open spec fn code(self) -> Seq<char> {
        match self {
            Pm::InvalidPath => "PM001"@,
            Pm::NoteNotFound => "PM002"@,
            Pm::BlockNotFound => "PM003"@,
            Pm::FragmentArity => "PM004"@,
            Pm::InvalidAnchor => "PM005"@,
            Pm::ContainerConstraint => "PM006"@,
            Pm::SectionNotFound => "PM007"@,
            Pm::SpliceRestructures => "PM008"@,
            Pm::StaleHead => "PM009"@,
            Pm::UnknownRevision => "PM010"@,
            Pm::HistoryUnavailable => "PM011"@,
            Pm::ExcisionRefused => "PM012"@,
            Pm::ExcisionIncomplete => "PM013"@,
            Pm::NoteTombstoned => "PM014"@,
            Pm::PathTaken => "PM015"@,
            Pm::StaleBlock => "PM016"@,
            Pm::InvalidAuthor => "PM017"@,
            Pm::VaultNotFound => "PM018"@,
            Pm::BatchArity => "PM019"@,
        }
    }

    pub open spec fn label(self) -> Seq<char> {
        match self {
            Pm::InvalidPath => "pgmind_invalid_path"@,
            Pm::NoteNotFound => "pgmind_note_not_found"@,
            Pm::BlockNotFound => "pgmind_block_not_found"@,
            Pm::FragmentArity => "pgmind_fragment_arity"@,
            Pm::InvalidAnchor => "pgmind_invalid_anchor"@,
            Pm::ContainerConstraint => "pgmind_container_constraint"@,
            Pm::SectionNotFound => "pgmind_section_not_found"@,
            Pm::SpliceRestructures => "pgmind_splice_restructures"@,
            Pm::StaleHead => "pgmind_stale_head"@,
            Pm::UnknownRevision => "pgmind_unknown_revision"@,
            Pm::HistoryUnavailable => "pgmind_history_unavailable"@,
            Pm::ExcisionRefused => "pgmind_excision_refused"@,
            Pm::ExcisionIncomplete => "pgmind_excision_incomplete"@,
            Pm::NoteTombstoned => "pgmind_note_tombstoned"@,
            Pm::PathTaken => "pgmind_path_taken"@,
            Pm::StaleBlock => "pgmind_stale_block"@,
            Pm::InvalidAuthor => "pgmind_invalid_author"@,
            Pm::VaultNotFound => "pgmind_vault_not_found"@,
            Pm::BatchArity => "pgmind_batch_arity"@,
        }
    }

    /// The SQLSTATE of the error.
    pub fn sqlstate(self) -> (r: &'static str)
        ensures
            r@ == self.code(),
    {
        match self {
            Pm::InvalidPath => "PM001",
            Pm::NoteNotFound => "PM002",
            Pm::BlockNotFound => "PM003",
            Pm::FragmentArity => "PM004",
            Pm::InvalidAnchor => "PM005",
            Pm::ContainerConstraint => "PM006",
            Pm::SectionNotFound => "PM007",
            Pm::SpliceRestructures => "PM008",
            Pm::StaleHead => "PM009",
            Pm::UnknownRevision => "PM010",
            Pm::HistoryUnavailable => "PM011",
            Pm::ExcisionRefused => "PM012",
            Pm::ExcisionIncomplete => "PM013",
            Pm::NoteTombstoned => "PM014",
            Pm::PathTaken => "PM015",
            Pm::StaleBlock => "PM016",
            Pm::InvalidAuthor => "PM017",
            Pm::VaultNotFound => "PM018",
            Pm::BatchArity => "PM019",
        }
    }

    /// The name of the error.
    pub fn name(self) -> (r: &'static str)
        ensures
            r@ == self.label(),
    {
        match self {
            Pm::InvalidPath => "pgmind_invalid_path",
            Pm::NoteNotFound => "pgmind_note_not_found",
            Pm::BlockNotFound => "pgmind_block_not_found",
            Pm::FragmentArity => "pgmind_fragment_arity",
            Pm::InvalidAnchor => "pgmind_invalid_anchor",
            Pm::ContainerConstraint => "pgmind_container_constraint",
            Pm::SectionNotFound => "pgmind_section_not_found",
            Pm::SpliceRestructures => "pgmind_splice_restructures",
            Pm::StaleHead => "pgmind_stale_head",
            Pm::UnknownRevision => "pgmind_unknown_revision",
            Pm::HistoryUnavailable => "pgmind_history_unavailable",
            Pm::ExcisionRefused => "pgmind_excision_refused",
            Pm::ExcisionIncomplete => "pgmind_excision_incomplete",
            Pm::NoteTombstoned => "pgmind_note_tombstoned",
            Pm::PathTaken => "pgmind_path_taken",
            Pm::StaleBlock => "pgmind_stale_block",
            Pm::InvalidAuthor => "pgmind_invalid_author",
            Pm::VaultNotFound => "pgmind_vault_not_found",
            Pm::BatchArity => "pgmind_batch_arity",
        }
    }
}

/// The message that an error is raised with.
pub fn error_message(message: &str) -> (r: String)
    ensures
        r@ == "pgmind: "@ + message@,
{
    let mut out = "pgmind: ".to_owned();
    out.append(message);
    out
}

/// The detail that an error is raised with: its name, then what is at fault.
pub fn error_detail(code: Pm, detail: &str) -> (r: String)
    ensures
        r@ == code.label() + " — "@ + detail@,
{
    let mut out = code.name().to_owned();
    out.append(" — ");
    out.append(detail);
    out
}

} // verus!
