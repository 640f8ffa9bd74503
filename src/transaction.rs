//! One mutating operation on the hosts file as a saga: back up, apply in memory, write,
//! update the subscription registry, and restore the backup if a later step fails.
//!
//! The coordinator decides; its caller performs each action it names and reports back
//! whether it succeeded.
use vstd::prelude::*;

use crate::document::{drop_block, has_key, parse_text, put_block, render, HostsFileStructure};
use crate::markers::block_lines;
use crate::text::join_lines;

verus! {

/// The step after which a rollback was needed.
#[derive(Debug, Clone, Copy, PartialEq, Eq, Structural)]
pub enum FailedStep {
    /// Writing the new text failed.
    Write,
    /// The registry could not be updated after the file was written.
    Registry,
}

/// How the operation ended.
#[derive(Debug, Clone, Copy, PartialEq, Eq, Structural)]
pub enum TxOutcome {
    /// File and registry both updated.
    Succeeded,
    /// The backup could not be taken; nothing was touched.
    BackupFailed,
    /// A step failed and the backup was restored.
    RolledBack(FailedStep),
    /// A step failed and restoring the backup failed too. After a registry failure the
    /// file and the registry disagree and need repair by hand.
    RollbackFailed(FailedStep),
}

/// Where the operation stands.
#[derive(Debug, Clone, Copy, PartialEq, Eq, Structural)]
pub enum TxPhase {
    /// Waiting for the backup to be written.
    Start,
    /// The new text is computed; waiting for it to be written.
    Applied,
    /// The file holds the new text (or needed no change); waiting for the registry.
    Committed,
    /// Waiting for the backup to be restored.
    RollingBack(FailedStep),
    Finished(TxOutcome),
}

/// The change an operation makes to the document.
pub enum HostsMutation {
    /// Store a fresh block for `url` built from `content` at time `now`.
    AddOrUpdate { url: String, content: String, now: u64 },
    /// Remove the block of `url`.
    Remove { url: String },
}

pub enum MutationModel {
    AddOrUpdate(Seq<char>, Seq<char>, nat),
    Remove(Seq<char>),
}

impl HostsMutation {
    pub open spec fn model(&self) -> MutationModel {
        match self {
            HostsMutation::AddOrUpdate { url, content, now } => MutationModel::AddOrUpdate(
                url@,
                content@,
                *now as nat,
            ),
            HostsMutation::Remove { url } => MutationModel::Remove(url@),
        }
    }
}

/// What the caller is to do next.
pub enum TxAction {
    /// Save this text as a backup snapshot.
    WriteBackup(String),
    /// Write this text to the hosts file, atomically.
    WriteFile(String),
    /// Record the change in the subscription registry and persist it.
    UpdateRegistry,
    /// Write this backed-up text back to the hosts file, atomically.
    RestoreFile(String),
    /// Nothing more to do.
    Finish(TxOutcome),
}

pub enum ActionModel {
    WriteBackup(Seq<char>),
    WriteFile(Seq<char>),
    UpdateRegistry,
    RestoreFile(Seq<char>),
    Finish(TxOutcome),
}

impl TxAction {
    pub open spec fn model(&self) -> ActionModel {
        match self {
            TxAction::WriteBackup(s) => ActionModel::WriteBackup(s@),
            TxAction::WriteFile(s) => ActionModel::WriteFile(s@),
            TxAction::UpdateRegistry => ActionModel::UpdateRegistry,
            TxAction::RestoreFile(s) => ActionModel::RestoreFile(s@),
            TxAction::Finish(o) => ActionModel::Finish(*o),
        }
    }
}

/// The text after the mutation, and whether the file needs writing.
pub open spec fn applied(original: Seq<char>, m: MutationModel) -> (Seq<char>, bool) {
    let d = parse_text(original);
    match m {
        MutationModel::AddOrUpdate(url, content, now) => (
            join_lines(render(d.free, put_block(d.blocks, url, block_lines(url, content, now)))),
            true,
        ),
        MutationModel::Remove(url) => (
            join_lines(render(d.free, drop_block(d.blocks, url))),
            has_key(d.blocks, url),
        ),
    }
}

pub struct TxModel {
    pub phase: TxPhase,
    pub original: Seq<char>,
    pub updated: Seq<char>,
    pub changed: bool,
    pub mutation: MutationModel,
}

/// The action that goes with a phase.
pub open spec fn action_for(t: TxModel) -> ActionModel {
    match t.phase {
        TxPhase::Start => ActionModel::WriteBackup(t.original),
        TxPhase::Applied => ActionModel::WriteFile(t.updated),
        TxPhase::Committed => ActionModel::UpdateRegistry,
        TxPhase::RollingBack(_) => ActionModel::RestoreFile(t.original),
        TxPhase::Finished(o) => ActionModel::Finish(o),
    }
}

/// The coordinator's decision once the last action has succeeded (`ok`) or failed.
pub open spec fn tx_step(t: TxModel, ok: bool) -> TxModel {
    match t.phase {
        TxPhase::Start => if ok {
            let a = applied(t.original, t.mutation);
            TxModel {
                phase: if a.1 {
                    TxPhase::Applied
                } else {
                    TxPhase::Committed
                },
                updated: a.0,
                changed: a.1,
                ..t
            }
        } else {
            TxModel { phase: TxPhase::Finished(TxOutcome::BackupFailed), ..t }
        },
        TxPhase::Applied => if ok {
            TxModel { phase: TxPhase::Committed, ..t }
        } else {
            TxModel { phase: TxPhase::RollingBack(FailedStep::Write), ..t }
        },
        TxPhase::Committed => if ok {
            TxModel { phase: TxPhase::Finished(TxOutcome::Succeeded), ..t }
        } else {
            TxModel { phase: TxPhase::RollingBack(FailedStep::Registry), ..t }
        },
        TxPhase::RollingBack(s) => if ok {
            TxModel { phase: TxPhase::Finished(TxOutcome::RolledBack(s)), ..t }
        } else {
            TxModel { phase: TxPhase::Finished(TxOutcome::RollbackFailed(s)), ..t }
        },
        TxPhase::Finished(_) => t,
    }
}

/// One operation in progress.
pub struct HostsTransaction {
    pub phase: TxPhase,
    /// The file's text when the operation began; the backup holds it.
    pub original: String,
    /// The text after the mutation, once computed.
    pub updated: String,
    /// Whether the mutation changes the file.
    pub changed: bool,
    pub mutation: HostsMutation,
}

impl HostsTransaction {
    pub open spec fn model(&self) -> TxModel {
        TxModel {
            phase: self.phase,
            original: self.original@,
            updated: self.updated@,
            changed: self.changed,
            mutation: self.mutation.model(),
        }
    }

    /// Starts an operation on a file that holds `original`; the first action is to back
    /// it up.
    pub fn new(original: String, mutation: HostsMutation) -> (r: (Self, TxAction))
        ensures
            r.0.model() == (TxModel {
                phase: TxPhase::Start,
                original: original@,
                updated: Seq::empty(),
                changed: false,
                mutation: mutation.model(),
            }),
            r.1.model() == action_for(r.0.model()),
    {
        let backup = original.clone();
        let tx = HostsTransaction {
            phase: TxPhase::Start,
            original,
            updated: String::new(),
            changed: false,
            mutation,
        };
        (tx, TxAction::WriteBackup(backup))
    }

    /// Parses the original text, applies the mutation, and writes the document out again.
    fn apply_mutation(&self) -> (r: (String, bool))
        ensures
            (r.0@, r.1) == applied(self.original@, self.mutation.model()),
    {
        let mut doc = HostsFileStructure::parse(self.original.as_str());
        match &self.mutation {
            HostsMutation::AddOrUpdate { url, content, now } => {
                doc.add_or_update_subscription(url.as_str(), content.as_str(), *now);
                (doc.reconstruct(), true)
            },
            HostsMutation::Remove { url } => {
                let removed = doc.remove_subscription(url.as_str());
                (doc.reconstruct(), removed)
            },
        }
    }

    /// Takes in whether the last action succeeded, and names the next one.
    pub fn step(&mut self, ok: bool) -> (r: TxAction)
        ensures
            final(self).model() == tx_step(old(self).model(), ok),
            r.model() == action_for(final(self).model()),
    {
        match self.phase {
            TxPhase::Start => {
                if ok {
                    let (text, changed) = self.apply_mutation();
                    self.updated = text;
                    self.changed = changed;
                    if changed {
                        self.phase = TxPhase::Applied;
                        TxAction::WriteFile(self.updated.clone())
                    } else {
                        self.phase = TxPhase::Committed;
                        TxAction::UpdateRegistry
                    }
                } else {
                    self.phase = TxPhase::Finished(TxOutcome::BackupFailed);
                    TxAction::Finish(TxOutcome::BackupFailed)
                }
            },
            TxPhase::Applied => {
                if ok {
                    self.phase = TxPhase::Committed;
                    TxAction::UpdateRegistry
                } else {
                    self.phase = TxPhase::RollingBack(FailedStep::Write);
                    TxAction::RestoreFile(self.original.clone())
                }
            },
            TxPhase::Committed => {
                if ok {
                    self.phase = TxPhase::Finished(TxOutcome::Succeeded);
                    TxAction::Finish(TxOutcome::Succeeded)
                } else {
                    self.phase = TxPhase::RollingBack(FailedStep::Registry);
                    TxAction::RestoreFile(self.original.clone())
                }
            },
            TxPhase::RollingBack(s) => {
                let o = if ok {
                    TxOutcome::RolledBack(s)
                } else {
                    TxOutcome::RollbackFailed(s)
                };
                self.phase = TxPhase::Finished(o);
                TxAction::Finish(o)
            },
            TxPhase::Finished(o) => TxAction::Finish(o),
        }
    }
}

} // verus!
