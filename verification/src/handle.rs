//! The table: its options, its current version and its one writer.

use std::sync::Arc;
use vstd::prelude::*;

use crate::error::BuildError;
use crate::manifest::entry::SuperfileEntry;
use crate::manifest::snapshot::Manifest;
use crate::options::SupertableOptions;
use crate::share::share;
use crate::writer::buffer::SupertableWriter;

verus! {

/// A table.
#[derive(Debug)]
pub struct Supertable {
    options: Arc<SupertableOptions>,
    manifest: Arc<Manifest>,
    writer_outstanding: bool,
}

pub struct SupertableView {
    pub options: Arc<SupertableOptions>,
    pub manifest: Arc<Manifest>,
    pub writer_outstanding: bool,
}

impl View for Supertable {
    type V = SupertableView;

    closed spec fn view(&self) -> SupertableView {
        SupertableView {
            options: self.options,
            manifest: self.manifest,
            writer_outstanding: self.writer_outstanding,
        }
    }
}

impl Supertable {
    /// A table without rows and without storage.
    pub fn create(options: Arc<SupertableOptions>) -> (r: Self)
        ensures
            r@.options == options,
            !r@.writer_outstanding,
            r@.manifest.superfile_list.manifest_id == 0,
            r@.manifest.superfile_list.options == options,
            r@.manifest.superfile_list.superfiles@.len() == 0,
            r@.manifest.list is None,
            r@.manifest.loader is None,
    {
        let manifest = Manifest::empty(share(&options));
        Supertable { options, manifest: Arc::new(manifest), writer_outstanding: false }
    }

    /// The options.
    pub fn options(&self) -> (r: &Arc<SupertableOptions>)
        ensures
            *r == self@.options,
    {
        &self.options
    }

    /// The current version, to be read as long as it is held: later commits
    /// make new versions and leave it alone.
    pub fn manifest(&self) -> (r: Arc<Manifest>)
        ensures
            r == self@.manifest,
    {
        share(&self.manifest)
    }

    /// The number of the current version.
    pub fn manifest_id(&self) -> (r: u64)
        ensures
            r == self@.manifest.superfile_list.manifest_id,
    {
        self.manifest.superfile_list.manifest_id
    }

    /// The one writer of the table. While it is out there is no other.
    pub fn writer(&mut self) -> (r: Result<SupertableWriter, BuildError>)
        ensures
            final(self)@.options == old(self)@.options,
            final(self)@.manifest == old(self)@.manifest,
            final(self)@.writer_outstanding,
            if old(self)@.writer_outstanding {
                r == Err::<SupertableWriter, BuildError>(BuildError::SupertableInUse)
            } else {
                r matches Ok(w) && w.well_formed() && w@.buffer.len() == 0 && w@.bytes == 0
                    && w@.options == old(self)@.options@
            },
    {
        if self.writer_outstanding {
            return Err(BuildError::SupertableInUse);
        }
        self.writer_outstanding = true;
        Ok(SupertableWriter::new(share(&self.options)))
    }

    /// Gives the writer back. What it did not commit is lost.
    pub fn release_writer(&mut self, _writer: SupertableWriter)
        ensures
            final(self)@.options == old(self)@.options,
            final(self)@.manifest == old(self)@.manifest,
            !final(self)@.writer_outstanding,
    {
        self.writer_outstanding = false;
    }

    /// Makes new superfiles visible, all at once, in a new version. Without any
    /// the version stays.
    pub fn publish(&mut self, new_entries: Vec<Arc<SuperfileEntry>>)
        requires
            old(self)@.manifest.superfile_list.manifest_id < u64::MAX,
        ensures
            final(self)@.options == old(self)@.options,
            final(self)@.writer_outstanding == old(self)@.writer_outstanding,
            new_entries@.len() == 0 ==> final(self)@.manifest == old(self)@.manifest,
            new_entries@.len() > 0 ==> {
                let before = old(self)@.manifest;
                let after = final(self)@.manifest;
                &&& after.superfile_list.manifest_id == before.superfile_list.manifest_id + 1
                &&& after.superfile_list.options == before.superfile_list.options
                &&& after.superfile_list.superfiles@ == before.superfile_list.superfiles@
                    + new_entries@
                &&& after.list == before.list
                &&& after.loader == before.loader
            },
    {
        if new_entries.len() == 0 {
            return;
        }
        self.manifest = Arc::new(self.manifest.with_appended(new_entries));
    }

    /// Makes a version that was written to the storage, or read from it, the
    /// current one.
    pub fn install(&mut self, manifest: Arc<Manifest>)
        ensures
            final(self)@.options == old(self)@.options,
            final(self)@.writer_outstanding == old(self)@.writer_outstanding,
            final(self)@.manifest == manifest,
    {
        self.manifest = manifest;
    }
}

// ---------------------------------------------------------------- optimizing

/// Errors of removing superfiles that no version needs.
#[derive(Debug)]
pub enum GcError {
    /// The table has no storage.
    NoStorage,
    Failed(String),
}

/// Errors of removing the state of mutations that are complete.
#[derive(Debug)]
pub enum WalGcError {
    /// The table has no storage.
    NoStorageAttached,
    Failed(String),
}

/// Errors of optimizing.
#[derive(Debug)]
pub enum OptimizeError {
    Compact(String),
    Gc(GcError),
    WalGc(WalGcError),
}

/// What an optimization does next.
#[derive(Clone, Copy, PartialEq, Eq, Structural, Debug)]
pub enum OptimizeStep {
    /// Merge small superfiles.
    Compact,
    /// Remove superfiles that no version needs.
    Gc,
    /// Remove the state of mutations that are complete.
    WalGc,
    Done,
}

/// What the last step came to.
#[derive(Debug)]
pub enum OptimizeEvent {
    /// Nothing has been done yet.
    Start,
    Compacted(Result<(), String>),
    Swept(Result<(), GcError>),
    WalSwept(Result<(), WalGcError>),
}

/// The step that an event leads to. A sweep for want of storage is passed over;
/// every other error ends the optimization.
pub open spec fn optimize_step(event: OptimizeEvent) -> Result<OptimizeStep, OptimizeError> {
    match event {
        OptimizeEvent::Start => Ok(OptimizeStep::Compact),
        OptimizeEvent::Compacted(Ok(_)) => Ok(OptimizeStep::Gc),
        OptimizeEvent::Compacted(Err(e)) => Err(OptimizeError::Compact(e)),
        OptimizeEvent::Swept(Ok(_)) => Ok(OptimizeStep::WalGc),
        OptimizeEvent::Swept(Err(e)) => if e is NoStorage {
            Ok(OptimizeStep::WalGc)
        } else {
            Err(OptimizeError::Gc(e))
        },
        OptimizeEvent::WalSwept(Ok(_)) => Ok(OptimizeStep::Done),
        OptimizeEvent::WalSwept(Err(e)) => if e is NoStorageAttached {
            Ok(OptimizeStep::Done)
        } else {
            Err(OptimizeError::WalGc(e))
        },
    }
}

impl Supertable {
    /// The next step of an optimization: small superfiles are merged, and two
    /// sweeps remove what nothing needs any more.
    pub fn optimize(event: OptimizeEvent) -> (r: Result<OptimizeStep, OptimizeError>)
        ensures
            r == optimize_step(event),
    {
        match event {
            OptimizeEvent::Start => Ok(OptimizeStep::Compact),
            OptimizeEvent::Compacted(Ok(())) => Ok(OptimizeStep::Gc),
            OptimizeEvent::Compacted(Err(e)) => Err(OptimizeError::Compact(e)),
            OptimizeEvent::Swept(Ok(())) | OptimizeEvent::Swept(Err(GcError::NoStorage)) => {
                Ok(OptimizeStep::WalGc)
            },
            OptimizeEvent::Swept(Err(e)) => Err(OptimizeError::Gc(e)),
            OptimizeEvent::WalSwept(Ok(())) | OptimizeEvent::WalSwept(
                Err(WalGcError::NoStorageAttached),
            ) => Ok(OptimizeStep::Done),
            OptimizeEvent::WalSwept(Err(e)) => Err(OptimizeError::WalGc(e)),
        }
    }
}

// ---------------------------------------------------------------- laws

/// Where every step goes well, an optimization merges, sweeps superfiles, sweeps
/// the state of mutations, and is done; for want of storage the sweeps are
/// passed over.
pub proof fn optimizing_runs_to_its_end(merged: OptimizeEvent, swept: OptimizeEvent, cleared: OptimizeEvent)
    requires
        merged matches OptimizeEvent::Compacted(Ok(_)),
        swept matches OptimizeEvent::Swept(o) && (o matches Err(e) ==> e is NoStorage),
        cleared matches OptimizeEvent::WalSwept(o) && (o matches Err(e) ==> e is NoStorageAttached),
    ensures
        optimize_step(OptimizeEvent::Start)->Ok_0 is Compact,
        optimize_step(merged)->Ok_0 is Gc,
        optimize_step(swept)->Ok_0 is WalGc,
        optimize_step(cleared)->Ok_0 is Done,
        optimize_step(OptimizeEvent::Start) is Ok,
        optimize_step(merged) is Ok,
        optimize_step(swept) is Ok,
        optimize_step(cleared) is Ok,
{
}

/// A fault that is not the want of storage ends an optimization, and is told as
/// the fault of its step.
pub proof fn faults_end_an_optimization(message: String)
    ensures
        optimize_step(OptimizeEvent::Compacted(Err(message))) == Err::<OptimizeStep, OptimizeError>(
            OptimizeError::Compact(message),
        ),
        optimize_step(OptimizeEvent::Swept(Err(GcError::Failed(message)))) == Err::<
            OptimizeStep,
            OptimizeError,
        >(OptimizeError::Gc(GcError::Failed(message))),
        optimize_step(OptimizeEvent::WalSwept(Err(WalGcError::Failed(message)))) == Err::<
            OptimizeStep,
            OptimizeError,
        >(OptimizeError::WalGc(WalGcError::Failed(message))),
{
}

} // verus!
