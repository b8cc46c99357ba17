//! One block as a unit of work: its manifest record, its once-through
//! source, and its destination region — together with the per-block state
//! machine that the drivers run: Queued, Writing, Written, Verifying, and
//! the terminal Verified or Failed. A block only reaches Verified after
//! its write and its verification both succeed.

use vstd::prelude::*;
use vstd::pervasive::unreached;
use crate::device::Device;
use crate::device::spec_write;
use crate::memory::LogicalBlockDestination;
use crate::memory::MemoryMapping;
use crate::memory::Region;
use crate::reporting::LogicalBlockError;
use crate::reporting::UpdateError;
use crate::reporting::UpdateFault;
use crate::software_archive;
use crate::software_archive::BlockInfo;
use crate::software_archive::LogicalBlockReader;
use crate::software_archive::SoftwareArchive;
use crate::software_archive::zip_entry;
use crate::update_sequence::spec_process_block;
use crate::update_sequence::spec_verify_block;
use crate::update_sequence::spec_write_block;
use crate::update_sequence::verify_logical_block;
use crate::update_sequence::write_logical_block;

verus! {

/// A block's once-through source of bytes.
pub struct LogicalBlockSource {
    pub file: LogicalBlockReader,
}

/// One block ready to process: identity, signature, source and
/// destination.
pub struct LogicalBlock {
    pub id: String,
    pub name: String,
    pub signature: String,
    pub source: LogicalBlockSource,
    pub destination: LogicalBlockDestination,
}

impl LogicalBlock {
    /// The manifest record of this block.
    pub open spec fn info(self) -> BlockInfo {
        self.source.file.info()
    }

    /// The bytes the source has still to deliver.
    pub open spec fn source_remaining(self) -> Seq<u8> {
        self.source.file.remaining()
    }

    /// The destination region.
    pub open spec fn dest_region(self) -> Region {
        self.destination.region()
    }

    /// The source reader is sound.
    pub open spec fn wf(self) -> bool {
        self.source.file.wf()
    }

    /// Join a source reader with its destination region into a unit of
    /// work.
    pub fn new(source: LogicalBlockReader, destination: LogicalBlockDestination) -> (r:
        LogicalBlock)
        requires
            source.wf(),
        ensures
            r.wf(),
            r.info() == source.info(),
            r.source_remaining() == source.remaining(),
            r.dest_region() == destination.region(),
    {
        let record = source.get_logical_block();
        let id = record.get_id();
        let name = record.get_short_name().clone();
        let signature = record.get_signature().clone();
        LogicalBlock { id, name, signature, source: LogicalBlockSource { file: source }, destination }
    }

    /// Write the whole source to the destination region, then reconcile
    /// the total against the declared region size.
    pub fn write(&mut self, device: &mut Device) -> (r: Result<usize, UpdateError>)
        requires
            old(self).wf(),
            old(device).wf(),
        ensures
            final(device).wf(),
            final(self).info() == old(self).info(),
            final(self).dest_region() == old(self).dest_region(),
            ({
                let step = spec_write_block(
                    old(device).contents(),
                    old(self).dest_region(),
                    old(self).source_remaining(),
                    old(self).info().id,
                );
                &&& final(device).contents() == step.1
                &&& match (r, step.0) {
                    (Ok(n), Ok(())) => n == old(self).source_remaining().len(),
                    (Err(e), Err(f)) => e.fault() == f,
                    _ => false,
                }
            }),
    {
        let reader = self.source.file.take();
        match write_logical_block(reader, &self.destination, device) {
            Ok(()) => Ok(self.destination.get_size()),
            Err(e) => Err(e),
        }
    }

    /// Verify the destination bytes against the block's signature.
    pub fn verify(&self, device: &Device, public_key_pem: &Vec<u8>) -> (r: Result<
        (),
        UpdateError,
    >)
        requires
            device.wf(),
        ensures
            match (r, spec_verify_block(
                device.contents(),
                self.dest_region(),
                self.info(),
                public_key_pem@,
            )) {
                (Ok(()), Ok(())) => true,
                (Err(e), Err(f)) => e.fault() == f,
                _ => false,
            },
    {
        verify_logical_block(
            self.destination.clone(),
            self.source.file.get_logical_block().clone(),
            public_key_pem,
            device,
        )
    }
}

/// The phase of one block in the driver's state machine. A block only
/// advances to `Verified` after write and verification both succeed; any
/// failure ends in `Failed`.
#[derive(Debug, PartialEq, Eq, Structural, Clone, Copy)]
pub enum BlockPhase {
    Queued,
    Writing,
    Written,
    Verifying,
    Verified,
    Failed,
}

/// One block travelling through the state machine, together with the
/// ghost storage state it started from.
pub struct BlockTask {
    record: software_archive::LogicalBlock,
    phase: BlockPhase,
    work: Option<LogicalBlock>,
    failure: Option<UpdateError>,
    dev0: Ghost<Map<Seq<char>, Seq<u8>>>,
}

impl BlockTask {
    /// The manifest record of the block the state machine drives.
    pub closed spec fn info(self) -> BlockInfo {
        self.record.info()
    }

    /// The phase the task is in.
    pub closed spec fn phase(self) -> BlockPhase {
        self.phase
    }

    /// The storage contents when the task was queued.
    pub closed spec fn dev_start(self) -> Map<Seq<char>, Seq<u8>> {
        self.dev0@
    }

    /// The error of a failed task.
    pub closed spec fn spec_failure(self) -> Option<UpdateError> {
        self.failure
    }

    /// Whether the task has reached a terminal phase.
    pub closed spec fn is_terminal(self) -> bool {
        self.phase is Verified || self.phase is Failed
    }

    /// How far the task still has to go.
    pub closed spec fn fuel(self) -> int {
        match self.phase {
            BlockPhase::Queued => 4,
            BlockPhase::Writing => 3,
            BlockPhase::Written => 2,
            BlockPhase::Verifying => 1,
            BlockPhase::Verified => 0,
            BlockPhase::Failed => 0,
        }
    }

    /// The state invariant: what each phase says about the task and the
    /// storage, against the pipeline's step on this block.
    pub closed spec fn inv(
        self,
        m: Map<Seq<char>, Region>,
        archive: Seq<u8>,
        key: Seq<u8>,
        dev: Map<Seq<char>, Seq<u8>>,
    ) -> bool {
        match self.phase {
            BlockPhase::Queued => self.work is None && self.failure is None && dev == self.dev0@,
            BlockPhase::Writing => {
                &&& self.failure is None
                &&& dev == self.dev0@
                &&& self.work matches Some(w) && w.wf() && w.info() == self.info() && Some(
                    w.source_remaining(),
                ) == zip_entry(archive, self.info().path_in_archive) && m.contains_key(
                    self.info().id,
                ) && w.dest_region() == m[self.info().id]
            },
            BlockPhase::Written | BlockPhase::Verifying => {
                &&& self.failure is None
                &&& m.contains_key(self.info().id)
                &&& zip_entry(archive, self.info().path_in_archive) matches Some(src) && {
                    let step = spec_write_block(self.dev0@, m[self.info().id], src, self.info().id);
                    &&& step.0 is Ok
                    &&& dev == step.1
                }
                &&& self.work matches Some(w) && w.info() == self.info() && w.dest_region()
                    == m[self.info().id]
            },
            BlockPhase::Verified => self.failure is None && spec_process_block(
                m,
                archive,
                key,
                self.dev0@,
                self.info(),
            ) == (Ok::<(), UpdateFault>(()), dev),
            BlockPhase::Failed => self.failure matches Some(e) && spec_process_block(
                m,
                archive,
                key,
                self.dev0@,
                self.info(),
            ) == (Err::<(), UpdateFault>(e.fault()), dev),
        }
    }

    /// What a terminal task means: a verified task is exactly a successful
    /// pipeline step from the storage it started on; a failed one carries
    /// exactly the step's fault.
    pub proof fn lemma_terminal_outcome(
        self,
        m: Map<Seq<char>, Region>,
        archive: Seq<u8>,
        key: Seq<u8>,
        dev: Map<Seq<char>, Seq<u8>>,
    )
        requires
            self.inv(m, archive, key, dev),
            self.is_terminal(),
        ensures
            self.phase() is Verified ==> self.spec_failure() is None && spec_process_block(
                m,
                archive,
                key,
                self.dev_start(),
                self.info(),
            ) == (Ok::<(), UpdateFault>(()), dev),
            self.phase() is Failed ==> (self.spec_failure() matches Some(e)
                && spec_process_block(m, archive, key, self.dev_start(), self.info()) == (
            Err::<(), UpdateFault>(e.fault()),
            dev,
            )),
    {
    }

    /// Queue one block of the manifest.
    pub fn queue(record: &software_archive::LogicalBlock, device: &Device) -> (r: BlockTask)
        ensures
            r.phase() is Queued,
            r.fuel() >= 0,
            r.info() == record.info(),
            r.dev_start() == device.contents(),
            forall|m: Map<Seq<char>, Region>, archive: Seq<u8>, key: Seq<u8>|
                r.inv(m, archive, key, device.contents()),
    {
        BlockTask {
            record: record.clone(),
            phase: BlockPhase::Queued,
            work: None,
            failure: None,
            dev0: Ghost(device.contents()),
        }
    }

    /// The terminal outcome: nothing for a verified block, the first error
    /// for a failed one.
    pub fn outcome(self) -> (r: Result<(), UpdateError>)
        requires
            self.is_terminal(),
            self.phase() is Failed ==> self.spec_failure() is Some,
            self.phase() is Verified ==> self.spec_failure() is None,
        ensures
            match r {
                Ok(()) => self.phase() is Verified,
                Err(e) => self.phase() is Failed && self.spec_failure() == Some(e),
            },
    {
        match self.failure {
            None => Ok(()),
            Some(e) => Err(e),
        }
    }

    /// Advance the task by one phase: resolve it, write it, or verify it.
    pub fn step(
        &mut self,
        memory_mapping: &MemoryMapping,
        archive: &SoftwareArchive,
        public_key_pem: &Vec<u8>,
        device: &mut Device,
    ) -> (made_progress: bool)
        requires
            !old(self).is_terminal(),
            old(self).inv(
                memory_mapping.mapping(),
                archive.bytes(),
                public_key_pem@,
                old(device).contents(),
            ),
            memory_mapping.wf(),
            old(device).wf(),
        ensures
            final(device).wf(),
            final(self).info() == old(self).info(),
            final(self).dev_start() == old(self).dev_start(),
            final(self).inv(
                memory_mapping.mapping(),
                archive.bytes(),
                public_key_pem@,
                final(device).contents(),
            ),
            final(self).fuel() < old(self).fuel(),
            final(self).fuel() >= 0,
            final(self).phase() is Failed ==> final(self).spec_failure() is Some,
            final(self).phase() is Verified ==> final(self).spec_failure() is None,
            made_progress,
    {
        let ghost m = memory_mapping.mapping();
        match self.phase {
            BlockPhase::Queued => {
                let reader = match archive.get_logical_block_reader(&self.record) {
                    Ok(reader) => reader,
                    Err(e) => {
                        self.failure = Some(e);
                        self.phase = BlockPhase::Failed;
                        return true;
                    },
                };
                let destination = match memory_mapping.get_logical_block_writer(&self.record) {
                    Ok(d) => d,
                    Err(e) => {
                        self.failure = Some(e);
                        self.phase = BlockPhase::Failed;
                        return true;
                    },
                };
                self.work = Some(LogicalBlock::new(reader, destination));
                self.phase = BlockPhase::Writing;
                true
            },
            BlockPhase::Writing => {
                let r = match &mut self.work {
                    Some(w) => w.write(device),
                    None => unreached(),
                };
                match r {
                    Ok(_) => {
                        self.phase = BlockPhase::Written;
                    },
                    Err(e) => {
                        self.failure = Some(e);
                        self.phase = BlockPhase::Failed;
                    },
                }
                true
            },
            BlockPhase::Written => {
                self.phase = BlockPhase::Verifying;
                true
            },
            BlockPhase::Verifying => {
                let r = match &self.work {
                    Some(w) => w.verify(device, public_key_pem),
                    None => unreached(),
                };
                match r {
                    Ok(()) => {
                        self.phase = BlockPhase::Verified;
                    },
                    Err(e) => {
                        self.failure = Some(e);
                        self.phase = BlockPhase::Failed;
                    },
                }
                true
            },
            BlockPhase::Verified => true,
            BlockPhase::Failed => true,
        }
    }

    /// Whether the task has reached a terminal phase.
    pub fn done(&self) -> (r: bool)
        ensures
            r == self.is_terminal(),
    {
        match self.phase {
            BlockPhase::Verified => true,
            BlockPhase::Failed => true,
            _ => false,
        }
    }
}

} // verus!
