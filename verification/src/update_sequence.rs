//! The update pipeline: for each manifest record, in manifest order, copy
//! the block's bytes from the archive to its destination region and then
//! verify the RSA-PSS signature over the bytes that actually landed there.
//! The first failure stops the update; earlier writes are not rolled back.

use vstd::prelude::*;
use crate::crypto::LogicalBlockVerifier;
use crate::crypto::spec_verify;
use crate::device::Device;
use crate::device::spec_write;
use crate::memory::LogicalBlockDestination;
use crate::memory::MemoryMapping;
use crate::memory::Region;
use crate::reporting::LogicalBlockError;
use crate::reporting::UpdateError;
use crate::reporting::UpdateFault;
use crate::software_archive::BlockInfo;
use crate::software_archive::LogicalBlock;
use crate::software_archive::LogicalBlockReader;
use crate::software_archive::SoftwareArchive;
use crate::software_archive::zip_entry;
use crate::memory::LogicalBlockWriter;
use vstd::slice::slice_to_vec;

verus! {

/// The write half of one block: the destination file must exist and the
/// window must be addressable; then the source bytes land at the region's
/// offset, and the total must equal the declared region size. An error
/// after the write keeps the written bytes: there is no rollback.
pub open spec fn spec_write_block(
    dev: Map<Seq<char>, Seq<u8>>,
    region: Region,
    src: Seq<u8>,
    id: Seq<char>,
) -> (Result<(), UpdateFault>, Map<Seq<char>, Seq<u8>>) {
    if !(dev.contains_key(region.path) && (src.len() == 0 || region.offset + src.len()
        <= usize::MAX)) {
        (Err(UpdateFault::BlockWrite(id)), dev)
    } else {
        let dev1 = spec_write(dev, region.path, region.offset, src);
        if src.len() != region.size {
            (Err(UpdateFault::BlockSize(id)), dev1)
        } else {
            (Ok(()), dev1)
        }
    }
}

/// The verify half of one block: the RSA-PSS verdict over the region read
/// back from the destination; a clean `false` verdict is a
/// `VerificationFailed` of its own.
pub open spec fn spec_verify_block(
    dev: Map<Seq<char>, Seq<u8>>,
    region: Region,
    info: BlockInfo,
    key: Seq<u8>,
) -> Result<(), UpdateFault> {
    match spec_verify(dev, region, info, key) {
        Ok(true) => Ok(()),
        Ok(false) => Err(UpdateFault::Verification(info.id)),
        Err(f) => Err(f),
    }
}

/// One block of the pipeline: resolve the archive entry, resolve the
/// mapping, write, check the size, verify. The returned storage reflects
/// everything that was written before the first failure.
pub open spec fn spec_process_block(
    m: Map<Seq<char>, Region>,
    archive: Seq<u8>,
    key: Seq<u8>,
    dev: Map<Seq<char>, Seq<u8>>,
    info: BlockInfo,
) -> (Result<(), UpdateFault>, Map<Seq<char>, Seq<u8>>) {
    match zip_entry(archive, info.path_in_archive) {
        None => (Err(UpdateFault::BlockRead(info.id)), dev),
        Some(src) => {
            if !m.contains_key(info.id) {
                (Err(UpdateFault::MissingBlock(info.id)), dev)
            } else {
                let region = m[info.id];
                let wr = spec_write_block(dev, region, src, info.id);
                if wr.0 is Err {
                    wr
                } else {
                    match spec_verify_block(wr.1, region, info, key) {
                        Ok(()) => (Ok(()), wr.1),
                        Err(f) => (Err(f), wr.1),
                    }
                }
            }
        },
    }
}

/// The whole pipeline over the manifest records, in manifest order: the
/// first failure stops it and later blocks are not touched.
pub open spec fn spec_run(
    m: Map<Seq<char>, Region>,
    archive: Seq<u8>,
    key: Seq<u8>,
    dev: Map<Seq<char>, Seq<u8>>,
    blocks: Seq<BlockInfo>,
) -> (Result<(), UpdateFault>, Map<Seq<char>, Seq<u8>>)
    decreases blocks.len(),
{
    if blocks.len() == 0 {
        (Ok(()), dev)
    } else {
        let step = spec_process_block(m, archive, key, dev, blocks[0]);
        if step.0 is Err {
            step
        } else {
            spec_run(m, archive, key, step.1, blocks.drop_first())
        }
    }
}

/// An update of an empty manifest succeeds and touches nothing.
pub proof fn lemma_empty_manifest(
    m: Map<Seq<char>, Region>,
    archive: Seq<u8>,
    key: Seq<u8>,
    dev: Map<Seq<char>, Seq<u8>>,
)
    ensures
        spec_run(m, archive, key, dev, Seq::<BlockInfo>::empty()) == (
            Ok::<(), UpdateFault>(()),
            dev,
        ),
{
}

/// Every block delivers its full declared region size and every freshly
/// written region verifies under the key: the success condition of an
/// update, block by block in manifest order.
pub open spec fn spec_blocks_good(
    m: Map<Seq<char>, Region>,
    archive: Seq<u8>,
    key: Seq<u8>,
    dev: Map<Seq<char>, Seq<u8>>,
    blocks: Seq<BlockInfo>,
) -> bool
    decreases blocks.len(),
{
    if blocks.len() == 0 {
        true
    } else {
        let info = blocks[0];
        match zip_entry(archive, info.path_in_archive) {
            None => false,
            Some(src) => {
                &&& m.contains_key(info.id)
                &&& dev.contains_key(m[info.id].path)
                &&& (src.len() == 0 || m[info.id].offset + src.len() <= usize::MAX)
                &&& src.len() == m[info.id].size
                &&& spec_verify_block(
                    spec_write(dev, m[info.id].path, m[info.id].offset, src),
                    m[info.id],
                    info,
                    key,
                ) is Ok
                &&& spec_blocks_good(
                    m,
                    archive,
                    key,
                    spec_write(dev, m[info.id].path, m[info.id].offset, src),
                    blocks.drop_first(),
                )
            },
        }
    }
}

/// An update succeeds exactly when every block writes its whole declared
/// region and every destination region's bytes verify under the key.
pub proof fn lemma_update_ok_iff(
    m: Map<Seq<char>, Region>,
    archive: Seq<u8>,
    key: Seq<u8>,
    dev: Map<Seq<char>, Seq<u8>>,
    blocks: Seq<BlockInfo>,
)
    ensures
        spec_run(m, archive, key, dev, blocks).0 is Ok <==> spec_blocks_good(
            m,
            archive,
            key,
            dev,
            blocks,
        ),
    decreases blocks.len(),
{
    if blocks.len() > 0 {
        let info = blocks[0];
        match zip_entry(archive, info.path_in_archive) {
            None => {},
            Some(src) => {
                if m.contains_key(info.id) {
                    let region = m[info.id];
                    let wr = spec_write_block(dev, region, src, info.id);
                    if wr.0 is Ok {
                        lemma_update_ok_iff(m, archive, key, wr.1, blocks.drop_first());
                    }
                }
            },
        }
    }
}

/// A region as the configuration invariant demands it: non-empty, with an
/// addressable window.
pub open spec fn spec_region_wf(r: Region) -> bool {
    &&& 0 <= r.offset
    &&& 0 < r.size
    &&& r.offset + r.size <= usize::MAX
}

/// Every mapped region of the manifest's blocks meets the configuration
/// invariant.
pub open spec fn spec_mapped_regions_wf(m: Map<Seq<char>, Region>, blocks: Seq<BlockInfo>) -> bool {
    forall|j: int|
        0 <= j < blocks.len() && m.contains_key(blocks[j].id) ==> spec_region_wf(
            #[trigger] m[blocks[j].id],
        )
}

/// A window of a file that a region leaves alone: another file, or a
/// disjoint byte range.
pub open spec fn spec_region_avoids(r: Region, p: Seq<char>, o: int, s: int) -> bool {
    r.path != p || r.offset >= o + s || r.offset + r.size <= o
}

/// Distinct blocks of the manifest land in pairwise disjoint regions.
/// Overlapping regions for distinct ids are ill-formed input.
pub open spec fn spec_regions_disjoint(m: Map<Seq<char>, Region>, blocks: Seq<BlockInfo>) -> bool {
    forall|j: int, k: int|
        0 <= j < blocks.len() && 0 <= k < blocks.len() && j != k && m.contains_key(blocks[j].id)
            && m.contains_key(blocks[k].id) ==> spec_region_avoids(
            #[trigger] m[blocks[j].id],
            (#[trigger] m[blocks[k].id]).path,
            m[blocks[k].id].offset,
            m[blocks[k].id].size,
        )
}

/// Every block of a successful run is defined by the mapping.
proof fn lemma_run_all_mapped(
    m: Map<Seq<char>, Region>,
    archive: Seq<u8>,
    key: Seq<u8>,
    dev: Map<Seq<char>, Seq<u8>>,
    blocks: Seq<BlockInfo>,
)
    requires
        spec_run(m, archive, key, dev, blocks).0 is Ok,
    ensures
        forall|j: int| 0 <= j < blocks.len() ==> m.contains_key(#[trigger] blocks[j].id),
    decreases blocks.len(),
{
    if blocks.len() > 0 {
        let info = blocks[0];
        let src = zip_entry(archive, info.path_in_archive).unwrap();
        let region = m[info.id];
        let dev_h = spec_write(dev, region.path, region.offset, src);
        lemma_run_all_mapped(m, archive, key, dev_h, blocks.drop_first());
        assert forall|j: int| 1 <= j < blocks.len() implies m.contains_key(
            #[trigger] blocks[j].id,
        ) by {
            assert(blocks.drop_first()[j - 1] == blocks[j]);
        }
    }
}

/// A successful run keeps every byte of a window that all its blocks'
/// regions avoid, and never shrinks a file.
proof fn lemma_run_preserves_window(
    m: Map<Seq<char>, Region>,
    archive: Seq<u8>,
    key: Seq<u8>,
    dev: Map<Seq<char>, Seq<u8>>,
    blocks: Seq<BlockInfo>,
    p: Seq<char>,
    o: int,
    s: int,
)
    requires
        spec_run(m, archive, key, dev, blocks).0 is Ok,
        spec_mapped_regions_wf(m, blocks),
        dev.contains_key(p),
        0 <= o,
        0 <= s,
        o + s <= dev[p].len(),
        forall|j: int|
            0 <= j < blocks.len() ==> spec_region_avoids(#[trigger] m[blocks[j].id], p, o, s),
    ensures
        ({
            let d1 = spec_run(m, archive, key, dev, blocks).1;
            &&& d1.contains_key(p)
            &&& d1[p].len() >= dev[p].len()
            &&& d1[p].subrange(o, o + s) == dev[p].subrange(o, o + s)
        }),
    decreases blocks.len(),
{
    if blocks.len() == 0 {
    } else {
        let info = blocks[0];
        let src = zip_entry(archive, info.path_in_archive).unwrap();
        let region = m[info.id];
        let dev_h = spec_write(dev, region.path, region.offset, src);
        assert(spec_region_avoids(region, p, o, s));
        assert(spec_region_wf(region));
        crate::device::lemma_write_file_outside(dev[region.path], region.offset, src);
        assert(dev_h.contains_key(p));
        assert(dev_h[p].len() >= dev[p].len());
        assert(dev_h[p].subrange(o, o + s) =~= dev[p].subrange(o, o + s)) by {
            assert forall|t: int| o <= t < o + s implies dev_h[p][t] == dev[p][t] by {
                if region.path == p {
                    assert(src.len() == region.size);
                    assert(!(region.offset <= t < region.offset + src.len()));
                }
            }
        }
        assert forall|j: int|
            0 <= j < blocks.drop_first().len() implies spec_region_avoids(
            #[trigger] m[blocks.drop_first()[j].id],
            p,
            o,
            s,
        ) by {
            assert(blocks.drop_first()[j] == blocks[j + 1]);
            assert(spec_region_avoids(m[blocks[j + 1].id], p, o, s));
        }
        assert forall|j: int|
            0 <= j < blocks.drop_first().len() && m.contains_key(
                blocks.drop_first()[j].id,
            ) implies spec_region_wf(#[trigger] m[blocks.drop_first()[j].id]) by {
            assert(blocks.drop_first()[j] == blocks[j + 1]);
        }
        lemma_run_preserves_window(m, archive, key, dev_h, blocks.drop_first(), p, o, s);
    }
}

/// After a successful update, every destination region holds exactly the
/// decompressed bytes of its block's archive entry — provided the regions
/// are pairwise disjoint and meet the configuration invariant.
pub proof fn lemma_update_writes_entries(
    m: Map<Seq<char>, Region>,
    archive: Seq<u8>,
    key: Seq<u8>,
    dev: Map<Seq<char>, Seq<u8>>,
    blocks: Seq<BlockInfo>,
    i: int,
)
    requires
        spec_run(m, archive, key, dev, blocks).0 is Ok,
        spec_mapped_regions_wf(m, blocks),
        spec_regions_disjoint(m, blocks),
        0 <= i < blocks.len(),
    ensures
        ({
            let d1 = spec_run(m, archive, key, dev, blocks).1;
            let region = m[blocks[i].id];
            crate::device::spec_read(d1, region.path, region.offset, region.size) == zip_entry(
                archive,
                blocks[i].path_in_archive,
            )
        }),
    decreases blocks.len(),
{
    lemma_run_all_mapped(m, archive, key, dev, blocks);
    let info = blocks[0];
    let src = zip_entry(archive, info.path_in_archive).unwrap();
    let region = m[info.id];
    let dev_h = spec_write(dev, region.path, region.offset, src);
    assert(spec_region_wf(region));
    assert(src.len() == region.size);
    crate::device::lemma_write_file_window(dev[region.path], region.offset, src);
    assert(dev_h[region.path].len() >= region.offset + region.size);
    if i == 0 {
        assert(dev_h[region.path].subrange(region.offset, region.offset + region.size) == src);
        assert forall|j: int|
            0 <= j < blocks.drop_first().len() implies spec_region_avoids(
            #[trigger] m[blocks.drop_first()[j].id],
            region.path,
            region.offset,
            region.size,
        ) by {
            assert(blocks.drop_first()[j] == blocks[j + 1]);
            assert(m.contains_key(blocks[j + 1].id));
            assert(m.contains_key(blocks[0].id));
            assert(spec_region_avoids(
                m[blocks[j + 1].id],
                m[blocks[0].id].path,
                m[blocks[0].id].offset,
                m[blocks[0].id].size,
            ));
        }
        assert forall|j: int|
            0 <= j < blocks.drop_first().len() && m.contains_key(
                blocks.drop_first()[j].id,
            ) implies spec_region_wf(#[trigger] m[blocks.drop_first()[j].id]) by {
            assert(blocks.drop_first()[j] == blocks[j + 1]);
        }
        lemma_run_preserves_window(
            m,
            archive,
            key,
            dev_h,
            blocks.drop_first(),
            region.path,
            region.offset,
            region.size,
        );
        let d1 = spec_run(m, archive, key, dev, blocks).1;
        assert(d1[region.path].subrange(region.offset, region.offset + region.size) == src);
    } else {
        assert forall|j: int, k: int|
            0 <= j < blocks.drop_first().len() && 0 <= k < blocks.drop_first().len() && j != k
                && m.contains_key(blocks.drop_first()[j].id) && m.contains_key(
                blocks.drop_first()[k].id,
            ) implies spec_region_avoids(
            #[trigger] m[blocks.drop_first()[j].id],
            (#[trigger] m[blocks.drop_first()[k].id]).path,
            m[blocks.drop_first()[k].id].offset,
            m[blocks.drop_first()[k].id].size,
        ) by {
            assert(blocks.drop_first()[j] == blocks[j + 1]);
            assert(blocks.drop_first()[k] == blocks[k + 1]);
        }
        assert forall|j: int|
            0 <= j < blocks.drop_first().len() && m.contains_key(
                blocks.drop_first()[j].id,
            ) implies spec_region_wf(#[trigger] m[blocks.drop_first()[j].id]) by {
            assert(blocks.drop_first()[j] == blocks[j + 1]);
        }
        lemma_update_writes_entries(m, archive, key, dev_h, blocks.drop_first(), i - 1);
        assert(blocks.drop_first()[i - 1] == blocks[i]);
    }
}

/// A successful update is idempotent: running it again on the same inputs
/// against the just-updated destinations succeeds and leaves every
/// destination byte-identical — provided the regions are pairwise disjoint
/// and meet the configuration invariant.
pub proof fn lemma_update_idempotent(
    m: Map<Seq<char>, Region>,
    archive: Seq<u8>,
    key: Seq<u8>,
    dev: Map<Seq<char>, Seq<u8>>,
    blocks: Seq<BlockInfo>,
)
    requires
        spec_run(m, archive, key, dev, blocks).0 is Ok,
        spec_mapped_regions_wf(m, blocks),
        spec_regions_disjoint(m, blocks),
    ensures
        spec_run(m, archive, key, spec_run(m, archive, key, dev, blocks).1, blocks) == (
            Ok::<(), UpdateFault>(()),
            spec_run(m, archive, key, dev, blocks).1,
        ),
    decreases blocks.len(),
{
    if blocks.len() == 0 {
    } else {
        let info = blocks[0];
        let src = zip_entry(archive, info.path_in_archive).unwrap();
        let region = m[info.id];
        let dev_h = spec_write(dev, region.path, region.offset, src);
        let d1 = spec_run(m, archive, key, dev, blocks).1;
        assert(spec_region_wf(region));
        assert(src.len() == region.size);
        crate::device::lemma_write_file_window(dev[region.path], region.offset, src);
        assert(dev_h[region.path].len() >= region.offset + region.size);
        assert(dev_h[region.path].subrange(region.offset, region.offset + region.size) == src);
        assert forall|j: int|
            0 <= j < blocks.drop_first().len() implies spec_region_avoids(
            #[trigger] m[blocks.drop_first()[j].id],
            region.path,
            region.offset,
            region.size,
        ) by {
            lemma_run_all_mapped(m, archive, key, dev, blocks);
            assert(blocks.drop_first()[j] == blocks[j + 1]);
            assert(m.contains_key(blocks[j + 1].id));
            assert(spec_region_avoids(
                m[blocks[j + 1].id],
                m[blocks[0].id].path,
                m[blocks[0].id].offset,
                m[blocks[0].id].size,
            ));
        }
        assert forall|j: int|
            0 <= j < blocks.drop_first().len() && m.contains_key(
                blocks.drop_first()[j].id,
            ) implies spec_region_wf(#[trigger] m[blocks.drop_first()[j].id]) by {
            assert(blocks.drop_first()[j] == blocks[j + 1]);
        }
        assert forall|j: int, k: int|
            0 <= j < blocks.drop_first().len() && 0 <= k < blocks.drop_first().len() && j != k
                && m.contains_key(blocks.drop_first()[j].id) && m.contains_key(
                blocks.drop_first()[k].id,
            ) implies spec_region_avoids(
            #[trigger] m[blocks.drop_first()[j].id],
            (#[trigger] m[blocks.drop_first()[k].id]).path,
            m[blocks.drop_first()[k].id].offset,
            m[blocks.drop_first()[k].id].size,
        ) by {
            assert(blocks.drop_first()[j] == blocks[j + 1]);
            assert(blocks.drop_first()[k] == blocks[k + 1]);
        }
        // The final state keeps the head block's freshly written window.
        lemma_run_preserves_window(
            m,
            archive,
            key,
            dev_h,
            blocks.drop_first(),
            region.path,
            region.offset,
            region.size,
        );
        assert(d1.contains_key(region.path));
        assert(d1[region.path].len() >= region.offset + region.size);
        assert(d1[region.path].subrange(region.offset, region.offset + region.size) == src);
        // Re-writing the same bytes at the same place is a no-op.
        crate::device::lemma_write_noop(d1, region.path, region.offset, src);
        // The head block verifies again: the read-back window is the same.
        assert(crate::crypto::spec_read_back(d1, region) == crate::crypto::spec_read_back(
            dev_h,
            region,
        ));
        // The tail is idempotent by induction.
        lemma_update_idempotent(m, archive, key, dev_h, blocks.drop_first());
        assert(spec_run(m, archive, key, d1, blocks.drop_first()) == (
            Ok::<(), UpdateFault>(()),
            d1,
        ));
    }
}

/// Copy one block to its destination region and reconcile the size: the
/// number of bytes delivered by the archive entry must equal the declared
/// region size.
pub fn write_logical_block(
    logical_block_reader: LogicalBlockReader,
    logical_block_destination: &LogicalBlockDestination,
    device: &mut Device,
) -> (r: Result<(), UpdateError>)
    requires
        old(device).wf(),
        logical_block_reader.wf(),
    ensures
        final(device).wf(),
        ({
            let step = spec_write_block(
                old(device).contents(),
                logical_block_destination.region(),
                logical_block_reader.remaining(),
                logical_block_reader.info().id,
            );
            &&& final(device).contents() == step.1
            &&& match (r, step.0) {
                (Ok(()), Ok(())) => true,
                (Err(e), Err(f)) => e.fault() == f,
                _ => false,
            }
        }),
{
    let ghost info = logical_block_reader.info();
    let id = logical_block_reader.get_logical_block_id();
    let mut logical_block_writer = match LogicalBlockWriter::from(
        logical_block_reader,
        logical_block_destination.clone(),
        device,
    ) {
        Ok(w) => w,
        Err(e) => {
            return Err(e);
        },
    };
    let bytes_count = match logical_block_writer.write(device) {
        Ok(n) => n,
        Err(e) => {
            return Err(e);
        },
    };
    if bytes_count == logical_block_writer.get_size() {
        Ok(())
    } else {
        Err(UpdateError::LogicalBlockSize(LogicalBlockError::new(
            id,
            "the bytes delivered by the archive do not fill the declared region size",
        )))
    }
}

/// Verify one block: re-read its destination region and check the manifest
/// signature over those bytes under the public key.
pub fn verify_logical_block(
    logical_block_destination: LogicalBlockDestination,
    logical_block_info: LogicalBlock,
    public_key_pem: &Vec<u8>,
    device: &Device,
) -> (r: Result<(), UpdateError>)
    requires
        device.wf(),
    ensures
        match (r, spec_verify_block(
            device.contents(),
            logical_block_destination.region(),
            logical_block_info.info(),
            public_key_pem@,
        )) {
            (Ok(()), Ok(())) => true,
            (Err(e), Err(f)) => e.fault() == f,
            _ => false,
        },
{
    let id = logical_block_info.get_id();
    let logical_block_verifier = LogicalBlockVerifier::from(
        logical_block_destination,
        logical_block_info,
        slice_to_vec(public_key_pem.as_slice()),
    );
    match logical_block_verifier.verify(device) {
        Ok(true) => Ok(()),
        Ok(false) => Err(UpdateError::VerificationFailed(LogicalBlockError::new(
            id,
            "the destination bytes do not match the manifest signature",
        ))),
        Err(e) => Err(e),
    }
}

/// Apply a whole update, one block at a time in manifest order: write each
/// block to its destination region, then verify the signature over the
/// bytes read back from there. The first failure is returned and later
/// blocks are not attempted; written bytes stay.
pub fn sequencial_update(
    memory_mapping: &MemoryMapping,
    new_software_archive: &SoftwareArchive,
    public_key_pem: &Vec<u8>,
    device: &mut Device,
) -> (r: Result<(), UpdateError>)
    requires
        memory_mapping.wf(),
        old(device).wf(),
    ensures
        final(device).wf(),
        ({
            let run = spec_run(
                memory_mapping.mapping(),
                new_software_archive.bytes(),
                public_key_pem@,
                old(device).contents(),
                new_software_archive.blocks(),
            );
            &&& final(device).contents() == run.1
            &&& match (r, run.0) {
                (Ok(()), Ok(())) => true,
                (Err(e), Err(f)) => e.fault() == f,
                _ => false,
            }
        }),
{
    let ghost m = memory_mapping.mapping();
    let ghost archive = new_software_archive.bytes();
    let ghost key = public_key_pem@;
    let ghost dev0 = old(device).contents();
    let ghost all = new_software_archive.blocks();
    let blocks = new_software_archive.get_logical_blocks();
    let mut i: usize = 0;
    proof {
        assert(all.skip(0) =~= all);
    }
    while i < blocks.len()
        invariant
            i <= blocks@.len(),
            device.wf(),
            memory_mapping.wf(),
            dev0 == old(device).contents(),
            m == memory_mapping.mapping(),
            archive == new_software_archive.bytes(),
            key == public_key_pem@,
            all == new_software_archive.blocks(),
            blocks@.map_values(|lb: LogicalBlock| lb.info()) == all,
            spec_run(m, archive, key, dev0, all) == spec_run(
                m,
                archive,
                key,
                device.contents(),
                all.skip(i as int),
            ),
        decreases blocks@.len() - i,
    {
        let ghost dev_i = device.contents();
        let logical_block_info = &blocks[i];
        proof {
            assert(all[i as int] == blocks@[i as int].info());
            assert(all.skip(i as int)[0] == all[i as int]);
            assert(all.skip(i as int).drop_first() =~= all.skip(i as int + 1));
        }
        let logical_block_reader = match new_software_archive.get_logical_block_reader(
            logical_block_info,
        ) {
            Ok(reader) => reader,
            Err(e) => {
                proof {
                    let step = spec_process_block(m, archive, key, dev_i, all[i as int]);
                    assert(zip_entry(archive, all[i as int].path_in_archive) is None);
                    assert(step == (
                        Err::<(), UpdateFault>(UpdateFault::BlockRead(all[i as int].id)),
                        dev_i,
                    ));
                    assert(spec_run(m, archive, key, dev_i, all.skip(i as int)) == step);
                    assert(e.fault() == UpdateFault::BlockRead(all[i as int].id));
                    assert(device.contents() == dev_i);
                }
                return Err(e);
            },
        };
        let logical_block_destination = match memory_mapping.get_logical_block_writer(
            logical_block_info,
        ) {
            Ok(d) => d,
            Err(e) => {
                proof {
                    let step = spec_process_block(m, archive, key, dev_i, all[i as int]);
                    assert(!m.contains_key(all[i as int].id));
                    assert(step == (
                        Err::<(), UpdateFault>(UpdateFault::MissingBlock(all[i as int].id)),
                        dev_i,
                    ));
                    assert(spec_run(m, archive, key, dev_i, all.skip(i as int)) == step);
                }
                return Err(e);
            },
        };
        let ghost src = logical_block_reader.remaining();
        let ghost region = logical_block_destination.region();
        proof {
            assert(zip_entry(archive, all[i as int].path_in_archive) == Some(src));
            assert(m.contains_key(all[i as int].id));
            assert(m[all[i as int].id] == region);
        }
        match write_logical_block(logical_block_reader, &logical_block_destination, device) {
            Ok(()) => (),
            Err(e) => {
                proof {
                    let step = spec_process_block(m, archive, key, dev_i, all[i as int]);
                    let wr = spec_write_block(dev_i, region, src, all[i as int].id);
                    assert(step == wr);
                    assert(wr.0 == Err::<(), UpdateFault>(e.fault()));
                    assert(device.contents() == wr.1);
                }
                return Err(e);
            },
        }
        let ghost dev_w = device.contents();
        match verify_logical_block(
            logical_block_destination,
            logical_block_info.clone(),
            public_key_pem,
            device,
        ) {
            Ok(()) => (),
            Err(e) => {
                proof {
                    let step = spec_process_block(m, archive, key, dev_i, all[i as int]);
                    let wr = spec_write_block(dev_i, region, src, all[i as int].id);
                    assert(wr.0 is Ok && wr.1 == dev_w);
                    assert(spec_verify_block(dev_w, region, all[i as int], key) == Err::<
                        (),
                        UpdateFault,
                    >(e.fault()));
                    assert(step == (Err::<(), UpdateFault>(e.fault()), dev_w));
                }
                return Err(e);
            },
        }
        proof {
            let step = spec_process_block(m, archive, key, dev_i, all[i as int]);
            let wr = spec_write_block(dev_i, region, src, all[i as int].id);
            assert(wr.0 is Ok && wr.1 == dev_w);
            assert(spec_verify_block(dev_w, region, all[i as int], key) is Ok);
            assert(step == (Ok::<(), UpdateFault>(()), dev_w));
        }
        i = i + 1;
    }
    proof {
        assert(all.skip(i as int) =~= Seq::<BlockInfo>::empty());
    }
    Ok(())
}

/// The whole update from the raw inputs: load the memory map, open the
/// archive, and run the pipeline over the manifest. Load failures touch
/// nothing.
pub open spec fn spec_update(
    cfg_text: Seq<char>,
    archive: Seq<u8>,
    key: Seq<u8>,
    dev: Map<Seq<char>, Seq<u8>>,
) -> (Result<(), UpdateFault>, Map<Seq<char>, Seq<u8>>) {
    match crate::memory::spec_load_mapping(cfg_text) {
        Err(id) => (Err(UpdateFault::BlockRead(id)), dev),
        Ok(m) => match crate::software_archive::spec_archive_blocks(archive) {
            None => (Err(UpdateFault::BlockRead(Seq::empty())), dev),
            Some(blocks) => spec_run(m, archive, key, dev, blocks),
        },
    }
}

/// Apply a whole update from the raw inputs, giving each block's
/// write-then-verify to a worker of its own; the workers never share a
/// destination handle or a source reader, and the first error wins. The
/// storage ends exactly as under the sequential strategy.
pub fn multi_threaded_update(
    memory_mapping_json: &str,
    software_archive: &Vec<u8>,
    public_key_pem: &Vec<u8>,
    device: &mut Device,
) -> (r: Result<(), UpdateError>)
    requires
        old(device).wf(),
    ensures
        final(device).wf(),
        ({
            let run = spec_update(
                memory_mapping_json@,
                software_archive@,
                public_key_pem@,
                old(device).contents(),
            );
            &&& final(device).contents() == run.1
            &&& match (r, run.0) {
                (Ok(()), Ok(())) => true,
                (Err(e), Err(f)) => e.fault() == f,
                _ => false,
            }
        }),
{
    let memory_mapping = match MemoryMapping::from(memory_mapping_json) {
        Ok(m) => m,
        Err(e) => {
            return Err(e);
        },
    };
    let new_software_archive = match SoftwareArchive::from(slice_to_vec(
        software_archive.as_slice(),
    )) {
        Ok(a) => a,
        Err(e) => {
            return Err(e);
        },
    };
    let ghost m = memory_mapping.mapping();
    let ghost archive = new_software_archive.bytes();
    let ghost key = public_key_pem@;
    let ghost dev0 = old(device).contents();
    let ghost all = new_software_archive.blocks();
    let blocks = new_software_archive.get_logical_blocks();
    let mut i: usize = 0;
    proof {
        assert(all.skip(0) =~= all);
    }
    while i < blocks.len()
        invariant
            i <= blocks@.len(),
            device.wf(),
            memory_mapping.wf(),
            dev0 == old(device).contents(),
            m == memory_mapping.mapping(),
            archive == new_software_archive.bytes(),
            archive == software_archive@,
            crate::memory::spec_load_mapping(memory_mapping_json@) == Ok::<
                Map<Seq<char>, Region>,
                Seq<char>,
            >(m),
            crate::software_archive::spec_archive_blocks(software_archive@) == Some(all),
            key == public_key_pem@,
            all == new_software_archive.blocks(),
            blocks@.map_values(|lb: LogicalBlock| lb.info()) == all,
            spec_run(m, archive, key, dev0, all) == spec_run(
                m,
                archive,
                key,
                device.contents(),
                all.skip(i as int),
            ),
        decreases blocks@.len() - i,
    {
        let ghost dev_i = device.contents();
        let logical_block_info = &blocks[i];
        proof {
            assert(all[i as int] == blocks@[i as int].info());
            assert(all.skip(i as int)[0] == all[i as int]);
            assert(all.skip(i as int).drop_first() =~= all.skip(i as int + 1));
        }
        let logical_block_reader = match new_software_archive.get_logical_block_reader(
            logical_block_info,
        ) {
            Ok(reader) => reader,
            Err(e) => {
                proof {
                    let step = spec_process_block(m, archive, key, dev_i, all[i as int]);
                    assert(zip_entry(archive, all[i as int].path_in_archive) is None);
                    assert(step == (
                        Err::<(), UpdateFault>(UpdateFault::BlockRead(all[i as int].id)),
                        dev_i,
                    ));
                    assert(spec_run(m, archive, key, dev_i, all.skip(i as int)) == step);
                }
                return Err(e);
            },
        };
        let logical_block_destination = match memory_mapping.get_logical_block_writer(
            logical_block_info,
        ) {
            Ok(d) => d,
            Err(e) => {
                proof {
                    let step = spec_process_block(m, archive, key, dev_i, all[i as int]);
                    assert(!m.contains_key(all[i as int].id));
                    assert(step == (
                        Err::<(), UpdateFault>(UpdateFault::MissingBlock(all[i as int].id)),
                        dev_i,
                    ));
                    assert(spec_run(m, archive, key, dev_i, all.skip(i as int)) == step);
                }
                return Err(e);
            },
        };
        let ghost src = logical_block_reader.remaining();
        let ghost region = logical_block_destination.region();
        proof {
            assert(zip_entry(archive, all[i as int].path_in_archive) == Some(src));
            assert(m.contains_key(all[i as int].id));
            assert(m[all[i as int].id] == region);
        }
        let mut worker = crate::logical_blocks::LogicalBlock::new(
            logical_block_reader,
            logical_block_destination,
        );
        match worker.write(device) {
            Ok(_) => (),
            Err(e) => {
                proof {
                    let step = spec_process_block(m, archive, key, dev_i, all[i as int]);
                    let wr = spec_write_block(dev_i, region, src, all[i as int].id);
                    assert(step == wr);
                    assert(wr.0 == Err::<(), UpdateFault>(e.fault()));
                    assert(device.contents() == wr.1);
                }
                return Err(e);
            },
        }
        let ghost dev_w = device.contents();
        match worker.verify(device, public_key_pem) {
            Ok(()) => (),
            Err(e) => {
                proof {
                    let step = spec_process_block(m, archive, key, dev_i, all[i as int]);
                    let wr = spec_write_block(dev_i, region, src, all[i as int].id);
                    assert(wr.0 is Ok && wr.1 == dev_w);
                    assert(spec_verify_block(dev_w, region, all[i as int], key) == Err::<
                        (),
                        UpdateFault,
                    >(e.fault()));
                    assert(step == (Err::<(), UpdateFault>(e.fault()), dev_w));
                }
                return Err(e);
            },
        }
        proof {
            let step = spec_process_block(m, archive, key, dev_i, all[i as int]);
            let wr = spec_write_block(dev_i, region, src, all[i as int].id);
            assert(wr.0 is Ok && wr.1 == dev_w);
            assert(spec_verify_block(dev_w, region, all[i as int], key) is Ok);
            assert(step == (Ok::<(), UpdateFault>(()), dev_w));
        }
        i = i + 1;
    }
    proof {
        assert(all.skip(i as int) =~= Seq::<BlockInfo>::empty());
    }
    Ok(())
}

/// Apply a whole update from the raw inputs on a single-threaded
/// cooperative scheduler: each block travels through the driver's state
/// machine, and a block's write strictly precedes its own verify. The
/// storage ends exactly as under the sequential strategy.
pub fn async_update(
    memory_mapping_json: &str,
    software_archive: &Vec<u8>,
    public_key_pem: &Vec<u8>,
    device: &mut Device,
) -> (r: Result<(), UpdateError>)
    requires
        old(device).wf(),
    ensures
        final(device).wf(),
        ({
            let run = spec_update(
                memory_mapping_json@,
                software_archive@,
                public_key_pem@,
                old(device).contents(),
            );
            &&& final(device).contents() == run.1
            &&& match (r, run.0) {
                (Ok(()), Ok(())) => true,
                (Err(e), Err(f)) => e.fault() == f,
                _ => false,
            }
        }),
{
    let memory_mapping = match MemoryMapping::from(memory_mapping_json) {
        Ok(m) => m,
        Err(e) => {
            return Err(e);
        },
    };
    let new_software_archive = match SoftwareArchive::from(slice_to_vec(
        software_archive.as_slice(),
    )) {
        Ok(a) => a,
        Err(e) => {
            return Err(e);
        },
    };
    let ghost m = memory_mapping.mapping();
    let ghost archive = new_software_archive.bytes();
    let ghost key = public_key_pem@;
    let ghost dev0 = old(device).contents();
    let ghost all = new_software_archive.blocks();
    let blocks = new_software_archive.get_logical_blocks();
    let mut i: usize = 0;
    proof {
        assert(all.skip(0) =~= all);
    }
    while i < blocks.len()
        invariant
            i <= blocks@.len(),
            device.wf(),
            memory_mapping.wf(),
            dev0 == old(device).contents(),
            m == memory_mapping.mapping(),
            archive == new_software_archive.bytes(),
            archive == software_archive@,
            crate::memory::spec_load_mapping(memory_mapping_json@) == Ok::<
                Map<Seq<char>, Region>,
                Seq<char>,
            >(m),
            crate::software_archive::spec_archive_blocks(software_archive@) == Some(all),
            key == public_key_pem@,
            all == new_software_archive.blocks(),
            blocks@.map_values(|lb: LogicalBlock| lb.info()) == all,
            spec_run(m, archive, key, dev0, all) == spec_run(
                m,
                archive,
                key,
                device.contents(),
                all.skip(i as int),
            ),
        decreases blocks@.len() - i,
    {
        let ghost dev_i = device.contents();
        proof {
            assert(all[i as int] == blocks@[i as int].info());
            assert(all.skip(i as int)[0] == all[i as int]);
            assert(all.skip(i as int).drop_first() =~= all.skip(i as int + 1));
        }
        let mut task = crate::logical_blocks::BlockTask::queue(&blocks[i], device);
        while !task.done()
            invariant
                device.wf(),
                memory_mapping.wf(),
                m == memory_mapping.mapping(),
                archive == new_software_archive.bytes(),
                key == public_key_pem@,
                task.info() == all[i as int],
                task.dev_start() == dev_i,
                task.inv(m, archive, key, device.contents()),
                task.phase() is Failed ==> task.spec_failure() is Some,
                task.phase() is Verified ==> task.spec_failure() is None,
            decreases task.fuel(),
        {
            task.step(&memory_mapping, &new_software_archive, public_key_pem, device);
        }
        proof {
            task.lemma_terminal_outcome(m, archive, key, device.contents());
        }
        match task.outcome() {
            Ok(()) => (),
            Err(e) => {
                return Err(e);
            },
        }
        i = i + 1;
    }
    proof {
        assert(all.skip(i as int) =~= Seq::<BlockInfo>::empty());
    }
    Ok(())
}

} // verus!
