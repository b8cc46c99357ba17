//! The bank configuration, the projection of the targeted bank, and the
//! writer that copies a logical block to its destination region.

use vstd::prelude::*;
use crate::device::Device;
use crate::device::spec_write;
use crate::reporting::LogicalBlockError;
use crate::reporting::UpdateError;
use crate::reporting::UpdateFault;
use crate::software_archive;
use crate::software_archive::BlockInfo;
use crate::software_archive::LogicalBlockReader;
use crate::text::str_equal;
use vstd::string::StringExecFns;

verus! {

/// The mathematical shadow of a destination region: a contiguous byte range
/// of a destination file.
pub struct Region {
    pub path: Seq<char>,
    pub offset: int,
    pub size: int,
}

/// Where one logical block lands: a contiguous region of a destination file.
#[derive(Debug)]
pub struct LogicalBlockDestination {
    path: String,
    offset: u64,
    size: usize,
}

impl LogicalBlockDestination {
    /// The region this destination denotes.
    pub closed spec fn region(self) -> Region {
        Region { path: self.path@, offset: self.offset as int, size: self.size as int }
    }

    /// Bundle a path, an offset and a size.
    pub fn new(path: String, offset: u64, size: usize) -> (r: LogicalBlockDestination)
        ensures
            r.region() == (Region { path: path@, offset: offset as int, size: size as int }),
    {
        LogicalBlockDestination { path, offset, size }
    }

    /// The destination file's path.
    pub fn get_path(&self) -> (r: &str)
        ensures
            r@ == self.region().path,
    {
        self.path.as_str()
    }

    /// The byte offset of the region inside the destination file.
    pub fn get_offset(&self) -> (r: u64)
        ensures
            r as int == self.region().offset,
    {
        self.offset
    }

    /// The declared byte size of the region.
    pub fn get_size(&self) -> (r: usize)
        ensures
            r as int == self.region().size,
    {
        self.size
    }

    pub(crate) fn path_string(&self) -> (r: &String)
        ensures
            r@ == self.region().path,
    {
        &self.path
    }
}

impl Clone for LogicalBlockDestination {
    fn clone(&self) -> (r: Self)
        ensures
            r == *self,
    {
        LogicalBlockDestination {
            path: self.path.clone(),
            offset: self.offset,
            size: self.size,
        }
    }
}

/// The two banks' regions for one configured logical block.
#[derive(Debug)]
pub struct Banks {
    pub bank_a: LogicalBlockDestination,
    pub bank_b: LogicalBlockDestination,
}

/// One configured logical block: its name, its id and its destination in
/// either bank.
#[derive(Debug)]
pub struct LogicalBlock {
    pub name: String,
    pub id: String,
    pub destination: Banks,
}

/// The mathematical shadow of one configured logical block.
pub struct BlockCfg {
    pub name: Seq<char>,
    pub id: Seq<char>,
    pub bank_a: Region,
    pub bank_b: Region,
}

/// The region that `bank` selects out of a configured block. The caller
/// only ever passes `bank_a` or `bank_b`.
pub open spec fn spec_bank_region(b: BlockCfg, bank: Seq<char>) -> Region {
    if bank == "bank_a"@ {
        b.bank_a
    } else {
        b.bank_b
    }
}

impl LogicalBlock {
    /// The mathematical shadow of this configured block.
    pub open spec fn cfg(self) -> BlockCfg {
        BlockCfg {
            name: self.name@,
            id: self.id@,
            bank_a: self.destination.bank_a.region(),
            bank_b: self.destination.bank_b.region(),
        }
    }

    /// The region of this block in the targeted bank.
    fn get_location_from_bank(&self, targeted_bank: &str) -> (r: Result<
        LogicalBlockDestination,
        UpdateError,
    >)
        requires
            targeted_bank@ == "bank_a"@ || targeted_bank@ == "bank_b"@,
        ensures
            r matches Ok(d) && d.region() == spec_bank_region(self.cfg(), targeted_bank@),
    {
        if str_equal(targeted_bank, "bank_a") {
            Ok(self.destination.bank_a.clone())
        } else {
            Ok(self.destination.bank_b.clone())
        }
    }
}

/// The parsed memory-map document: the configured logical blocks in order.
#[derive(Debug)]
pub struct LogicalBlockCfg {
    pub logical_blocks: Vec<LogicalBlock>,
}

impl LogicalBlockCfg {
    /// The mathematical shadow of the whole configuration.
    pub open spec fn cfg(self) -> Seq<BlockCfg> {
        self.logical_blocks@.map_values(|b: LogicalBlock| b.cfg())
    }
}

/// The projection of the targeted bank, built block by block; the first
/// duplicate id is fatal and is reported.
pub open spec fn spec_build_mapping(
    s: Seq<BlockCfg>,
    bank: Seq<char>,
    acc: Map<Seq<char>, Region>,
) -> Result<Map<Seq<char>, Region>, Seq<char>>
    decreases s.len(),
{
    if s.len() == 0 {
        Ok(acc)
    } else if acc.contains_key(s[0].id) {
        Err(s[0].id)
    } else {
        spec_build_mapping(s.drop_first(), bank, acc.insert(s[0].id, spec_bank_region(s[0], bank)))
    }
}

/// What loading the map document yields: the targeted bank's projection,
/// or the offending id (empty for a malformed document).
pub open spec fn spec_load_mapping(text: Seq<char>) -> Result<Map<Seq<char>, Region>, Seq<char>> {
    match crate::map_json::spec_parse_cfg(text) {
        None => Err(Seq::empty()),
        Some(blocks) => spec_build_mapping(blocks, "bank_a"@, Map::empty()),
    }
}

/// The targeted bank's projection of the configuration: an immutable
/// mapping from logical block id to destination region.
#[derive(Debug)]
pub struct MemoryMapping {
    logical_blocks: Vec<(String, LogicalBlockDestination)>,
}

impl MemoryMapping {
    /// Ids are unique: one region per logical block id.
    pub closed spec fn wf(self) -> bool {
        forall|i: int, j: int|
            0 <= i < j < self.logical_blocks@.len() ==> self.logical_blocks@[i].0@
                != self.logical_blocks@[j].0@
    }

    spec fn index_of(entries: Seq<(String, LogicalBlockDestination)>, id: Seq<char>) -> int {
        choose|i: int| 0 <= i < entries.len() && entries[i].0@ == id
    }

    /// The region of every logical block id the mapping defines.
    pub closed spec fn mapping(self) -> Map<Seq<char>, Region> {
        Map::new(
            |id: Seq<char>|
                exists|i: int|
                    0 <= i < self.logical_blocks@.len() && self.logical_blocks@[i].0@ == id,
            |id: Seq<char>| self.logical_blocks@[Self::index_of(self.logical_blocks@, id)].1.region(),
        )
    }

    proof fn lemma_mapping_at(self, i: int)
        requires
            self.wf(),
            0 <= i < self.logical_blocks@.len(),
        ensures
            self.mapping().contains_key(self.logical_blocks@[i].0@),
            self.mapping()[self.logical_blocks@[i].0@] == self.logical_blocks@[i].1.region(),
    {
        let id = self.logical_blocks@[i].0@;
        assert(exists|j: int|
            0 <= j < self.logical_blocks@.len() && self.logical_blocks@[j].0@ == id);
        let j = Self::index_of(self.logical_blocks@, id);
        if j < i {
            assert(self.logical_blocks@[j].0@ != self.logical_blocks@[i].0@);
        } else if j > i {
            assert(self.logical_blocks@[i].0@ != self.logical_blocks@[j].0@);
        }
    }

    /// The bank this update targets.
    fn get_target_bank() -> (r: String)
        ensures
            r@ == "bank_a"@,
    {
        String::from_str("bank_a")
    }

    /// Load a memory map from the text of the map document: parse it and
    /// project the targeted bank. A malformed document and a duplicate id
    /// are fatal at load time.
    pub fn from(mapping_json: &str) -> (r: Result<MemoryMapping, UpdateError>)
        ensures
            match (r, spec_load_mapping(mapping_json@)) {
                (Ok(m), Ok(spec_m)) => m.wf() && m.mapping() == spec_m,
                (Err(e), Err(id)) => e.fault() == UpdateFault::BlockRead(id),
                _ => false,
            },
    {
        let lb_cfg = match crate::map_json::parse_cfg(mapping_json) {
            Some(cfg) => cfg,
            None => {
                return Err(UpdateError::LogicalBlockRead(LogicalBlockError::new(
                    String::new(),
                    "the memory map document is malformed",
                )));
            },
        };
        Self::from_cfg(&lb_cfg)
    }

    /// Project the targeted bank out of a parsed configuration. A duplicate
    /// id is fatal at load time.
    pub fn from_cfg(lb_cfg: &LogicalBlockCfg) -> (r: Result<MemoryMapping, UpdateError>)
        ensures
            match (r, spec_build_mapping(lb_cfg.cfg(), "bank_a"@, Map::empty())) {
                (Ok(m), Ok(spec_m)) => m.wf() && m.mapping() == spec_m,
                (Err(e), Err(id)) => e.fault() == UpdateFault::BlockRead(id),
                _ => false,
            },
    {
        let targeted_bank = Self::get_target_bank();
        let mut entries: Vec<(String, LogicalBlockDestination)> = Vec::new();
        let mut i: usize = 0;
        let ghost s = lb_cfg.cfg();
        proof {
            assert(s.skip(0) =~= s);
            assert((MemoryMapping { logical_blocks: entries }).mapping() =~= Map::<
                Seq<char>,
                Region,
            >::empty());
        }
        while i < lb_cfg.logical_blocks.len()
            invariant
                i <= lb_cfg.logical_blocks@.len(),
                s == lb_cfg.cfg(),
                targeted_bank@ == "bank_a"@,
                forall|a: int, b: int|
                    0 <= a < b < entries@.len() ==> entries@[a].0@ != entries@[b].0@,
                spec_build_mapping(s, "bank_a"@, Map::empty()) == spec_build_mapping(
                    s.skip(i as int),
                    "bank_a"@,
                    (MemoryMapping { logical_blocks: entries }).mapping(),
                ),
            decreases lb_cfg.logical_blocks@.len() - i,
        {
            let ghost before = MemoryMapping { logical_blocks: entries };
            let lb = &lb_cfg.logical_blocks[i];
            let id = lb.id.clone();
            let mut dup = false;
            let mut k: usize = 0;
            while k < entries.len()
                invariant
                    k <= entries@.len(),
                    id@ == lb_cfg.logical_blocks@[i as int].id@,
                    i < lb_cfg.logical_blocks@.len(),
                    dup == exists|t: int| 0 <= t < k && entries@[t].0@ == id@,
                decreases entries@.len() - k,
            {
                if entries[k].0 == id {
                    dup = true;
                }
                k = k + 1;
            }
            proof {
                assert(before.mapping().contains_key(id@) <==> exists|t: int|
                    0 <= t < entries@.len() && entries@[t].0@ == id@);
                assert(s.skip(i as int)[0] == s[i as int]);
                assert(s[i as int].id == id@);
            }
            if dup {
                return Err(UpdateError::LogicalBlockRead(LogicalBlockError::new(
                    id,
                    "duplicate logical block id in the memory map",
                )));
            }
            let location = match lb.get_location_from_bank(targeted_bank.as_str()) {
                Ok(d) => d,
                Err(e) => {
                    return Err(e);
                },
            };
            entries.push((id, location));
            i = i + 1;
            proof {
                let now = MemoryMapping { logical_blocks: entries };
                let n = before.logical_blocks@.len() as int;
                assert(now.logical_blocks@.len() == n + 1);
                assert(now.logical_blocks@[n].0@ == id@);
                assert(id@ == s[i - 1].id);
                assert forall|q: Seq<char>| true implies {
                    (now.mapping().contains_key(q) <==> before.mapping().insert(
                        s[i - 1].id,
                        spec_bank_region(s[i - 1], "bank_a"@),
                    ).contains_key(q))
                } by {
                    if exists|t: int| 0 <= t < n && before.logical_blocks@[t].0@ == q {
                        let t = choose|t: int|
                            0 <= t < n && before.logical_blocks@[t].0@ == q;
                        assert(now.logical_blocks@[t].0@ == q);
                    }
                    if exists|t: int|
                        0 <= t < now.logical_blocks@.len() && now.logical_blocks@[t].0@ == q {
                        let t = choose|t: int|
                            0 <= t < now.logical_blocks@.len() && now.logical_blocks@[t].0@ == q;
                        if t < n {
                            assert(before.logical_blocks@[t].0@ == q);
                        }
                    }
                }
                assert forall|q: Seq<char>| now.mapping().contains_key(q) implies now.mapping()[q]
                    == before.mapping().insert(
                    s[i - 1].id,
                    spec_bank_region(s[i - 1], "bank_a"@),
                )[q] by {
                    let t = Self::index_of(now.logical_blocks@, q);
                    now.lemma_mapping_at(t);
                    if q == s[i - 1].id {
                        if t < n {
                            assert(now.logical_blocks@[t].0@ != now.logical_blocks@[n].0@);
                        }
                        assert(t == n);
                    } else {
                        assert(t < n);
                        before.lemma_mapping_at(t);
                    }
                }
                assert(now.mapping() =~= before.mapping().insert(
                    s[i - 1].id,
                    spec_bank_region(s[i - 1], "bank_a"@),
                ));
                assert(s.skip(i - 1).drop_first() =~= s.skip(i as int));
            }
        }
        proof {
            assert(s.skip(i as int) =~= Seq::<BlockCfg>::empty());
            assert((MemoryMapping { logical_blocks: entries }).wf());
        }
        Ok(MemoryMapping { logical_blocks: entries })
    }

    /// The destination region of the block the manifest record names, or
    /// `MissingLogicalBlock` when the mapping does not define the id.
    pub fn get_logical_block_writer(&self, logical_block: &software_archive::LogicalBlock) -> (r:
        Result<LogicalBlockDestination, UpdateError>)
        requires
            self.wf(),
        ensures
            match r {
                Ok(d) => self.mapping().contains_key(logical_block.info().id) && d.region()
                    == self.mapping()[logical_block.info().id],
                Err(e) => !self.mapping().contains_key(logical_block.info().id) && e.fault()
                    == UpdateFault::MissingBlock(logical_block.info().id),
            },
    {
        let id = logical_block.get_id();
        match self.lookup(&id) {
            Some(d) => Ok(d),
            None => Err(UpdateError::MissingLogicalBlock(LogicalBlockError::new(
                id,
                "the memory map does not define this logical block id",
            ))),
        }
    }

    /// The destination region of the named id, or `MissingLogicalBlock`.
    pub fn get_logical_block_destination(&self, logical_block_id: &String) -> (r: Result<
        LogicalBlockDestination,
        UpdateError,
    >)
        requires
            self.wf(),
        ensures
            match r {
                Ok(d) => self.mapping().contains_key(logical_block_id@) && d.region()
                    == self.mapping()[logical_block_id@],
                Err(e) => !self.mapping().contains_key(logical_block_id@) && e.fault()
                    == UpdateFault::MissingBlock(logical_block_id@),
            },
    {
        match self.lookup(logical_block_id) {
            Some(d) => Ok(d),
            None => Err(UpdateError::MissingLogicalBlock(LogicalBlockError::new(
                logical_block_id.clone(),
                "the memory map does not define this logical block id",
            ))),
        }
    }

    fn lookup(&self, id: &String) -> (r: Option<LogicalBlockDestination>)
        requires
            self.wf(),
        ensures
            match r {
                Some(d) => self.mapping().contains_key(id@) && d.region() == self.mapping()[id@],
                None => !self.mapping().contains_key(id@),
            },
    {
        let mut i: usize = 0;
        while i < self.logical_blocks.len()
            invariant
                i <= self.logical_blocks@.len(),
                self.wf(),
                forall|j: int| 0 <= j < i ==> self.logical_blocks@[j].0@ != id@,
            decreases self.logical_blocks@.len() - i,
        {
            if self.logical_blocks[i].0 == *id {
                proof {
                    self.lemma_mapping_at(i as int);
                }
                return Some(self.logical_blocks[i].1.clone());
            }
            i = i + 1;
        }
        None
    }

    /// The ids the mapping defines, in configuration order.
    pub fn ids(&self) -> (r: Vec<String>)
        requires
            self.wf(),
        ensures
            forall|j: int| 0 <= j < r@.len() ==> self.mapping().contains_key(#[trigger] r@[j]@),
    {
        let mut r: Vec<String> = Vec::new();
        let mut i: usize = 0;
        while i < self.logical_blocks.len()
            invariant
                i <= self.logical_blocks@.len(),
                self.wf(),
                forall|j: int| 0 <= j < r@.len() ==> self.mapping().contains_key(#[trigger] r@[j]@),
            decreases self.logical_blocks@.len() - i,
        {
            proof {
                self.lemma_mapping_at(i as int);
            }
            r.push(self.logical_blocks[i].0.clone());
            i = i + 1;
        }
        r
    }
}

/// Copies one logical block's bytes from its archive reader to its
/// destination region, in 4096-byte chunks.
pub struct LogicalBlockWriter {
    logical_block_destination: LogicalBlockDestination,
    logical_block_reader: LogicalBlockReader,
}

impl LogicalBlockWriter {
    /// The reader is sound and the destination window is addressable.
    pub closed spec fn wf(self) -> bool {
        &&& self.logical_block_reader.wf()
        &&& (self.logical_block_reader.remaining().len() == 0 || self.dest().offset
            + self.logical_block_reader.remaining().len() <= usize::MAX)
    }

    /// The region the block is written into.
    pub closed spec fn dest(self) -> Region {
        self.logical_block_destination.region()
    }

    /// The bytes still to be copied.
    pub closed spec fn source(self) -> Seq<u8> {
        self.logical_block_reader.remaining()
    }

    /// The manifest record of the block being written.
    pub closed spec fn info(self) -> BlockInfo {
        self.logical_block_reader.info()
    }

    /// Pair a source reader with its destination region, after the checks
    /// that opening the destination performs: the destination file must
    /// exist, and the window must stay addressable.
    pub fn from(
        logical_block_reader: LogicalBlockReader,
        logical_block_destination: LogicalBlockDestination,
        device: &Device,
    ) -> (r: Result<LogicalBlockWriter, UpdateError>)
        requires
            device.wf(),
            logical_block_reader.wf(),
        ensures
            ({
                let ok_cond = device.contents().contains_key(logical_block_destination.region().path)
                    && (logical_block_reader.remaining().len() == 0
                    || logical_block_destination.region().offset
                        + logical_block_reader.remaining().len() <= usize::MAX);
                match r {
                    Ok(w) => {
                        &&& ok_cond
                        &&& w.wf()
                        &&& w.dest() == logical_block_destination.region()
                        &&& w.source() == logical_block_reader.remaining()
                        &&& w.info() == logical_block_reader.info()
                    },
                    Err(e) => !ok_cond && e.fault() == UpdateFault::BlockWrite(
                        logical_block_reader.info().id,
                    ),
                }
            }),
    {
        if !device.has_file(logical_block_destination.path_string()) {
            return Err(UpdateError::LogicalBlockWrite(LogicalBlockError::new(
                logical_block_reader.get_logical_block_id(),
                "cannot open the destination file",
            )));
        }
        let len = logical_block_reader.remaining_len();
        let offset = logical_block_destination.get_offset();
        if len > 0 {
            if offset > usize::MAX as u64 || len > usize::MAX - (offset as usize) {
                return Err(UpdateError::LogicalBlockWrite(LogicalBlockError::new(
                    logical_block_reader.get_logical_block_id(),
                    "the destination window exceeds the addressable range",
                )));
            }
        }
        Ok(LogicalBlockWriter { logical_block_destination, logical_block_reader })
    }

    /// The declared size of the destination region.
    pub fn get_size(&self) -> (r: usize)
        ensures
            r as int == self.dest().size,
    {
        self.logical_block_destination.get_size()
    }

    /// The destination region.
    pub fn get_destination(&self) -> (r: LogicalBlockDestination)
        ensures
            r.region() == self.dest(),
    {
        self.logical_block_destination.clone()
    }

    /// Copy the whole source to the destination region and say how many
    /// bytes landed there.
    pub fn write(&mut self, device: &mut Device) -> (r: Result<usize, UpdateError>)
        requires
            old(self).wf(),
            old(device).wf(),
            old(device).contents().contains_key(old(self).dest().path),
        ensures
            final(device).wf(),
            final(self).dest() == old(self).dest(),
            final(self).info() == old(self).info(),
            r is Ok,
            r matches Ok(n) ==> {
                &&& n == old(self).source().len()
                &&& final(device).contents() == spec_write(
                    old(device).contents(),
                    old(self).dest().path,
                    old(self).dest().offset,
                    old(self).source(),
                )
            },
    {
        self.recursive_copy_to_file(device)
    }

    fn recursive_copy_to_file(&mut self, device: &mut Device) -> (r: Result<usize, UpdateError>)
        requires
            old(self).wf(),
            old(device).wf(),
            old(device).contents().contains_key(old(self).dest().path),
        ensures
            final(device).wf(),
            final(self).dest() == old(self).dest(),
            final(self).info() == old(self).info(),
            r is Ok,
            r matches Ok(n) ==> {
                &&& n == old(self).source().len()
                &&& final(device).contents() == spec_write(
                    old(device).contents(),
                    old(self).dest().path,
                    old(self).dest().offset,
                    old(self).source(),
                )
            },
    {
        let ghost dev0 = old(device).contents();
        let ghost src = old(self).source();
        let ghost dest = old(self).dest();
        let ghost info0 = old(self).info();
        let mut total_copied_bytes: usize = 0;
        let mut done = false;
        proof {
            crate::device::lemma_write_empty(dev0, dest.path, dest.offset);
            assert(src.take(0) =~= Seq::<u8>::empty());
        }
        while !done
            invariant
                self.wf(),
                device.wf(),
                dest == self.dest(),
                info0 == self.info(),
                src == old(self).source(),
                dev0 == old(device).contents(),
                total_copied_bytes <= src.len(),
                self.source() == src.skip(total_copied_bytes as int),
                device.contents() == spec_write(
                    dev0,
                    dest.path,
                    dest.offset,
                    src.take(total_copied_bytes as int),
                ),
                device.contents().contains_key(dest.path),
                done ==> self.source().len() == 0,
                src.len() == 0 || dest.offset + src.len() <= usize::MAX,
            decreases self.source().len(), (if done {
                0int
            } else {
                1int
            }),
        {
            let ghost prev = device.contents();
            let ghost src_now = self.source();
            let copied_bytes_count = match self.copy_chunk(device, total_copied_bytes) {
                Ok(n) => n,
                Err(e) => {
                    return Err(e);
                },
            };
            if copied_bytes_count == 0 {
                proof {
                    assert(src_now.take(0) =~= Seq::<u8>::empty());
                    crate::device::lemma_write_empty(prev, dest.path, dest.offset
                        + total_copied_bytes);
                }
                done = true;
            } else {
                proof {
                    let chunk = src_now.take(
                        vstd::math::min(4096, src_now.len() as int),
                    );
                    assert(chunk == src.subrange(
                        total_copied_bytes as int,
                        total_copied_bytes + chunk.len(),
                    )) by {
                        assert(chunk =~= src.subrange(
                            total_copied_bytes as int,
                            total_copied_bytes + chunk.len(),
                        ));
                    }
                    crate::device::lemma_write_compose(
                        dev0,
                        dest.path,
                        dest.offset,
                        src.take(total_copied_bytes as int),
                        chunk,
                    );
                    assert(src.take(total_copied_bytes as int) + chunk =~= src.take(
                        total_copied_bytes + chunk.len(),
                    ));
                    assert(src.skip(total_copied_bytes as int).skip(chunk.len() as int)
                        =~= src.skip(total_copied_bytes + chunk.len()));
                }
                total_copied_bytes = total_copied_bytes + copied_bytes_count;
            }
        }
        proof {
            assert(src.take(total_copied_bytes as int) =~= src);
        }
        Ok(total_copied_bytes)
    }

    fn copy_chunk(&mut self, device: &mut Device, written: usize) -> (r: Result<
        usize,
        UpdateError,
    >)
        requires
            old(self).wf(),
            old(device).wf(),
            old(device).contents().contains_key(old(self).dest().path),
            old(self).source().len() == 0 || old(self).dest().offset + written + old(
                self,
            ).source().len() <= usize::MAX,
        ensures
            final(device).wf(),
            final(self).wf(),
            final(self).dest() == old(self).dest(),
            final(self).info() == old(self).info(),
            final(device).contents().contains_key(old(self).dest().path),
            r is Ok,
            r matches Ok(n) ==> ({
                let chunk = old(self).source().take(
                    vstd::math::min(4096, old(self).source().len() as int),
                );
                &&& n == chunk.len()
                &&& final(self).source() == old(self).source().skip(n as int)
                &&& final(device).contents() == spec_write(
                    old(device).contents(),
                    old(self).dest().path,
                    old(self).dest().offset + written,
                    chunk,
                )
            }),
    {
        let chunk = match self.read_chunk_from_logical_block() {
            Ok(c) => c,
            Err(e) => {
                return Err(e);
            },
        };
        let written_bytes = match self.write_chunk_to_destination(device, written, &chunk) {
            Ok(n) => n,
            Err(e) => {
                return Err(e);
            },
        };
        if written_bytes == chunk.len() {
            Ok(written_bytes)
        } else {
            Err(UpdateError::LogicalBlockWrite(LogicalBlockError::new(
                self.logical_block_reader.get_logical_block_id(),
                "a chunk landed short on the destination",
            )))
        }
    }

    fn read_chunk_from_logical_block(&mut self) -> (r: Result<Vec<u8>, UpdateError>)
        requires
            old(self).wf(),
        ensures
            final(self).wf(),
            final(self).dest() == old(self).dest(),
            final(self).info() == old(self).info(),
            r is Ok,
            r matches Ok(chunk) ==> {
                &&& chunk@.len() == vstd::math::min(4096, old(self).source().len() as int)
                &&& chunk@ == old(self).source().take(chunk@.len() as int)
                &&& final(self).source() == old(self).source().skip(chunk@.len() as int)
            },
    {
        Ok(self.logical_block_reader.read_chunk(4096))
    }

    fn write_chunk_to_destination(&self, device: &mut Device, written: usize, chunk: &Vec<u8>) -> (r:
        Result<usize, UpdateError>)
        requires
            old(device).wf(),
            old(device).contents().contains_key(self.dest().path),
            chunk@.len() == 0 || self.dest().offset + written + chunk@.len() <= usize::MAX,
        ensures
            final(device).wf(),
            r is Ok,
            r matches Ok(n) ==> {
                &&& n == chunk@.len()
                &&& final(device).contents() == spec_write(
                    old(device).contents(),
                    self.dest().path,
                    self.dest().offset + written,
                    chunk@,
                )
            },
    {
        if chunk.len() == 0 {
            proof {
                crate::device::lemma_write_empty(
                    old(device).contents(),
                    self.dest().path,
                    self.dest().offset + written,
                );
                assert(chunk@ =~= Seq::<u8>::empty());
            }
            return Ok(0);
        }
        let offset = self.logical_block_destination.get_offset();
        let target = offset + written as u64;
        let ok = device.write_at(
            self.logical_block_destination.path_string(),
            target,
            chunk.as_slice(),
        );
        if ok {
            Ok(chunk.len())
        } else {
            Err(UpdateError::LogicalBlockWrite(LogicalBlockError::new(
                self.logical_block_reader.get_logical_block_id(),
                "cannot write the chunk to the destination",
            )))
        }
    }
}

} // verus!
