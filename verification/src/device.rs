//! An in-memory model of the destination storage: the byte contents of the
//! destination files, keyed by path. Blocks are written into regions of
//! these files and verified by reading the same regions back.

use vstd::prelude::*;

verus! {

/// One destination file: its path and its current byte contents.
pub struct DeviceFile {
    pub path: String,
    pub bytes: Vec<u8>,
}

/// The destination storage an update writes into. Writes may extend a file
/// (sparse extension fills the gap with zeroes) but never shorten one.
pub struct Device {
    pub files: Vec<DeviceFile>,
}

/// What reading `size` bytes at `offset` of `path` yields: the window of the
/// file's bytes, or nothing when the file is absent or too short.
pub open spec fn spec_read(
    m: Map<Seq<char>, Seq<u8>>,
    p: Seq<char>,
    offset: int,
    size: int,
) -> Option<Seq<u8>> {
    if m.contains_key(p) && offset + size <= m[p].len() {
        Some(m[p].subrange(offset, offset + size))
    } else {
        None
    }
}

/// A file after `data` is written at `offset`: the window holds `data`, bytes
/// outside it are kept, the file grows as needed and a gap is zero-filled.
/// Writing nothing leaves the file as it is.
pub open spec fn spec_write_file(file: Seq<u8>, offset: int, data: Seq<u8>) -> Seq<u8> {
    if data.len() == 0 {
        file
    } else {
        Seq::new(
            if offset + data.len() > file.len() {
                (offset + data.len()) as nat
            } else {
                file.len()
            },
            |i: int|
                if offset <= i < offset + data.len() {
                    data[i - offset]
                } else if i < file.len() {
                    file[i]
                } else {
                    0u8
                },
        )
    }
}

/// When a write is accepted: the file must already exist (destinations are
/// opened without creation) and the end of the window must fit in a `usize`.
pub open spec fn spec_can_write(
    m: Map<Seq<char>, Seq<u8>>,
    p: Seq<char>,
    offset: int,
    len: int,
) -> bool {
    m.contains_key(p) && (len == 0 || offset + len <= usize::MAX)
}

/// The storage after `data` is written at `offset` of `path`.
pub open spec fn spec_write(
    m: Map<Seq<char>, Seq<u8>>,
    p: Seq<char>,
    offset: int,
    data: Seq<u8>,
) -> Map<Seq<char>, Seq<u8>> {
    m.insert(p, spec_write_file(m[p], offset, data))
}

/// Writing nothing changes nothing.
pub proof fn lemma_write_empty(m: Map<Seq<char>, Seq<u8>>, p: Seq<char>, offset: int)
    requires
        m.contains_key(p),
    ensures
        spec_write(m, p, offset, Seq::<u8>::empty()) == m,
{
    assert(spec_write_file(m[p], offset, Seq::<u8>::empty()) == m[p]);
    assert(spec_write(m, p, offset, Seq::<u8>::empty()) =~= m);
}

/// Two adjacent writes are one write of the concatenation.
pub proof fn lemma_write_file_compose(f: Seq<u8>, offset: int, a: Seq<u8>, b: Seq<u8>)
    requires
        offset >= 0,
    ensures
        spec_write_file(spec_write_file(f, offset, a), offset + a.len(), b) == spec_write_file(
            f,
            offset,
            a + b,
        ),
{
    if a.len() == 0 {
        assert(a + b =~= b);
    } else if b.len() == 0 {
        assert(a + b =~= a);
    } else {
        let inner = spec_write_file(f, offset, a);
        let lhs = spec_write_file(inner, offset + a.len(), b);
        let rhs = spec_write_file(f, offset, a + b);
        assert(lhs.len() == rhs.len());
        assert forall|i: int| 0 <= i < lhs.len() implies lhs[i] == rhs[i] by {
            if offset <= i < offset + a.len() {
                assert(lhs[i] == inner[i]);
                assert(inner[i] == a[i - offset]);
                assert(rhs[i] == (a + b)[i - offset]);
            } else if offset + a.len() <= i < offset + a.len() + b.len() {
                assert(rhs[i] == (a + b)[i - offset]);
            }
        }
        assert(lhs =~= rhs);
    }
}

/// Two adjacent writes to the same file are one write of the concatenation.
pub proof fn lemma_write_compose(
    m: Map<Seq<char>, Seq<u8>>,
    p: Seq<char>,
    offset: int,
    a: Seq<u8>,
    b: Seq<u8>,
)
    requires
        offset >= 0,
    ensures
        spec_write(spec_write(m, p, offset, a), p, offset + a.len(), b) == spec_write(
            m,
            p,
            offset,
            a + b,
        ),
{
    lemma_write_file_compose(m[p], offset, a, b);
    assert(spec_write(spec_write(m, p, offset, a), p, offset + a.len(), b) =~= spec_write(
        m,
        p,
        offset,
        a + b,
    ));
}

/// After a write, the written window holds exactly the data.
pub proof fn lemma_write_file_window(f: Seq<u8>, offset: int, data: Seq<u8>)
    requires
        offset >= 0,
        data.len() > 0,
    ensures
        spec_write_file(f, offset, data).subrange(offset, offset + data.len()) == data,
{
    let w = spec_write_file(f, offset, data);
    assert(w.len() >= offset + data.len());
    assert forall|k: int| 0 <= k < data.len() implies w.subrange(offset, offset + data.len())[k]
        == data[k] by {
        assert(w[offset + k] == data[k]);
    }
    assert(w.subrange(offset, offset + data.len()) =~= data);
}

/// A write leaves every byte outside its window as it was, and never
/// shortens the file.
pub proof fn lemma_write_file_outside(f: Seq<u8>, offset: int, data: Seq<u8>)
    requires
        offset >= 0,
    ensures
        spec_write_file(f, offset, data).len() >= f.len(),
        forall|i: int|
            0 <= i < f.len() && !(offset <= i < offset + data.len())
                ==> spec_write_file(f, offset, data)[i] == f[i],
{
}

/// Writing bytes that are already there changes nothing.
pub proof fn lemma_write_noop(m: Map<Seq<char>, Seq<u8>>, p: Seq<char>, offset: int, data: Seq<u8>)
    requires
        m.contains_key(p),
        0 <= offset,
        offset + data.len() <= m[p].len(),
        m[p].subrange(offset, offset + data.len()) == data,
    ensures
        spec_write(m, p, offset, data) == m,
{
    if data.len() == 0 {
        lemma_write_empty(m, p, offset);
    } else {
        let f = m[p];
        let w = spec_write_file(f, offset, data);
        assert forall|i: int| 0 <= i < w.len() implies w[i] == f[i] by {
            if offset <= i < offset + data.len() {
                assert(data[i - offset] == f.subrange(offset, offset + data.len())[i - offset]);
            }
        }
        assert(w =~= f);
        assert(spec_write(m, p, offset, data) =~= m);
    }
}

impl Device {
    /// Paths are unique: one entry per destination file.
    pub open spec fn wf(self) -> bool {
        forall|i: int, j: int|
            0 <= i < j < self.files@.len() ==> self.files@[i].path@ != self.files@[j].path@
    }

    /// The index of the file with path `p`.
    pub open spec fn index_of(files: Seq<DeviceFile>, p: Seq<char>) -> int {
        choose|i: int| 0 <= i < files.len() && files[i].path@ == p
    }

    /// The byte contents of every file, keyed by path.
    pub open spec fn contents(self) -> Map<Seq<char>, Seq<u8>> {
        Map::new(
            |p: Seq<char>|
                exists|i: int| 0 <= i < self.files@.len() && self.files@[i].path@ == p,
            |p: Seq<char>| self.files@[Self::index_of(self.files@, p)].bytes@,
        )
    }

    proof fn lemma_contents_at(self, i: int)
        requires
            self.wf(),
            0 <= i < self.files@.len(),
        ensures
            self.contents().contains_key(self.files@[i].path@),
            self.contents()[self.files@[i].path@] == self.files@[i].bytes@,
    {
        let p = self.files@[i].path@;
        assert(exists|j: int| 0 <= j < self.files@.len() && self.files@[j].path@ == p);
        let j = Self::index_of(self.files@, p);
        if j < i {
            assert(self.files@[j].path@ != self.files@[i].path@);
        } else if j > i {
            assert(self.files@[i].path@ != self.files@[j].path@);
        }
    }

    /// An empty storage.
    pub fn new() -> (d: Device)
        ensures
            d.wf(),
            d.contents() == Map::<Seq<char>, Seq<u8>>::empty(),
    {
        let d = Device { files: Vec::new() };
        proof {
            assert(d.contents() =~= Map::<Seq<char>, Seq<u8>>::empty());
        }
        d
    }

    fn find(&self, path: &String) -> (r: Option<usize>)
        requires
            self.wf(),
        ensures
            match r {
                Some(i) => i < self.files@.len() && self.files@[i as int].path@ == path@,
                None => !self.contents().contains_key(path@),
            },
    {
        let mut i: usize = 0;
        while i < self.files.len()
            invariant
                i <= self.files@.len(),
                forall|j: int| 0 <= j < i ==> self.files@[j].path@ != path@,
            decreases self.files@.len() - i,
        {
            if self.files[i].path == *path {
                return Some(i);
            }
            i = i + 1;
        }
        None
    }

    /// Whether the storage holds a file at `path`.
    pub fn has_file(&self, path: &String) -> (r: bool)
        requires
            self.wf(),
        ensures
            r == self.contents().contains_key(path@),
    {
        let r = self.find(path);
        match r {
            Some(i) => {
                proof {
                    self.lemma_contents_at(i as int);
                }
                true
            },
            None => false,
        }
    }

    /// Add a fresh file; refused when the path is already present.
    pub fn add_file(&mut self, path: String, bytes: Vec<u8>) -> (r: bool)
        requires
            old(self).wf(),
        ensures
            final(self).wf(),
            r == !old(self).contents().contains_key(path@),
            r ==> final(self).contents() == old(self).contents().insert(path@, bytes@),
            !r ==> final(self).contents() == old(self).contents(),
    {
        match self.find(&path) {
            Some(i) => {
                proof {
                    self.lemma_contents_at(i as int);
                }
                false
            },
            None => {
                let ghost before = *self;
                self.files.push(DeviceFile { path, bytes });
                proof {
                    let n = before.files@.len() as int;
                    assert forall|q: Seq<char>| true implies {
                        (self.contents().contains_key(q) <==> before.contents().insert(
                            self.files@[n].path@,
                            self.files@[n].bytes@,
                        ).contains_key(q))
                    } by {
                        if exists|i: int|
                            0 <= i < before.files@.len() && before.files@[i].path@ == q {
                            let i = choose|i: int|
                                0 <= i < before.files@.len() && before.files@[i].path@ == q;
                            assert(self.files@[i].path@ == q);
                        }
                        if exists|i: int| 0 <= i < self.files@.len() && self.files@[i].path@ == q {
                            let i = choose|i: int|
                                0 <= i < self.files@.len() && self.files@[i].path@ == q;
                            if i < n {
                                assert(before.files@[i].path@ == q);
                            }
                        }
                    }
                    assert forall|q: Seq<char>| self.contents().contains_key(q) implies
                        self.contents()[q] == before.contents().insert(
                            self.files@[n].path@,
                            self.files@[n].bytes@,
                        )[q] by {
                        let i = Self::index_of(self.files@, q);
                        self.lemma_contents_at(i);
                        if q == self.files@[n].path@ {
                            if i < n {
                                assert(self.files@[i].path@ != self.files@[n].path@);
                            }
                            assert(i == n);
                        } else {
                            assert(i < n);
                            before.lemma_contents_at(i);
                        }
                    }
                    assert(self.contents() =~= before.contents().insert(
                        self.files@[n].path@,
                        self.files@[n].bytes@,
                    ));
                }
                true
            },
        }
    }

    /// Read `size` bytes at `offset` of `path`; nothing when the file is
    /// absent or the window runs past its end.
    pub fn read_at(&self, path: &String, offset: u64, size: usize) -> (r: Option<Vec<u8>>)
        requires
            self.wf(),
        ensures
            r is Some <==> spec_read(self.contents(), path@, offset as int, size as int)
                is Some,
            r matches Some(v) ==> Some(v@) == spec_read(
                self.contents(),
                path@,
                offset as int,
                size as int,
            ),
            r is Some ==> offset as int + size as int <= usize::MAX,
    {
        let i = match self.find(path) {
            None => {
                return None;
            },
            Some(i) => i,
        };
        proof {
            self.lemma_contents_at(i as int);
        }
        let len = self.files[i].bytes.len();
        if offset > len as u64 {
            return None;
        }
        let off = offset as usize;
        if size > len - off {
            return None;
        }
        let mut out: Vec<u8> = Vec::new();
        let mut k: usize = 0;
        while k < size
            invariant
                k <= size,
                i < self.files@.len(),
                off + size <= len,
                len == self.files@[i as int].bytes@.len(),
                out@ == self.files@[i as int].bytes@.subrange(off as int, off + k),
            decreases size - k,
        {
            out.push(self.files[i].bytes[off + k]);
            k = k + 1;
            proof {
                assert(out@ =~= self.files@[i as int].bytes@.subrange(off as int, off + k));
            }
        }
        Some(out)
    }

    /// Write `data` at `offset` of `path`; refused when the file is absent or
    /// the end of the window does not fit in a `usize`. On refusal nothing
    /// changes.
    pub fn write_at(&mut self, path: &String, offset: u64, data: &[u8]) -> (r: bool)
        requires
            old(self).wf(),
        ensures
            final(self).wf(),
            r == spec_can_write(old(self).contents(), path@, offset as int, data@.len() as int),
            r ==> final(self).contents() == spec_write(
                old(self).contents(),
                path@,
                offset as int,
                data@,
            ),
            !r ==> final(self).contents() == old(self).contents(),
    {
        let i = match self.find(path) {
            None => {
                return false;
            },
            Some(i) => i,
        };
        proof {
            self.lemma_contents_at(i as int);
        }
        if data.len() == 0 {
            proof {
                assert(spec_write_file(old(self).contents()[path@], offset as int, data@)
                    == old(self).contents()[path@]);
                assert(spec_write(old(self).contents(), path@, offset as int, data@)
                    =~= old(self).contents());
            }
            return true;
        }
        if offset > usize::MAX as u64 {
            return false;
        }
        let off = offset as usize;
        if data.len() > usize::MAX - off {
            return false;
        }
        let end = off + data.len();
        let ghost before = *self;
        let ghost oldfile = self.files@[i as int].bytes@;
        let ghost target = spec_write_file(oldfile, off as int, data@);
        let cur = self.files[i].bytes.len();
        proof {
            assert(target.len() == if end > cur {
                end as int
            } else {
                cur as int
            });
        }
        let pre = if off < cur {
            off
        } else {
            cur
        };
        let mut nb: Vec<u8> = Vec::new();
        let mut k: usize = 0;
        while k < pre
            invariant
                k <= pre,
                pre <= off,
                pre <= cur,
                cur == oldfile.len(),
                oldfile == self.files@[i as int].bytes@,
                i < self.files@.len(),
                target == spec_write_file(oldfile, off as int, data@),
                data@.len() > 0,
                nb@ == target.subrange(0, k as int),
            decreases pre - k,
        {
            proof {
                assert(target[k as int] == oldfile[k as int]);
            }
            nb.push(self.files[i].bytes[k]);
            k = k + 1;
            proof {
                assert(nb@ =~= target.subrange(0, k as int));
            }
        }
        while nb.len() < off
            invariant
                pre <= nb@.len() <= off,
                pre == if off < cur {
                    off as int
                } else {
                    cur as int
                },
                cur == oldfile.len(),
                target == spec_write_file(oldfile, off as int, data@),
                data@.len() > 0,
                nb@ == target.subrange(0, nb@.len() as int),
            decreases off - nb@.len(),
        {
            proof {
                assert(pre < off);
                assert(target[nb@.len() as int] == 0u8);
            }
            nb.push(0u8);
            proof {
                assert(nb@ =~= target.subrange(0, nb@.len() as int));
            }
        }
        let mut k: usize = 0;
        while k < data.len()
            invariant
                k <= data@.len(),
                nb@.len() == off + k,
                off + data@.len() <= usize::MAX,
                target == spec_write_file(oldfile, off as int, data@),
                data@.len() > 0,
                nb@ == target.subrange(0, nb@.len() as int),
            decreases data@.len() - k,
        {
            proof {
                assert(target[(off + k) as int] == data@[k as int]);
            }
            nb.push(data[k]);
            k = k + 1;
            proof {
                assert(nb@ =~= target.subrange(0, nb@.len() as int));
            }
        }
        if end < cur {
            let mut k: usize = end;
            while k < cur
                invariant
                    end <= k <= cur,
                    cur == oldfile.len(),
                    oldfile == self.files@[i as int].bytes@,
                    i < self.files@.len(),
                    nb@.len() == k,
                    off + data@.len() == end,
                    target == spec_write_file(oldfile, off as int, data@),
                    data@.len() > 0,
                    nb@ == target.subrange(0, nb@.len() as int),
                decreases cur - k,
            {
                proof {
                    assert(target[k as int] == oldfile[k as int]);
                }
                nb.push(self.files[i].bytes[k]);
                k = k + 1;
                proof {
                    assert(nb@ =~= target.subrange(0, nb@.len() as int));
                }
            }
        }
        proof {
            assert(nb@.len() == target.len());
            assert(nb@ =~= target);
        }
        let fref = &mut self.files[i];
        fref.bytes = nb;
        proof {
            let p = path@;
            assert(self.files@.len() == before.files@.len());
            assert forall|j: int| 0 <= j < self.files@.len() implies self.files@[j].path@
                == before.files@[j].path@ by {}
            assert(self.wf());
            assert forall|q: Seq<char>| true implies {
                (self.contents().contains_key(q) <==> spec_write(
                    before.contents(),
                    p,
                    offset as int,
                    data@,
                ).contains_key(q))
            } by {
                if exists|j: int| 0 <= j < before.files@.len() && before.files@[j].path@ == q {
                    let j = choose|j: int|
                        0 <= j < before.files@.len() && before.files@[j].path@ == q;
                    assert(self.files@[j].path@ == q);
                }
                if exists|j: int| 0 <= j < self.files@.len() && self.files@[j].path@ == q {
                    let j = choose|j: int|
                        0 <= j < self.files@.len() && self.files@[j].path@ == q;
                    assert(before.files@[j].path@ == q);
                }
                before.lemma_contents_at(i as int);
            }
            assert forall|q: Seq<char>| self.contents().contains_key(q) implies self.contents()[q]
                == spec_write(before.contents(), p, offset as int, data@)[q] by {
                let j = Self::index_of(self.files@, q);
                self.lemma_contents_at(j);
                before.lemma_contents_at(i as int);
                if q == p {
                    if j < i as int {
                        assert(self.files@[j].path@ != self.files@[i as int].path@);
                    } else if j > i as int {
                        assert(self.files@[i as int].path@ != self.files@[j].path@);
                    }
                    assert(j == i as int);
                } else {
                    assert(j != i as int);
                    before.lemma_contents_at(j);
                }
            }
            assert(self.contents() =~= spec_write(before.contents(), p, offset as int, data@));
        }
        true
    }
}

} // verus!
