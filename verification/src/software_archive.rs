//! The update archive: a zip whose `index.xml` maps short names to entry
//! paths, and whose manifest (found through the index) lists the logical
//! blocks with their ids and signatures.

use vstd::prelude::*;
use crate::reporting::LogicalBlockError;
use crate::reporting::UpdateError;
use crate::reporting::UpdateFault;
use crate::text::str_equal;
use crate::text::str_to_chars;
use crate::text::string_from_utf8;
use crate::xml::DocModel;
use crate::xml::LeafModel;
use crate::xml::NodeModel;
use crate::xml::XmlDoc;
use crate::xml::XmlLeaf;
use crate::xml::attrs_model;
use crate::xml::parse_doc;
use crate::xml::spec_parse_doc;

verus! {

/// What the named zip entry decompresses to, when the archive holds it.
pub uninterp spec fn zip_entry(archive: Seq<u8>, name: Seq<char>) -> Option<Seq<u8>>;

/// Relies on `zip::ZipArchive::new`, `ZipArchive::by_name` and
/// `std::io::Read::read_to_end` over an in-memory cursor: the decompressed
/// bytes of the named entry, a function of the archive bytes and the name
/// alone.
#[verifier::external_body]
fn read_zip_entry(archive: &Vec<u8>, name: &str) -> (r: Option<Vec<u8>>)
    ensures
        r is Some <==> zip_entry(archive@, name@) is Some,
        r matches Some(v) ==> Some(v@) == zip_entry(archive@, name@),
{
    let cursor = std::io::Cursor::new(archive.as_slice());
    let mut za = zip::ZipArchive::new(cursor).ok()?;
    let mut file = za.by_name(name).ok()?;
    let mut out = Vec::new();
    std::io::Read::read_to_end(&mut file, &mut out).ok()?;
    Some(out)
}

/// The text of the named archive entry, when it exists and is valid UTF-8.
pub open spec fn spec_file_text(archive: Seq<u8>, name: Seq<char>) -> Option<Seq<char>> {
    match zip_entry(archive, name) {
        None => None,
        Some(b) => if vstd::utf8::valid_utf8(b) {
            Some(vstd::utf8::decode_utf8(b))
        } else {
            None
        },
    }
}

/// The value of the first attribute with the given name.
pub open spec fn spec_attr(attrs: Seq<(Seq<char>, Seq<char>)>, name: Seq<char>) -> Option<
    Seq<char>,
>
    decreases attrs.len(),
{
    if attrs.len() == 0 {
        None
    } else if attrs[0].0 == name {
        Some(attrs[0].1)
    } else {
        spec_attr(attrs.drop_first(), name)
    }
}

/// The effective namespace of an element: its own `xmlns` attribute, or
/// the one it inherits.
pub open spec fn spec_eff_ns(
    attrs: Seq<(Seq<char>, Seq<char>)>,
    inherited: Option<Seq<char>>,
) -> Option<Seq<char>> {
    match spec_attr(attrs, "xmlns"@) {
        Some(v) => Some(v),
        None => inherited,
    }
}

/// The text of the first child with the given name in the given effective
/// namespace.
pub open spec fn spec_leaf_text(
    children: Seq<LeafModel>,
    name: Seq<char>,
    ns: Seq<char>,
    inherited: Option<Seq<char>>,
) -> Option<Seq<char>>
    decreases children.len(),
{
    if children.len() == 0 {
        None
    } else if children[0].name == name && spec_eff_ns(children[0].attrs, inherited) == Some(ns) {
        Some(children[0].text)
    } else {
        spec_leaf_text(children.drop_first(), name, ns, inherited)
    }
}

/// The index entries: for each child of the root, in order, its
/// `short_name` attribute and the text of its `path` child in namespace
/// `file_list`. A child missing either is fatal.
pub open spec fn spec_index_entries(
    nodes: Seq<NodeModel>,
    root_ns: Option<Seq<char>>,
) -> Option<Seq<(Seq<char>, Seq<char>)>>
    decreases nodes.len(),
{
    if nodes.len() == 0 {
        Some(Seq::empty())
    } else {
        let node = nodes[0];
        match (
            spec_attr(node.attrs, "short_name"@),
            spec_leaf_text(
                node.children,
                "path"@,
                "file_list"@,
                spec_eff_ns(node.attrs, root_ns),
            ),
        ) {
            (Some(short), Some(path)) => match spec_index_entries(nodes.drop_first(), root_ns) {
                None => None,
                Some(rest) => Some(seq![(short, path)] + rest),
            },
            _ => None,
        }
    }
}

/// The index of a parsed document.
pub open spec fn spec_index_of_doc(doc: DocModel) -> Option<Seq<(Seq<char>, Seq<char>)>> {
    spec_index_entries(doc.nodes, spec_attr(doc.attrs, "xmlns"@))
}

/// The manifest records: for each child of the root, in order, the texts
/// of its `id`, `short_name` and `signature` children in namespace
/// `logical_blocks`. A child missing any of them is fatal.
pub open spec fn spec_manifest_records(
    nodes: Seq<NodeModel>,
    root_ns: Option<Seq<char>>,
) -> Option<Seq<(Seq<char>, Seq<char>, Seq<char>)>>
    decreases nodes.len(),
{
    if nodes.len() == 0 {
        Some(Seq::empty())
    } else {
        let node = nodes[0];
        let inherited = spec_eff_ns(node.attrs, root_ns);
        match (
            spec_leaf_text(node.children, "id"@, "logical_blocks"@, inherited),
            spec_leaf_text(node.children, "short_name"@, "logical_blocks"@, inherited),
            spec_leaf_text(node.children, "signature"@, "logical_blocks"@, inherited),
        ) {
            (Some(id), Some(short), Some(sig)) => match spec_manifest_records(
                nodes.drop_first(),
                root_ns,
            ) {
                None => None,
                Some(rest) => Some(seq![(id, short, sig)] + rest),
            },
            _ => None,
        }
    }
}

/// The archive path of the first index entry with the given short name.
pub open spec fn spec_lookup(
    entries: Seq<(Seq<char>, Seq<char>)>,
    short: Seq<char>,
) -> Option<Seq<char>>
    decreases entries.len(),
{
    if entries.len() == 0 {
        None
    } else if entries[0].0 == short {
        Some(entries[0].1)
    } else {
        spec_lookup(entries.drop_first(), short)
    }
}

/// The manifest records joined with the index on the short name, in
/// manifest order. A record whose short name is absent from the index is
/// fatal.
pub open spec fn spec_join(
    records: Seq<(Seq<char>, Seq<char>, Seq<char>)>,
    entries: Seq<(Seq<char>, Seq<char>)>,
) -> Option<Seq<BlockInfo>>
    decreases records.len(),
{
    if records.len() == 0 {
        Some(Seq::empty())
    } else {
        match spec_lookup(entries, records[0].1) {
            None => None,
            Some(path) => match spec_join(records.drop_first(), entries) {
                None => None,
                Some(rest) => Some(
                    seq![
                        BlockInfo {
                            id: records[0].0,
                            name: records[0].1,
                            signature: records[0].2,
                            path_in_archive: path,
                        }
                    ] + rest,
                ),
            },
        }
    }
}

/// The whole resolution: read `index.xml`, locate the manifest through the
/// index entry named `update_manifest`, read and parse the manifest, and
/// join its records with the index.
pub open spec fn spec_archive_blocks(archive: Seq<u8>) -> Option<Seq<BlockInfo>> {
    match spec_file_text(archive, "index.xml"@) {
        None => None,
        Some(itext) => match spec_parse_doc(itext) {
            None => None,
            Some(idoc) => match spec_index_of_doc(idoc) {
                None => None,
                Some(entries) => match spec_lookup(entries, "update_manifest"@) {
                    None => None,
                    Some(mpath) => match spec_file_text(archive, mpath) {
                        None => None,
                        Some(mtext) => match spec_parse_doc(mtext) {
                            None => None,
                            Some(mdoc) => match spec_manifest_records(
                                mdoc.nodes,
                                spec_attr(mdoc.attrs, "xmlns"@),
                            ) {
                                None => None,
                                Some(records) => spec_join(records, entries),
                            },
                        },
                    },
                },
            },
        },
    }
}

/// The join keeps the manifest's order: the resolved records carry the
/// manifest's ids, short names and signatures position by position, with
/// each archive path resolved through the index.
pub proof fn lemma_join_preserves_manifest_order(
    records: Seq<(Seq<char>, Seq<char>, Seq<char>)>,
    entries: Seq<(Seq<char>, Seq<char>)>,
)
    requires
        spec_join(records, entries) is Some,
    ensures
        ({
            let r = spec_join(records, entries).unwrap();
            &&& r.len() == records.len()
            &&& forall|i: int|
                0 <= i < records.len() ==> (#[trigger] r[i]).id == records[i].0 && r[i].name
                    == records[i].1 && r[i].signature == records[i].2 && spec_lookup(
                    entries,
                    records[i].1,
                ) == Some(r[i].path_in_archive)
        }),
    decreases records.len(),
{
    if records.len() > 0 {
        lemma_join_preserves_manifest_order(records.drop_first(), entries);
        let r = spec_join(records, entries).unwrap();
        let rest = spec_join(records.drop_first(), entries).unwrap();
        assert forall|i: int| 0 <= i < records.len() implies (#[trigger] r[i]).id == records[i].0
            && r[i].name == records[i].1 && r[i].signature == records[i].2 && spec_lookup(
            entries,
            records[i].1,
        ) == Some(r[i].path_in_archive) by {
            if i > 0 {
                assert(r[i] == rest[i - 1]);
                assert(records.drop_first()[i - 1] == records[i]);
            }
        }
    }
}

/// The mathematical shadow of one manifest record.
pub struct BlockInfo {
    pub id: Seq<char>,
    pub name: Seq<char>,
    pub signature: Seq<char>,
    pub path_in_archive: Seq<char>,
}

/// One manifest record: a logical block's id, its short name, its base64
/// signature, and the archive entry holding its bytes.
#[derive(Debug)]
pub struct LogicalBlock {
    id: String,
    name: String,
    signature: String,
    path_in_archive: String,
}

impl LogicalBlock {
    /// The mathematical shadow of this record.
    pub closed spec fn info(self) -> BlockInfo {
        BlockInfo {
            id: self.id@,
            name: self.name@,
            signature: self.signature@,
            path_in_archive: self.path_in_archive@,
        }
    }

    pub(crate) fn new(id: String, name: String, signature: String, path_in_archive: String) -> (r:
        LogicalBlock)
        ensures
            r.info() == (BlockInfo {
                id: id@,
                name: name@,
                signature: signature@,
                path_in_archive: path_in_archive@,
            }),
    {
        LogicalBlock { id, name, signature, path_in_archive }
    }

    /// The block's id.
    pub fn get_id(&self) -> (r: String)
        ensures
            r@ == self.info().id,
    {
        self.id.clone()
    }

    /// The block's base64-encoded signature.
    pub fn get_signature(&self) -> (r: &String)
        ensures
            r@ == self.info().signature,
    {
        &self.signature
    }

    /// The block's entry path inside the archive.
    pub fn get_path_in_archive(&self) -> (r: &String)
        ensures
            r@ == self.info().path_in_archive,
    {
        &self.path_in_archive
    }

    /// The block's short name.
    pub fn get_short_name(&self) -> (r: &String)
        ensures
            r@ == self.info().name,
    {
        &self.name
    }
}

impl Clone for LogicalBlock {
    fn clone(&self) -> (r: Self)
        ensures
            r == *self,
    {
        LogicalBlock {
            id: self.id.clone(),
            name: self.name.clone(),
            signature: self.signature.clone(),
            path_in_archive: self.path_in_archive.clone(),
        }
    }
}

/// A once-through source of one logical block's bytes, handed out by the
/// archive. Two readers for the same entry are independent.
pub struct LogicalBlockReader {
    logical_block: LogicalBlock,
    bytes: Vec<u8>,
    pos: usize,
}

impl LogicalBlockReader {
    /// The read position never runs past the end.
    pub closed spec fn wf(self) -> bool {
        self.pos <= self.bytes@.len()
    }

    /// The bytes the reader has not yet delivered.
    pub closed spec fn remaining(self) -> Seq<u8> {
        self.bytes@.skip(self.pos as int)
    }

    /// The manifest record this reader delivers.
    pub closed spec fn info(self) -> BlockInfo {
        self.logical_block.info()
    }

    pub(crate) fn new(logical_block: LogicalBlock, bytes: Vec<u8>) -> (r: LogicalBlockReader)
        ensures
            r.wf(),
            r.info() == logical_block.info(),
            r.remaining() == bytes@,
    {
        let r = LogicalBlockReader { logical_block, bytes, pos: 0 };
        proof {
            assert(r.remaining() =~= r.bytes@);
        }
        r
    }

    /// Hand the reader over: the returned reader carries the remaining
    /// bytes, and this one is left exhausted.
    pub fn take(&mut self) -> (r: LogicalBlockReader)
        requires
            old(self).wf(),
        ensures
            r.wf(),
            r.info() == old(self).info(),
            r.remaining() == old(self).remaining(),
            final(self).wf(),
            final(self).info() == old(self).info(),
            final(self).remaining() == Seq::<u8>::empty(),
    {
        let record = self.logical_block.clone();
        let mut bytes: Vec<u8> = Vec::new();
        core::mem::swap(&mut bytes, &mut self.bytes);
        let pos = self.pos;
        self.pos = 0;
        let r = LogicalBlockReader { logical_block: record, bytes, pos };
        proof {
            assert(r.remaining() =~= old(self).remaining());
            assert(self.remaining() =~= Seq::<u8>::empty());
        }
        r
    }

    /// The manifest record this reader delivers.
    pub fn get_logical_block(&self) -> (r: &LogicalBlock)
        ensures
            r.info() == self.info(),
    {
        &self.logical_block
    }

    /// The id of the block this reader delivers.
    pub fn get_logical_block_id(&self) -> (r: String)
        ensures
            r@ == self.info().id,
    {
        self.logical_block.get_id()
    }

    /// How many bytes are still to come.
    pub fn remaining_len(&self) -> (r: usize)
        requires
            self.wf(),
        ensures
            r == self.remaining().len(),
    {
        self.bytes.len() - self.pos
    }

    /// Deliver the next chunk of at most `max` bytes; an empty chunk means
    /// the source is exhausted.
    pub fn read_chunk(&mut self, max: usize) -> (chunk: Vec<u8>)
        requires
            old(self).wf(),
        ensures
            final(self).wf(),
            final(self).info() == old(self).info(),
            chunk@.len() == vstd::math::min(max as int, old(self).remaining().len() as int),
            chunk@ == old(self).remaining().take(chunk@.len() as int),
            final(self).remaining() == old(self).remaining().skip(chunk@.len() as int),
    {
        let len = self.bytes.len();
        let available = len - self.pos;
        let n = if max < available {
            max
        } else {
            available
        };
        let mut chunk: Vec<u8> = Vec::new();
        let mut k: usize = 0;
        while k < n
            invariant
                k <= n,
                len == self.bytes@.len(),
                self.pos + n <= len,
                chunk@ == self.bytes@.subrange(self.pos as int, self.pos + k),
            decreases n - k,
        {
            chunk.push(self.bytes[self.pos + k]);
            k = k + 1;
            proof {
                assert(chunk@ =~= self.bytes@.subrange(self.pos as int, self.pos + k));
            }
        }
        let ghost before = *self;
        self.pos = self.pos + n;
        proof {
            assert(chunk@ =~= before.remaining().take(chunk@.len() as int));
            assert(self.remaining() =~= before.remaining().skip(chunk@.len() as int));
        }
        chunk
    }
}

/// The shadow of an `Option<String>`.
pub open spec fn opt_view(o: Option<String>) -> Option<Seq<char>> {
    match o {
        Some(s) => Some(s@),
        None => None,
    }
}

/// The shadow of a list of string triples.
pub open spec fn triples_model(v: Seq<(String, String, String)>) -> Seq<
    (Seq<char>, Seq<char>, Seq<char>),
> {
    v.map_values(|t: (String, String, String)| (t.0@, t.1@, t.2@))
}

fn attr_of(attrs: &Vec<(String, String)>, name: &str) -> (r: Option<String>)
    ensures
        opt_view(r) == spec_attr(attrs_model(attrs@), name@),
{
    let ghost model = attrs_model(attrs@);
    let mut k: usize = 0;
    proof {
        assert(model.skip(0) =~= model);
    }
    while k < attrs.len()
        invariant
            k <= attrs@.len(),
            model == attrs_model(attrs@),
            spec_attr(model, name@) == spec_attr(model.skip(k as int), name@),
        decreases attrs@.len() - k,
    {
        proof {
            assert(model.skip(k as int)[0] == model[k as int]);
        }
        if str_equal(attrs[k].0.as_str(), name) {
            return Some(attrs[k].1.clone());
        }
        k = k + 1;
        proof {
            assert(model.skip(k - 1).drop_first() =~= model.skip(k as int));
        }
    }
    proof {
        assert(model.skip(k as int) =~= Seq::<(Seq<char>, Seq<char>)>::empty());
    }
    None
}

fn eff_ns(attrs: &Vec<(String, String)>, inherited: &Option<String>) -> (r: Option<String>)
    ensures
        opt_view(r) == spec_eff_ns(attrs_model(attrs@), opt_view(*inherited)),
{
    match attr_of(attrs, "xmlns") {
        Some(v) => Some(v),
        None => match inherited {
            Some(s) => Some(s.clone()),
            None => None,
        },
    }
}

fn leaf_text(children: &Vec<XmlLeaf>, name: &str, ns: &str, inherited: &Option<String>) -> (r:
    Option<String>)
    ensures
        opt_view(r) == spec_leaf_text(
            children@.map_values(|l: XmlLeaf| l.model()),
            name@,
            ns@,
            opt_view(*inherited),
        ),
{
    let ghost model = children@.map_values(|l: XmlLeaf| l.model());
    let mut k: usize = 0;
    proof {
        assert(model.skip(0) =~= model);
    }
    while k < children.len()
        invariant
            k <= children@.len(),
            model == children@.map_values(|l: XmlLeaf| l.model()),
            spec_leaf_text(model, name@, ns@, opt_view(*inherited)) == spec_leaf_text(
                model.skip(k as int),
                name@,
                ns@,
                opt_view(*inherited),
            ),
        decreases children@.len() - k,
    {
        proof {
            assert(model.skip(k as int)[0] == model[k as int]);
        }
        let child = &children[k];
        if str_equal(child.name.as_str(), name) {
            let child_ns = eff_ns(&child.attrs, inherited);
            let ns_matches = match &child_ns {
                Some(v) => str_equal(v.as_str(), ns),
                None => false,
            };
            if ns_matches {
                return Some(child.text.clone());
            }
        }
        k = k + 1;
        proof {
            assert(model.skip(k - 1).drop_first() =~= model.skip(k as int));
        }
    }
    proof {
        assert(model.skip(k as int) =~= Seq::<LeafModel>::empty());
    }
    None
}

fn index_entries(doc: &XmlDoc) -> (r: Option<Vec<(String, String)>>)
    ensures
        match (r, spec_index_of_doc(doc.model())) {
            (Some(entries), Some(se)) => attrs_model(entries@) == se,
            (None, None) => true,
            _ => false,
        },
{
    let root_ns = attr_of(&doc.attrs, "xmlns");
    let ghost nodes_model = doc.model().nodes;
    let mut entries: Vec<(String, String)> = Vec::new();
    let mut k: usize = 0;
    proof {
        assert(nodes_model.skip(0) =~= nodes_model);
        assert(attrs_model(entries@) =~= Seq::<(Seq<char>, Seq<char>)>::empty());
    }
    while k < doc.nodes.len()
        invariant
            k <= doc.nodes@.len(),
            nodes_model == doc.model().nodes,
            opt_view(root_ns) == spec_attr(attrs_model(doc.attrs@), "xmlns"@),
            match spec_index_entries(nodes_model, opt_view(root_ns)) {
                None => spec_index_entries(nodes_model.skip(k as int), opt_view(root_ns))
                    is None,
                Some(all) => match spec_index_entries(
                    nodes_model.skip(k as int),
                    opt_view(root_ns),
                ) {
                    None => false,
                    Some(rest) => all == attrs_model(entries@) + rest,
                },
            },
        decreases doc.nodes@.len() - k,
    {
        proof {
            assert(nodes_model.skip(k as int)[0] == nodes_model[k as int]);
            assert(nodes_model[k as int] == doc.nodes@[k as int].model());
        }
        let node = &doc.nodes[k];
        let short = attr_of(&node.attrs, "short_name");
        let node_ns = eff_ns(&node.attrs, &root_ns);
        let path = leaf_text(&node.children, "path", "file_list", &node_ns);
        let (short, path) = match (short, path) {
            (Some(s), Some(p)) => (s, p),
            _ => {
                return None;
            },
        };
        let ghost before = entries@;
        entries.push((short, path));
        k = k + 1;
        proof {
            assert(nodes_model.skip(k - 1).drop_first() =~= nodes_model.skip(k as int));
            assert(attrs_model(entries@) =~= attrs_model(before) + seq![
                (entries@[entries@.len() - 1].0@, entries@[entries@.len() - 1].1@)
            ]);
            assert forall|rest: Seq<(Seq<char>, Seq<char>)>| true implies attrs_model(before)
                + (seq![(entries@[entries@.len() - 1].0@, entries@[entries@.len() - 1].1@)]
                + rest) =~= attrs_model(entries@) + rest by {}
        }
    }
    proof {
        assert(nodes_model.skip(k as int) =~= Seq::<NodeModel>::empty());
    }
    Some(entries)
}

fn manifest_records(doc: &XmlDoc) -> (r: Option<Vec<(String, String, String)>>)
    ensures
        match (r, spec_manifest_records(
            doc.model().nodes,
            spec_attr(attrs_model(doc.attrs@), "xmlns"@),
        )) {
            (Some(records), Some(sr)) => triples_model(records@) == sr,
            (None, None) => true,
            _ => false,
        },
{
    let root_ns = attr_of(&doc.attrs, "xmlns");
    let ghost nodes_model = doc.model().nodes;
    let mut records: Vec<(String, String, String)> = Vec::new();
    let mut k: usize = 0;
    proof {
        assert(nodes_model.skip(0) =~= nodes_model);
        assert(triples_model(records@) =~= Seq::<(Seq<char>, Seq<char>, Seq<char>)>::empty());
    }
    while k < doc.nodes.len()
        invariant
            k <= doc.nodes@.len(),
            nodes_model == doc.model().nodes,
            opt_view(root_ns) == spec_attr(attrs_model(doc.attrs@), "xmlns"@),
            match spec_manifest_records(nodes_model, opt_view(root_ns)) {
                None => spec_manifest_records(nodes_model.skip(k as int), opt_view(root_ns))
                    is None,
                Some(all) => match spec_manifest_records(
                    nodes_model.skip(k as int),
                    opt_view(root_ns),
                ) {
                    None => false,
                    Some(rest) => all == triples_model(records@) + rest,
                },
            },
        decreases doc.nodes@.len() - k,
    {
        proof {
            assert(nodes_model.skip(k as int)[0] == nodes_model[k as int]);
            assert(nodes_model[k as int] == doc.nodes@[k as int].model());
        }
        let node = &doc.nodes[k];
        let inherited = eff_ns(&node.attrs, &root_ns);
        let id = leaf_text(&node.children, "id", "logical_blocks", &inherited);
        let short = leaf_text(&node.children, "short_name", "logical_blocks", &inherited);
        let sig = leaf_text(&node.children, "signature", "logical_blocks", &inherited);
        let (id, short, sig) = match (id, short, sig) {
            (Some(i2), Some(s2), Some(g2)) => (i2, s2, g2),
            _ => {
                return None;
            },
        };
        let ghost before = records@;
        records.push((id, short, sig));
        k = k + 1;
        proof {
            assert(nodes_model.skip(k - 1).drop_first() =~= nodes_model.skip(k as int));
            let last = records@[records@.len() - 1];
            assert(triples_model(records@) =~= triples_model(before) + seq![
                (last.0@, last.1@, last.2@)
            ]);
            assert forall|rest: Seq<(Seq<char>, Seq<char>, Seq<char>)>| true implies
                triples_model(before) + (seq![(last.0@, last.1@, last.2@)] + rest)
                =~= triples_model(records@) + rest by {}
        }
    }
    proof {
        assert(nodes_model.skip(k as int) =~= Seq::<NodeModel>::empty());
    }
    Some(records)
}

fn get_manifest_path_from_index(entries: &Vec<(String, String)>, short: &str) -> (r: Option<
    String,
>)
    ensures
        opt_view(r) == spec_lookup(attrs_model(entries@), short@),
{
    let ghost model = attrs_model(entries@);
    let mut k: usize = 0;
    proof {
        assert(model.skip(0) =~= model);
    }
    while k < entries.len()
        invariant
            k <= entries@.len(),
            model == attrs_model(entries@),
            spec_lookup(model, short@) == spec_lookup(model.skip(k as int), short@),
        decreases entries@.len() - k,
    {
        proof {
            assert(model.skip(k as int)[0] == model[k as int]);
        }
        if str_equal(entries[k].0.as_str(), short) {
            return Some(entries[k].1.clone());
        }
        k = k + 1;
        proof {
            assert(model.skip(k - 1).drop_first() =~= model.skip(k as int));
        }
    }
    proof {
        assert(model.skip(k as int) =~= Seq::<(Seq<char>, Seq<char>)>::empty());
    }
    None
}

fn index_logical_blocks_from_manifest_and_index(
    records: &Vec<(String, String, String)>,
    entries: &Vec<(String, String)>,
) -> (r: Option<Vec<LogicalBlock>>)
    ensures
        match (r, spec_join(triples_model(records@), attrs_model(entries@))) {
            (Some(blocks), Some(sb)) => blocks@.map_values(|lb: LogicalBlock| lb.info()) == sb,
            (None, None) => true,
            _ => false,
        },
{
    let ghost model = triples_model(records@);
    let ghost emodel = attrs_model(entries@);
    let mut blocks: Vec<LogicalBlock> = Vec::new();
    let mut k: usize = 0;
    proof {
        assert(model.skip(0) =~= model);
        assert(blocks@.map_values(|lb: LogicalBlock| lb.info())
            =~= Seq::<BlockInfo>::empty());
    }
    while k < records.len()
        invariant
            k <= records@.len(),
            model == triples_model(records@),
            emodel == attrs_model(entries@),
            match spec_join(model, emodel) {
                None => spec_join(model.skip(k as int), emodel) is None,
                Some(all) => match spec_join(model.skip(k as int), emodel) {
                    None => false,
                    Some(rest) => all == blocks@.map_values(|lb: LogicalBlock| lb.info())
                        + rest,
                },
            },
        decreases records@.len() - k,
    {
        proof {
            assert(model.skip(k as int)[0] == model[k as int]);
        }
        let record = &records[k];
        let path = match get_manifest_path_from_index(entries, record.1.as_str()) {
            Some(p) => p,
            None => {
                return None;
            },
        };
        let ghost before = blocks@;
        blocks.push(
            LogicalBlock::new(record.0.clone(), record.1.clone(), record.2.clone(), path),
        );
        k = k + 1;
        proof {
            assert(model.skip(k - 1).drop_first() =~= model.skip(k as int));
            let last = blocks@[blocks@.len() - 1];
            assert(blocks@.map_values(|lb: LogicalBlock| lb.info()) =~= before.map_values(
                |lb: LogicalBlock| lb.info(),
            ) + seq![last.info()]);
            assert forall|rest: Seq<BlockInfo>| true implies before.map_values(
                |lb: LogicalBlock| lb.info(),
            ) + (seq![last.info()] + rest) =~= blocks@.map_values(|lb: LogicalBlock| lb.info())
                + rest by {}
        }
    }
    proof {
        assert(model.skip(k as int) =~= Seq::<(Seq<char>, Seq<char>, Seq<char>)>::empty());
    }
    Some(blocks)
}

/// The text of the named archive entry.
fn get_file_content(archive: &Vec<u8>, relative_path: &str) -> (r: Option<String>)
    ensures
        opt_view(r) == spec_file_text(archive@, relative_path@),
{
    match read_zip_entry(archive, relative_path) {
        None => None,
        Some(bytes) => string_from_utf8(bytes),
    }
}

/// The opened update archive: its raw bytes and the resolved, ordered
/// manifest records.
#[derive(Debug)]
pub struct SoftwareArchive {
    archive_bytes: Vec<u8>,
    logical_blocks: Vec<LogicalBlock>,
}

impl SoftwareArchive {
    fn load_failure(description: &str) -> (r: UpdateError)
        ensures
            r.fault() == UpdateFault::BlockRead(Seq::<char>::empty()),
    {
        UpdateError::LogicalBlockRead(LogicalBlockError::new(String::new(), description))
    }

    /// Open an archive from its raw bytes: read `index.xml`, locate the
    /// manifest through the index entry named `update_manifest`, parse the
    /// manifest, and resolve every record's archive path through the index.
    /// Every failure of the resolution is fatal.
    pub fn from(archive_bytes: Vec<u8>) -> (r: Result<SoftwareArchive, UpdateError>)
        ensures
            match (r, spec_archive_blocks(archive_bytes@)) {
                (Ok(a), Some(bs)) => a.bytes() == archive_bytes@ && a.blocks() == bs,
                (Err(e), None) => e.fault() == UpdateFault::BlockRead(Seq::<char>::empty()),
                _ => false,
            },
    {
        let itext = match get_file_content(&archive_bytes, "index.xml") {
            Some(t) => t,
            None => {
                return Err(Self::load_failure("cannot read index.xml from the archive"));
            },
        };
        let ichars = str_to_chars(itext.as_str());
        let idoc = match parse_doc(&ichars) {
            Some(d) => d,
            None => {
                return Err(Self::load_failure("index.xml is not well-formed"));
            },
        };
        let entries = match index_entries(&idoc) {
            Some(x) => x,
            None => {
                return Err(Self::load_failure(
                    "an index child lacks its short_name or its path",
                ));
            },
        };
        let manifest_path = match get_manifest_path_from_index(&entries, "update_manifest") {
            Some(p) => p,
            None => {
                return Err(Self::load_failure("the index has no update_manifest entry"));
            },
        };
        let mtext = match get_file_content(&archive_bytes, manifest_path.as_str()) {
            Some(t) => t,
            None => {
                return Err(Self::load_failure("cannot read the manifest from the archive"));
            },
        };
        let mchars = str_to_chars(mtext.as_str());
        let mdoc = match parse_doc(&mchars) {
            Some(d) => d,
            None => {
                return Err(Self::load_failure("the manifest is not well-formed"));
            },
        };
        let records = match manifest_records(&mdoc) {
            Some(x) => x,
            None => {
                return Err(Self::load_failure(
                    "a manifest child lacks its id, short_name or signature",
                ));
            },
        };
        let blocks = match index_logical_blocks_from_manifest_and_index(&records, &entries) {
            Some(x) => x,
            None => {
                return Err(Self::load_failure(
                    "a manifest short_name is absent from the index",
                ));
            },
        };
        Ok(SoftwareArchive { archive_bytes, logical_blocks: blocks })
    }

    /// The raw bytes of the archive.
    pub closed spec fn bytes(self) -> Seq<u8> {
        self.archive_bytes@
    }

    /// The resolved manifest records, in manifest order.
    pub closed spec fn blocks(self) -> Seq<BlockInfo> {
        self.logical_blocks@.map_values(|lb: LogicalBlock| lb.info())
    }

    /// The resolved manifest records, in manifest order.
    pub fn get_logical_blocks(&self) -> (r: Vec<LogicalBlock>)
        ensures
            r@.map_values(|lb: LogicalBlock| lb.info()) == self.blocks(),
    {
        let mut r: Vec<LogicalBlock> = Vec::new();
        let mut i: usize = 0;
        while i < self.logical_blocks.len()
            invariant
                i <= self.logical_blocks@.len(),
                r@ == self.logical_blocks@.subrange(0, i as int),
            decreases self.logical_blocks@.len() - i,
        {
            r.push(self.logical_blocks[i].clone());
            i = i + 1;
            proof {
                assert(r@ =~= self.logical_blocks@.subrange(0, i as int));
            }
        }
        proof {
            assert(r@ =~= self.logical_blocks@);
        }
        r
    }

    /// A fresh once-through reader for the record's archive entry, or
    /// `LogicalBlockRead` when the archive has no such entry.
    pub fn get_logical_block_reader(&self, logical_block: &LogicalBlock) -> (r: Result<
        LogicalBlockReader,
        UpdateError,
    >)
        ensures
            match r {
                Ok(reader) => {
                    &&& reader.wf()
                    &&& reader.info() == logical_block.info()
                    &&& Some(reader.remaining()) == zip_entry(
                        self.bytes(),
                        logical_block.info().path_in_archive,
                    )
                },
                Err(e) => {
                    &&& zip_entry(self.bytes(), logical_block.info().path_in_archive) is None
                    &&& e.fault() == UpdateFault::BlockRead(logical_block.info().id)
                },
            },
    {
        match read_zip_entry(&self.archive_bytes, logical_block.get_path_in_archive().as_str()) {
            Some(bytes) => Ok(LogicalBlockReader::new(logical_block.clone(), bytes)),
            None => Err(UpdateError::LogicalBlockRead(LogicalBlockError::new(
                logical_block.get_id(),
                "the archive has no entry for this logical block",
            ))),
        }
    }
}

} // verus!
