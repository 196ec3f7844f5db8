//! The filesystem callback adapter: the four kernel-style operations
//! (attribute query, name lookup, directory listing, byte-range read) are
//! stateless reads against the frozen model. Not-found is the only runtime
//! error; the listing answers only a zero cursor, once per directory open.

use vstd::prelude::*;

use crate::attr::{FileAttr, FileType, Timespec};
use crate::fs::{
    build_items, entries_of_label, files_with_prefix, items_for_labels, labels_in_order,
    lemma_name_index, name_index, node_matches_item, nodes_realize, BuildItem, ScanEntry,
    SiftFilesystem,
};
use crate::naming::NamingConfig;
use crate::node::SiftNode;

verus! {

/// The one runtime error of the query layer: no such entry.
#[derive(Clone, Copy, Debug, PartialEq, Eq, Structural)]
pub enum FsError {
    NotFound,
}

/// The freshness window handed back with every attribute reply: one second,
/// a fixed constant since the model never changes after the build.
pub open spec fn ttl_spec() -> Timespec {
    Timespec { sec: 1, nsec: 0 }
}

/// One row of a directory listing.
pub struct DirEntry {
    pub ino: u64,
    pub offset: i64,
    pub kind: FileType,
    pub name: String,
}

/// The view of a listing row: identifier, position, kind and name.
pub open spec fn entry_view(e: DirEntry) -> (u64, i64, FileType, Seq<char>) {
    (e.ino, e.offset, e.kind, e.name@)
}

/// The views of a listing, row by row.
pub open spec fn entry_views(es: Seq<DirEntry>) -> Seq<(u64, i64, FileType, Seq<char>)> {
    es.map_values(|e: DirEntry| entry_view(e))
}

/// The listing row a node yields.
pub open spec fn row_of_node(n: SiftNode) -> (u64, i64, FileType, Seq<char>) {
    (
        n.spec_inode(),
        n.spec_offset(),
        if n.is_file() {
            FileType::RegularFile
        } else {
            FileType::Directory
        },
        n.spec_name(),
    )
}

/// The directory nodes of a table slice, in order.
pub open spec fn dir_nodes(nodes: Seq<SiftNode>) -> Seq<SiftNode>
    decreases nodes.len(),
{
    if nodes.len() == 0 {
        Seq::empty()
    } else {
        let rest = dir_nodes(nodes.drop_last());
        if nodes.last().is_file() {
            rest
        } else {
            rest.push(nodes.last())
        }
    }
}

/// The node table without the root: what a root listing enumerates from.
pub open spec fn tail_of(nodes: Seq<SiftNode>) -> Seq<SiftNode> {
    if nodes.len() >= 1 {
        nodes.skip(1)
    } else {
        Seq::empty()
    }
}

/// What attribute-query returns: the node's attributes, or not-found for an
/// unknown identifier.
pub open spec fn attr_of(fs: SiftFilesystem, ino: u64) -> Result<FileAttr, FsError> {
    if 1 <= ino <= fs.nodes@.len() {
        Ok(fs.nodes@[ino - 1].spec_attr())
    } else {
        Err(FsError::NotFound)
    }
}

/// What name-lookup returns: the attributes of the first node carrying the
/// name, or not-found.
pub open spec fn lookup_spec(fs: SiftFilesystem, name: Seq<char>) -> Result<FileAttr, FsError> {
    if name_index(fs.nodes@, name) >= 0 {
        Ok(fs.nodes@[name_index(fs.nodes@, name)].spec_attr())
    } else {
        Err(FsError::NotFound)
    }
}

/// What directory-listing returns: not-found for any non-zero cursor, the
/// rows of every directory after the root for identifier 1, not-found for an
/// unknown identifier or a file, and else the rows of the file nodes whose
/// display name starts with the directory's label.
pub open spec fn listing_spec(fs: SiftFilesystem, ino: u64, cursor: i64) -> Result<
    Seq<(u64, i64, FileType, Seq<char>)>,
    FsError,
> {
    if cursor != 0 {
        Err(FsError::NotFound)
    } else if ino == 1 {
        Ok(dir_nodes(tail_of(fs.nodes@)).map_values(|n: SiftNode| row_of_node(n)))
    } else if !(1 <= ino <= fs.nodes@.len()) {
        Err(FsError::NotFound)
    } else if fs.nodes@[ino - 1].is_file() {
        Err(FsError::NotFound)
    } else {
        Ok(
            files_with_prefix(fs.nodes@, fs.nodes@[ino - 1].spec_name()).map_values(
                |n: SiftNode| row_of_node(n),
            ),
        )
    }
}

/// What a byte-read resolves to: the source path of the file node, or
/// not-found when the identifier is unknown or names a directory.
pub open spec fn read_target_spec(fs: SiftFilesystem, ino: u64) -> Result<Seq<char>, FsError> {
    if 1 <= ino <= fs.nodes@.len() {
        match fs.nodes@[ino - 1] {
            SiftNode::SiftFile { abs_path, .. } => Ok(abs_path@),
            _ => Err(FsError::NotFound),
        }
    } else {
        Err(FsError::NotFound)
    }
}

/// The byte range a read yields from a file with the given contents: the
/// bytes from `offset` to `offset + size`, clipped to the file's length. An
/// offset at or past the end yields an empty range, not an error.
pub open spec fn read_range_spec(data: Seq<u8>, offset: u64, size: u32) -> Seq<u8> {
    let start = if offset <= data.len() {
        offset as int
    } else {
        data.len() as int
    };
    let end = if offset + size <= data.len() {
        offset + size
    } else {
        data.len() as int
    };
    data.subrange(start, end)
}

impl SiftFilesystem {
    /// Attribute query: the attributes of the node with the given
    /// identifier, with the fixed freshness window, or not-found.
    pub fn getattr(&self, ino: u64) -> (r: Result<(FileAttr, Timespec), FsError>)
        ensures
            match r {
                Ok(p) => attr_of(*self, ino) == Ok::<FileAttr, FsError>(p.0) && p.1 == ttl_spec(),
                Err(e) => attr_of(*self, ino) == Err::<FileAttr, FsError>(e),
            },
    {
        if 1 <= ino && ino <= self.nodes.len() as u64 {
            let idx = (ino - 1) as usize;
            let a = *self.nodes[idx].get_attr();
            Ok((a, Timespec { sec: 1, nsec: 0 }))
        } else {
            Err(FsError::NotFound)
        }
    }

    /// Name lookup: the parent identifier is ignored (the model is flat by
    /// design); the name resolves by linear scan, with a zero generation
    /// counter in the reply.
    #[allow(unused_variables)]
    pub fn lookup(&self, parent: u64, name: &str) -> (r: Result<(FileAttr, Timespec, u64), FsError>)
        ensures
            match r {
                Ok(p) => lookup_spec(*self, name@) == Ok::<FileAttr, FsError>(p.0) && p.1
                    == ttl_spec() && p.2 == 0,
                Err(e) => lookup_spec(*self, name@) == Err::<FileAttr, FsError>(e),
            },
    {
        match self.get_node_by_name(name) {
            None => Err(FsError::NotFound),
            Some(node) => Ok((*node.get_attr(), Timespec { sec: 1, nsec: 0 }, 0)),
        }
    }

    /// Directory listing: only a zero cursor produces output; identifier 1
    /// lists every directory after the root, any other identifier lists the
    /// file nodes whose display name starts with its label, and a file or an
    /// unknown identifier is not-found.
    pub fn readdir(&self, ino: u64, offset: i64) -> (r: Result<Vec<DirEntry>, FsError>)
        ensures
            match r {
                Ok(v) => listing_spec(*self, ino, offset) == Ok::<
                    Seq<(u64, i64, FileType, Seq<char>)>,
                    FsError,
                >(entry_views(v@)),
                Err(e) => listing_spec(*self, ino, offset) == Err::<
                    Seq<(u64, i64, FileType, Seq<char>)>,
                    FsError,
                >(e),
            },
    {
        if offset != 0 {
            return Err(FsError::NotFound);
        }
        let n = self.nodes.len();
        if ino == 1 {
            let mut out: Vec<DirEntry> = Vec::new();
            if n == 0 {
                proof {
                    assert(entry_views(out@) =~= dir_nodes(tail_of(self.nodes@)).map_values(
                        |x: SiftNode| row_of_node(x),
                    ));
                }
                return Ok(out);
            }
            let mut i: usize = 1;
            proof {
                assert(self.nodes@.skip(1).take(0) =~= Seq::<SiftNode>::empty());
                assert(entry_views(out@) =~= dir_nodes(self.nodes@.skip(1).take(0)).map_values(
                    |x: SiftNode| row_of_node(x),
                ));
            }
            while i < n
                invariant
                    n == self.nodes@.len(),
                    1 <= i <= n,
                    entry_views(out@) == dir_nodes(self.nodes@.skip(1).take(i - 1)).map_values(
                        |x: SiftNode| row_of_node(x),
                    ),
                decreases n - i,
            {
                proof {
                    assert(self.nodes@.skip(1).take(i as int).drop_last() =~= self.nodes@.skip(
                        1,
                    ).take(i - 1));
                    assert(self.nodes@.skip(1).take(i as int).last() == self.nodes@[i as int]);
                }
                let node = &self.nodes[i];
                if !matches!(node, SiftNode::SiftFile { .. }) {
                    let e = DirEntry {
                        ino: node.get_inode(),
                        offset: node.get_offset(),
                        kind: FileType::Directory,
                        name: String::from_str(node.get_name()),
                    };
                    proof {
                        assert(entry_view(e) == row_of_node(self.nodes@[i as int]));
                        assert(entry_views(out@.push(e)) =~= entry_views(out@).push(entry_view(e)));
                        assert(dir_nodes(self.nodes@.skip(1).take(i as int)).map_values(
                            |x: SiftNode| row_of_node(x),
                        ) =~= dir_nodes(self.nodes@.skip(1).take(i - 1)).map_values(
                            |x: SiftNode| row_of_node(x),
                        ).push(row_of_node(self.nodes@[i as int])));
                    }
                    out.push(e);
                } else {
                    proof {
                        assert(dir_nodes(self.nodes@.skip(1).take(i as int)) =~= dir_nodes(
                            self.nodes@.skip(1).take(i - 1),
                        ));
                    }
                }
                i = i + 1;
            }
            proof {
                assert(self.nodes@.skip(1).take(n - 1) =~= self.nodes@.skip(1));
                assert(tail_of(self.nodes@) == self.nodes@.skip(1));
            }
            Ok(out)
        } else {
            if !(1 <= ino && ino <= n as u64) {
                return Err(FsError::NotFound);
            }
            let idx = (ino - 1) as usize;
            if matches!(&self.nodes[idx], SiftNode::SiftFile { .. }) {
                return Err(FsError::NotFound);
            }
            let files = self.get_files_by_directory(self.nodes[idx].get_name());
            let ghost fwp = files_with_prefix(self.nodes@, self.nodes@[idx as int].spec_name());
            proof {
                lemma_files_with_prefix_are_files(self.nodes@, self.nodes@[idx as int].spec_name());
            }
            let mut out: Vec<DirEntry> = Vec::new();
            let mut p: usize = 0;
            while p < files.len()
                invariant
                    files@.len() == fwp.len(),
                    forall|q: int| 0 <= q < files@.len() ==> *(#[trigger] files@[q]) == fwp[q],
                    forall|q: int| 0 <= q < fwp.len() ==> (#[trigger] fwp[q]).is_file(),
                    p <= files@.len(),
                    out@.len() == p,
                    forall|q: int|
                        0 <= q < p ==> (#[trigger] entry_views(out@)[q]) == row_of_node(fwp[q]),
                decreases files@.len() - p,
            {
                let node: &SiftNode = files[p];
                let e = DirEntry {
                    ino: node.get_inode(),
                    offset: node.get_offset(),
                    kind: FileType::RegularFile,
                    name: String::from_str(node.get_name()),
                };
                proof {
                    assert(*files@[p as int] == fwp[p as int]);
                    assert(entry_view(e) == row_of_node(fwp[p as int]));
                    assert(entry_views(out@.push(e)) =~= entry_views(out@).push(entry_view(e)));
                }
                out.push(e);
                p = p + 1;
            }
            proof {
                assert(entry_views(out@) =~= fwp.map_values(|x: SiftNode| row_of_node(x)));
            }
            Ok(out)
        }
    }

    /// Byte-read resolution: the source path whose bytes answer a read of
    /// the given identifier, or not-found when it is unknown or names a
    /// directory. The caller reads the whole file fresh from that path and
    /// clips the range with `read_range`.
    pub fn read_target(&self, ino: u64) -> (r: Result<&str, FsError>)
        ensures
            match r {
                Ok(s) => read_target_spec(*self, ino) == Ok::<Seq<char>, FsError>(s@),
                Err(e) => read_target_spec(*self, ino) == Err::<Seq<char>, FsError>(e),
            },
    {
        if 1 <= ino && ino <= self.nodes.len() as u64 {
            let idx = (ino - 1) as usize;
            match &self.nodes[idx] {
                SiftNode::SiftFile { abs_path, .. } => Ok(abs_path.as_str()),
                _ => Err(FsError::NotFound),
            }
        } else {
            Err(FsError::NotFound)
        }
    }
}

/// Every node a prefix query hands back is a file node.
pub proof fn lemma_files_with_prefix_are_files(nodes: Seq<SiftNode>, prefix: Seq<char>)
    ensures
        forall|q: int|
            0 <= q < files_with_prefix(nodes, prefix).len() ==> (#[trigger] files_with_prefix(
                nodes,
                prefix,
            )[q]).is_file(),
    decreases nodes.len(),
{
    if nodes.len() > 0 {
        lemma_files_with_prefix_are_files(nodes.drop_last(), prefix);
        let f = files_with_prefix(nodes, prefix);
        let rest = files_with_prefix(nodes.drop_last(), prefix);
        assert forall|q: int| 0 <= q < f.len() implies (#[trigger] f[q]).is_file() by {
            if q < rest.len() {
                assert(f[q] == rest[q]);
            }
        }
    }
}

/// Clips a byte range out of a file's contents: the bytes from `offset` to
/// `offset + size`, clipped to the length; an offset at or past the end
/// yields an empty result.
pub fn read_range(data: &Vec<u8>, offset: u64, size: u32) -> (r: Vec<u8>)
    ensures
        r@ == read_range_spec(data@, offset, size),
{
    let len = data.len();
    if offset >= len as u64 {
        let out: Vec<u8> = Vec::new();
        proof {
            assert(out@ =~= read_range_spec(data@, offset, size));
        }
        return out;
    }
    let start = offset as usize;
    let remaining = len - start;
    let take = if (size as usize) < remaining {
        size as usize
    } else {
        remaining
    };
    let end = start + take;
    let mut out: Vec<u8> = Vec::new();
    let mut i = start;
    proof {
        assert(out@ =~= data@.subrange(start as int, start as int));
    }
    while i < end
        invariant
            start <= i <= end <= data@.len(),
            out@ == data@.subrange(start as int, i as int),
        decreases end - i,
    {
        proof {
            assert(data@.subrange(start as int, i + 1) =~= data@.subrange(
                start as int,
                i as int,
            ).push(data@[i as int]));
        }
        out.push(data[i]);
        i = i + 1;
    }
    proof {
        assert(out@ =~= read_range_spec(data@, offset, size));
    }
    out
}

/// The listing is a pure function of the frozen model: any two listings of
/// the same directory with cursor 0 on an unchanged model hold identical
/// content, and any non-zero cursor terminates the listing with not-found.
pub proof fn lemma_listing_idempotent(
    fs: SiftFilesystem,
    ino: u64,
    cursor: i64,
    first: Seq<(u64, i64, FileType, Seq<char>)>,
    second: Seq<(u64, i64, FileType, Seq<char>)>,
)
    requires
        listing_spec(fs, ino, 0) == Ok::<Seq<(u64, i64, FileType, Seq<char>)>, FsError>(first),
        listing_spec(fs, ino, 0) == Ok::<Seq<(u64, i64, FileType, Seq<char>)>, FsError>(second),
    ensures
        first == second,
        cursor != 0 ==> listing_spec(fs, ino, cursor) == Err::<
            Seq<(u64, i64, FileType, Seq<char>)>,
            FsError,
        >(FsError::NotFound),
{
}

/// The labels of the planned directory nodes, in plan order.
pub open spec fn dir_labels(items: Seq<BuildItem>) -> Seq<Seq<char>>
    decreases items.len(),
{
    if items.len() == 0 {
        Seq::empty()
    } else {
        let rest = dir_labels(items.drop_last());
        match items.last() {
            BuildItem::Dir { label } => rest.push(label),
            BuildItem::File { .. } => rest,
        }
    }
}

proof fn lemma_dir_labels_concat(a: Seq<BuildItem>, b: Seq<BuildItem>)
    ensures
        dir_labels(a + b) == dir_labels(a) + dir_labels(b),
    decreases b.len(),
{
    if b.len() == 0 {
        assert(a + b =~= a);
        assert(dir_labels(a) + dir_labels(b) =~= dir_labels(a));
    } else {
        lemma_dir_labels_concat(a, b.drop_last());
        assert((a + b).drop_last() =~= a + b.drop_last());
        assert((a + b).last() == b.last());
        match b.last() {
            BuildItem::Dir { label } => {
                assert(dir_labels(a) + dir_labels(b) =~= (dir_labels(a) + dir_labels(
                    b.drop_last(),
                )).push(label));
            },
            BuildItem::File { .. } => {},
        }
    }
}

proof fn lemma_dir_labels_of_items(cfg: NamingConfig, entries: Seq<ScanEntry>, labels: Seq<Seq<char>>)
    ensures
        dir_labels(items_for_labels(cfg, entries, labels)) == labels,
    decreases labels.len(),
{
    if labels.len() == 0 {
        assert(dir_labels(items_for_labels(cfg, entries, labels)) =~= labels);
    } else {
        lemma_dir_labels_of_items(cfg, entries, labels.drop_last());
        let prior = items_for_labels(cfg, entries, labels.drop_last());
        let bucket = entries_of_label(cfg, entries, labels.last());
        let files = bucket.map_values(|e: ScanEntry| BuildItem::File { entry: e });
        assert(dir_labels(files) =~= Seq::<Seq<char>>::empty()) by {
            lemma_dir_labels_all_files(bucket);
        }
        lemma_dir_labels_concat(prior + seq![BuildItem::Dir { label: labels.last() }], files);
        lemma_dir_labels_concat(prior, seq![BuildItem::Dir { label: labels.last() }]);
        assert(dir_labels(seq![BuildItem::Dir { label: labels.last() }]) =~= seq![labels.last()])
            by {
            let single = seq![BuildItem::Dir { label: labels.last() }];
            assert(single.drop_last() =~= Seq::<BuildItem>::empty());
            assert(single.last() == BuildItem::Dir { label: labels.last() });
            assert(dir_labels(Seq::<BuildItem>::empty()) == Seq::<Seq<char>>::empty());
            assert(Seq::<Seq<char>>::empty().push(labels.last()) =~= seq![labels.last()]);
        }
        assert(labels.drop_last() + seq![labels.last()] + Seq::<Seq<char>>::empty() =~= labels);
    }
}

proof fn lemma_dir_labels_all_files(bucket: Seq<ScanEntry>)
    ensures
        dir_labels(bucket.map_values(|e: ScanEntry| BuildItem::File { entry: e }))
            == Seq::<Seq<char>>::empty(),
    decreases bucket.len(),
{
    let files = bucket.map_values(|e: ScanEntry| BuildItem::File { entry: e });
    if bucket.len() > 0 {
        lemma_dir_labels_all_files(bucket.drop_last());
        assert(files.drop_last() =~= bucket.drop_last().map_values(
            |e: ScanEntry| BuildItem::File { entry: e },
        ));
    }
}

proof fn lemma_dir_nodes_match(tail: Seq<SiftNode>, items: Seq<BuildItem>)
    requires
        tail.len() == items.len(),
        forall|p: int|
            0 <= p < tail.len() ==> ((#[trigger] tail[p]).is_file() <==> items[p] is File) && (
            !tail[p].is_file() ==> tail[p].spec_name() == items[p]->Dir_label),
    ensures
        dir_nodes(tail).len() == dir_labels(items).len(),
        forall|k: int|
            0 <= k < dir_nodes(tail).len() ==> !(#[trigger] dir_nodes(tail)[k]).is_file()
                && dir_nodes(tail)[k].spec_name() == dir_labels(items)[k],
    decreases tail.len(),
{
    if tail.len() > 0 {
        assert(forall|p: int|
            0 <= p < tail.len() - 1 ==> tail.drop_last()[p] == tail[p] && items.drop_last()[p]
                == items[p]);
        lemma_dir_nodes_match(tail.drop_last(), items.drop_last());
    }
}

/// Directory enumeration: the root listing holds exactly one row per
/// distinct derived label of the matching entries, each marked a directory
/// and named by its label, in order of first appearance.
pub proof fn lemma_directory_enumeration(fs: SiftFilesystem, entries: Seq<ScanEntry>)
    requires
        nodes_realize(fs.config, fs.nodes@, build_items(fs.config, entries)),
    ensures
        listing_spec(fs, 1, 0) is Ok,
        listing_spec(fs, 1, 0) matches Ok(rows) ==> {
            &&& rows.len() == labels_in_order(fs.config, entries).len()
            &&& forall|p: int|
                0 <= p < rows.len() ==> (#[trigger] rows[p]).3 == labels_in_order(
                    fs.config,
                    entries,
                )[p] && rows[p].2 == FileType::Directory
        },
{
    let cfg = fs.config;
    let labels = labels_in_order(cfg, entries);
    let items = build_items(cfg, entries);
    let inner = items_for_labels(cfg, entries, labels);
    let tail = fs.nodes@.skip(1);
    assert(fs.nodes@.len() >= 1);
    assert(tail.len() == inner.len());
    assert forall|p: int|
        0 <= p < tail.len() implies ((#[trigger] tail[p]).is_file() <==> inner[p] is File) && (
    !tail[p].is_file() ==> tail[p].spec_name() == inner[p]->Dir_label) by {
        assert(tail[p] == fs.nodes@[p + 1]);
        assert(items[p + 1] == inner[p]);
        assert(node_matches_item(cfg, fs.nodes@[p + 1], items[p + 1], (p + 2) as u64));
    }
    lemma_dir_nodes_match(tail, inner);
    lemma_dir_labels_of_items(cfg, entries, labels);
    assert(tail_of(fs.nodes@) == tail);
    let rows = dir_nodes(tail).map_values(|n: SiftNode| row_of_node(n));
    assert(listing_spec(fs, 1, 0) == Ok::<Seq<(u64, i64, FileType, Seq<char>)>, FsError>(rows));
    assert forall|p: int| 0 <= p < rows.len() implies (#[trigger] rows[p]).3 == labels[p]
        && rows[p].2 == FileType::Directory by {
        assert(rows[p] == row_of_node(dir_nodes(tail)[p]));
    }
}

/// An unknown identifier or name signals not-found from every operation:
/// attribute query, listing and read for identifiers, lookup for names.
pub proof fn lemma_not_found(fs: SiftFilesystem, ino: u64, name: Seq<char>)
    requires
        fs.wf(),
    ensures
        !(1 <= ino <= fs.nodes@.len()) ==> {
            &&& attr_of(fs, ino) == Err::<FileAttr, FsError>(FsError::NotFound)
            &&& listing_spec(fs, ino, 0) == Err::<
                Seq<(u64, i64, FileType, Seq<char>)>,
                FsError,
            >(FsError::NotFound)
            &&& read_target_spec(fs, ino) == Err::<Seq<char>, FsError>(FsError::NotFound)
        },
        (forall|i: int| 0 <= i < fs.nodes@.len() ==> (#[trigger] fs.nodes@[i]).spec_name() != name)
            ==> lookup_spec(fs, name) == Err::<FileAttr, FsError>(FsError::NotFound),
{
    lemma_name_index(fs.nodes@, name);
}

} // verus!
