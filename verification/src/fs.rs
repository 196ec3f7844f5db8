//! The tree builder and the frozen filesystem model: one scan pass groups the
//! matching entries of the source directory by their derived label, creates
//! one directory node per distinct label and one file node per matching
//! entry, and allocates identifiers and listing positions from a single
//! counter. The node table is immutable afterwards.

use vstd::prelude::*;

use crate::attr::{attr_spec, make_attr};
use crate::naming::{classify_spec, validate_spec, ConfigError, NamingConfig};
use crate::node::SiftNode;
use crate::strutil::{str_eq, str_starts_with};

verus! {

/// One entry of the scanned source directory: its filename, the absolute
/// path where its bytes live, and its byte length from the metadata probe.
#[derive(Debug)]
pub struct ScanEntry {
    pub name: String,
    pub path: String,
    pub size: u64,
}

/// Whether the entry's filename matches the configured pattern.
pub open spec fn entry_matches(cfg: NamingConfig, e: ScanEntry) -> bool {
    classify_spec(cfg, e.name@) is Some
}

/// The entry's derived directory label (capture group 1).
pub open spec fn entry_label(cfg: NamingConfig, e: ScanEntry) -> Seq<char> {
    classify_spec(cfg, e.name@)->Some_0.0
}

/// The entry's rendered display name.
pub open spec fn entry_display(cfg: NamingConfig, e: ScanEntry) -> Seq<char> {
    classify_spec(cfg, e.name@)->Some_0.1
}

/// The distinct labels of the matching entries, in order of first
/// appearance.
pub open spec fn labels_in_order(cfg: NamingConfig, entries: Seq<ScanEntry>) -> Seq<Seq<char>>
    decreases entries.len(),
{
    if entries.len() == 0 {
        Seq::empty()
    } else {
        let prefix = labels_in_order(cfg, entries.drop_last());
        let e = entries.last();
        if entry_matches(cfg, e) && !prefix.contains(entry_label(cfg, e)) {
            prefix.push(entry_label(cfg, e))
        } else {
            prefix
        }
    }
}

/// The matching entries that carry the given label, in scan order.
pub open spec fn entries_of_label(cfg: NamingConfig, entries: Seq<ScanEntry>, label: Seq<char>) -> Seq<
    ScanEntry,
>
    decreases entries.len(),
{
    if entries.len() == 0 {
        Seq::empty()
    } else {
        let prefix = entries_of_label(cfg, entries.drop_last(), label);
        let e = entries.last();
        if entry_matches(cfg, e) && entry_label(cfg, e) == label {
            prefix.push(e)
        } else {
            prefix
        }
    }
}

/// A planned node of the build: a synthetic directory for a label, or a file
/// node for a scanned entry.
pub enum BuildItem {
    Dir { label: Seq<char> },
    File { entry: ScanEntry },
}

/// The planned nodes for the given labels: for each label, its directory
/// node followed by the file nodes of its group, in scan order.
pub open spec fn items_for_labels(
    cfg: NamingConfig,
    entries: Seq<ScanEntry>,
    labels: Seq<Seq<char>>,
) -> Seq<BuildItem>
    decreases labels.len(),
{
    if labels.len() == 0 {
        Seq::empty()
    } else {
        items_for_labels(cfg, entries, labels.drop_last()) + seq![
            BuildItem::Dir { label: labels.last() },
        ] + entries_of_label(cfg, entries, labels.last()).map_values(
            |e: ScanEntry| BuildItem::File { entry: e },
        )
    }
}

/// The root directory's planned node.
pub open spec fn root_item() -> BuildItem {
    BuildItem::Dir { label: "/"@ }
}

/// The whole planned node table: the root first, then each label group.
pub open spec fn build_items(cfg: NamingConfig, entries: Seq<ScanEntry>) -> Seq<BuildItem> {
    seq![root_item()] + items_for_labels(cfg, entries, labels_in_order(cfg, entries))
}

/// Whether the node realizes the planned item under the given identifier:
/// the right variant, names and sizes from the plan, identifier and listing
/// position equal to the given number, attributes from the fixed policy.
pub open spec fn node_matches_item(cfg: NamingConfig, node: SiftNode, item: BuildItem, ino: u64) -> bool {
    match item {
        BuildItem::Dir { label } => match node {
            SiftNode::SiftDirectory { name, inode, offset, attr } => {
                &&& name@ == label
                &&& inode == ino
                &&& offset == ino as i64
                &&& attr == attr_spec(ino, 0, true)
            },
            _ => false,
        },
        BuildItem::File { entry } => match node {
            SiftNode::SiftFile { name, original_name, abs_path, sift_directory, inode, offset, attr } => {
                &&& name@ == entry_display(cfg, entry)
                &&& original_name@ == entry.name@
                &&& abs_path@ == entry.path@
                &&& sift_directory@ == entry_label(cfg, entry)
                &&& inode == ino
                &&& offset == ino as i64
                &&& attr == attr_spec(ino, entry.size, false)
            },
            _ => false,
        },
    }
}

/// Whether the node table realizes the planned items, position by position,
/// with identifier one more than the position.
pub open spec fn nodes_realize(cfg: NamingConfig, nodes: Seq<SiftNode>, items: Seq<BuildItem>) -> bool {
    &&& nodes.len() == items.len()
    &&& forall|p: int|
        0 <= p < nodes.len() ==> node_matches_item(cfg, #[trigger] nodes[p], items[p], (p + 1) as u64)
}

/// Whether the labels are pairwise distinct.
pub open spec fn distinct_labels(labels: Seq<Seq<char>>) -> bool {
    forall|p: int, q: int| 0 <= p < q < labels.len() ==> labels[p] != labels[q]
}

/// The total number of file nodes planned for the given labels.
pub open spec fn buckets_total(cfg: NamingConfig, entries: Seq<ScanEntry>, labels: Seq<Seq<char>>) -> nat
    decreases labels.len(),
{
    if labels.len() == 0 {
        0
    } else {
        buckets_total(cfg, entries, labels.drop_last()) + entries_of_label(
            cfg,
            entries,
            labels.last(),
        ).len()
    }
}

proof fn lemma_bucket_push(cfg: NamingConfig, es: Seq<ScanEntry>, e: ScanEntry, label: Seq<char>)
    ensures
        entries_of_label(cfg, es.push(e), label) == if entry_matches(cfg, e) && entry_label(cfg, e)
            == label {
            entries_of_label(cfg, es, label).push(e)
        } else {
            entries_of_label(cfg, es, label)
        },
{
    assert(es.push(e).drop_last() =~= es);
    assert(es.push(e).last() == e);
}

proof fn lemma_bucket_len(cfg: NamingConfig, es: Seq<ScanEntry>, label: Seq<char>)
    ensures
        entries_of_label(cfg, es, label).len() <= es.len(),
    decreases es.len(),
{
    if es.len() > 0 {
        lemma_bucket_len(cfg, es.drop_last(), label);
    }
}

proof fn lemma_buckets_total_push_notin(
    cfg: NamingConfig,
    es: Seq<ScanEntry>,
    e: ScanEntry,
    labels: Seq<Seq<char>>,
)
    requires
        !entry_matches(cfg, e) || !labels.contains(entry_label(cfg, e)),
    ensures
        buckets_total(cfg, es.push(e), labels) == buckets_total(cfg, es, labels),
    decreases labels.len(),
{
    if labels.len() > 0 {
        assert(labels.drop_last().len() < labels.len());
        assert forall|x: Seq<char>| labels.drop_last().contains(x) implies labels.contains(x) by {
            let i = choose|i: int| 0 <= i < labels.drop_last().len() && labels.drop_last()[i] == x;
            assert(labels[i] == x);
        }
        lemma_buckets_total_push_notin(cfg, es, e, labels.drop_last());
        assert(labels.contains(labels.last()));
        lemma_bucket_push(cfg, es, e, labels.last());
    }
}

proof fn lemma_buckets_total_push(
    cfg: NamingConfig,
    es: Seq<ScanEntry>,
    e: ScanEntry,
    labels: Seq<Seq<char>>,
)
    requires
        distinct_labels(labels),
    ensures
        buckets_total(cfg, es.push(e), labels) <= buckets_total(cfg, es, labels) + 1,
    decreases labels.len(),
{
    if labels.len() > 0 {
        let rest = labels.drop_last();
        assert(distinct_labels(rest)) by {
            assert(forall|p: int, q: int|
                0 <= p < q < rest.len() ==> rest[p] == labels[p] && rest[q] == labels[q]);
        }
        lemma_bucket_push(cfg, es, e, labels.last());
        if entry_matches(cfg, e) && entry_label(cfg, e) == labels.last() {
            assert(!rest.contains(entry_label(cfg, e))) by {
                if rest.contains(entry_label(cfg, e)) {
                    let i = choose|i: int| 0 <= i < rest.len() && rest[i] == entry_label(cfg, e);
                    assert(labels[i] == labels.last());
                    assert(labels[i] == labels[labels.len() - 1]);
                }
            }
            lemma_buckets_total_push_notin(cfg, es, e, rest);
        } else {
            lemma_buckets_total_push(cfg, es, e, rest);
        }
    }
}

proof fn lemma_buckets_total_empty(cfg: NamingConfig, labels: Seq<Seq<char>>)
    ensures
        buckets_total(cfg, Seq::<ScanEntry>::empty(), labels) == 0,
    decreases labels.len(),
{
    if labels.len() > 0 {
        lemma_buckets_total_empty(cfg, labels.drop_last());
    }
}

proof fn lemma_buckets_total_le(cfg: NamingConfig, es: Seq<ScanEntry>, labels: Seq<Seq<char>>)
    requires
        distinct_labels(labels),
    ensures
        buckets_total(cfg, es, labels) <= es.len(),
    decreases es.len(),
{
    if es.len() == 0 {
        assert(es =~= Seq::<ScanEntry>::empty());
        lemma_buckets_total_empty(cfg, labels);
    } else {
        assert(es.drop_last().push(es.last()) =~= es);
        lemma_buckets_total_le(cfg, es.drop_last(), labels);
        lemma_buckets_total_push(cfg, es.drop_last(), es.last(), labels);
    }
}

proof fn lemma_items_len(cfg: NamingConfig, entries: Seq<ScanEntry>, labels: Seq<Seq<char>>)
    ensures
        items_for_labels(cfg, entries, labels).len() == labels.len() + buckets_total(
            cfg,
            entries,
            labels,
        ),
    decreases labels.len(),
{
    if labels.len() > 0 {
        lemma_items_len(cfg, entries, labels.drop_last());
    }
}

proof fn lemma_labels_in_order_distinct(cfg: NamingConfig, entries: Seq<ScanEntry>)
    ensures
        distinct_labels(labels_in_order(cfg, entries)),
        labels_in_order(cfg, entries).len() <= entries.len(),
    decreases entries.len(),
{
    if entries.len() > 0 {
        lemma_labels_in_order_distinct(cfg, entries.drop_last());
        let prefix = labels_in_order(cfg, entries.drop_last());
        let e = entries.last();
        if entry_matches(cfg, e) && !prefix.contains(entry_label(cfg, e)) {
            let l = labels_in_order(cfg, entries);
            assert forall|p: int, q: int| 0 <= p < q < l.len() implies l[p] != l[q] by {
                if q == l.len() - 1 {
                    assert(l[p] == prefix[p]);
                    if prefix[p] == entry_label(cfg, e) {
                        assert(prefix.contains(entry_label(cfg, e)));
                    }
                } else {
                    assert(l[p] == prefix[p] && l[q] == prefix[q]);
                }
            }
        }
    }
}

/// The frozen filesystem model: the validated naming configuration, the
/// source directory path, and the immutable node table. The node at position
/// `i` carries identifier and listing position `i + 1`; position 0 is the
/// root directory.
pub struct SiftFilesystem {
    pub directory: String,
    pub config: NamingConfig,
    pub nodes: Vec<SiftNode>,
}

impl SiftFilesystem {
    /// The structural invariant of the frozen model: the root directory "/"
    /// sits at identifier 1, identifiers and listing positions equal the
    /// node's position plus one, and the derived directory labels are unique.
    pub open spec fn wf(&self) -> bool {
        &&& self.nodes@.len() >= 1
        &&& forall|i: int|
            0 <= i < self.nodes@.len() ==> (#[trigger] self.nodes@[i]).spec_inode() == i + 1
        &&& forall|i: int|
            0 <= i < self.nodes@.len() ==> (#[trigger] self.nodes@[i]).spec_offset() == i + 1
        &&& self.nodes@[0] is SiftDirectory
        &&& self.nodes@[0].spec_name() == "/"@
        &&& forall|i: int, j: int|
            1 <= i < j < self.nodes@.len() && !(#[trigger] self.nodes@[i]).is_file() && !(
            #[trigger] self.nodes@[j]).is_file() ==> self.nodes@[i].spec_name()
                != self.nodes@[j].spec_name()
    }
}

/// Whether a vector of strings holds the given characters.
fn vec_contains_str(v: &Vec<String>, s: &str) -> (r: bool)
    ensures
        r == v@.map_values(|x: String| x@).contains(s@),
{
    let mut i: usize = 0;
    while i < v.len()
        invariant
            i <= v@.len(),
            forall|j: int| 0 <= j < i ==> (#[trigger] v@[j])@ != s@,
        decreases v@.len() - i,
    {
        if str_eq(v[i].as_str(), s) {
            proof {
                assert(v@.map_values(|x: String| x@)[i as int] == s@);
            }
            return true;
        }
        i = i + 1;
    }
    proof {
        let m = v@.map_values(|x: String| x@);
        assert(!m.contains(s@)) by {
            if m.contains(s@) {
                let p = choose|p: int| 0 <= p < m.len() && m[p] == s@;
                assert(v@[p]@ == s@);
            }
        }
    }
    false
}

impl SiftFilesystem {
    /// Builds the frozen model from a validated configuration and one scan
    /// of the source directory: the root directory first, then, for each
    /// distinct derived label in order of first appearance, one directory
    /// node followed by one file node per matching entry of that label, in
    /// scan order. Entries that do not match the pattern are skipped and the
    /// build goes on; a configuration error aborts the build before any node
    /// is created. The entry count is bounded so that every identifier fits
    /// the 64-bit identifier space.
    pub fn new(
        directory: &str,
        file_regex: &str,
        file_format_string: &str,
        file_format_string_args: &str,
        entries: Vec<ScanEntry>,
    ) -> (r: Result<SiftFilesystem, ConfigError>)
        requires
            entries@.len() <= 0x1000_0000_0000_0000,
        ensures
            match r {
                Ok(fs) => {
                    &&& fs.wf()
                    &&& fs.directory@ == directory@
                    &&& fs.config.pattern@ == file_regex@
                    &&& fs.config.template@ == file_format_string@
                    &&& fs.config.wf()
                    &&& validate_spec(file_regex@, file_format_string@, file_format_string_args@)
                        == Ok::<Seq<usize>, ConfigError>(fs.config.fill_order@)
                    &&& nodes_realize(fs.config, fs.nodes@, build_items(fs.config, entries@))
                },
                Err(e) => validate_spec(file_regex@, file_format_string@, file_format_string_args@)
                    == Err::<Seq<usize>, ConfigError>(e),
            },
    {
        let config = match NamingConfig::new(file_regex, file_format_string, file_format_string_args) {
            Err(e) => {
                return Err(e);
            },
            Ok(c) => c,
        };

        // First pass: collect the distinct labels in first-appearance order.
        let mut labels: Vec<String> = Vec::new();
        let mut k: usize = 0;
        proof {
            assert(entries@.take(0) =~= Seq::<ScanEntry>::empty());
        }
        while k < entries.len()
            invariant
                config.wf(),
                k <= entries@.len(),
                labels@.map_values(|s: String| s@) == labels_in_order(
                    config,
                    entries@.take(k as int),
                ),
            decreases entries@.len() - k,
        {
            let ghost pre = labels_in_order(config, entries@.take(k as int));
            proof {
                assert(entries@.take(k + 1).drop_last() =~= entries@.take(k as int));
                assert(entries@.take(k + 1).last() == entries@[k as int]);
            }
            match config.classify(entries[k].name.as_str()) {
                None => {},
                Some(m) => {
                    if !vec_contains_str(&labels, m.label.as_str()) {
                        proof {
                            assert(labels@.push(m.label).map_values(|s: String| s@) =~= pre.push(
                                m.label@,
                            ));
                        }
                        labels.push(m.label);
                    }
                },
            }
            k = k + 1;
        }
        proof {
            assert(entries@.take(entries@.len() as int) =~= entries@);
        }
        let ghost lviews = labels@.map_values(|s: String| s@);

        // Second pass: the root, then one directory node per label followed
        // by the file nodes of its group.
        let mut nodes: Vec<SiftNode> = Vec::new();
        let root_attr = make_attr(1, 0, true);
        nodes.push(
            SiftNode::SiftDirectory {
                name: String::from_str("/"),
                inode: 1,
                offset: 1,
                attr: root_attr,
            },
        );
        proof {
            lemma_labels_in_order_distinct(config, entries@);
            assert(lviews.take(0) =~= Seq::<Seq<char>>::empty());
            assert(nodes@ =~= seq![nodes@[0]]);
            assert(seq![root_item()] + items_for_labels(config, entries@, lviews.take(0)) =~= seq![
                root_item(),
            ]);
        }
        let mut j: usize = 0;
        while j < labels.len()
            invariant
                config.wf(),
                entries@.len() <= 0x1000_0000_0000_0000,
                lviews == labels@.map_values(|s: String| s@),
                lviews == labels_in_order(config, entries@),
                distinct_labels(lviews),
                lviews.len() <= entries@.len(),
                j <= labels@.len(),
                nodes_realize(
                    config,
                    nodes@,
                    seq![root_item()] + items_for_labels(config, entries@, lviews.take(j as int)),
                ),
            decreases labels@.len() - j,
        {
            let ghost items_pre = seq![root_item()] + items_for_labels(
                config,
                entries@,
                lviews.take(j as int),
            );
            proof {
                assert(distinct_labels(lviews.take(j as int))) by {
                    assert(forall|p: int, q: int|
                        0 <= p < q < j ==> lviews.take(j as int)[p] == lviews[p] && lviews.take(
                            j as int,
                        )[q] == lviews[q]);
                }
                lemma_items_len(config, entries@, lviews.take(j as int));
                lemma_buckets_total_le(config, entries@, lviews.take(j as int));
                assert(nodes@.len() <= 1 + j + entries@.len());
            }
            let p = nodes.len();
            let ino = p as u64 + 1;
            let dir_attr = make_attr(ino, 0, true);
            let name_j = labels[j].clone();
            let ghost l = lviews[j as int];
            proof {
                assert(name_j@ == l);
            }
            nodes.push(SiftNode::SiftDirectory { name: name_j, inode: ino, offset: ino as i64, attr: dir_attr });
            let ghost items_dir = items_pre + seq![BuildItem::Dir { label: l }];
            proof {
                assert(items_dir =~= items_pre.push(BuildItem::Dir { label: l }));
                assert(entries@.take(0) =~= Seq::<ScanEntry>::empty());
                assert(items_dir + entries_of_label(config, entries@.take(0), l).map_values(
                    |e: ScanEntry| BuildItem::File { entry: e },
                ) =~= items_dir);
            }
            let mut i: usize = 0;
            while i < entries.len()
                invariant
                    config.wf(),
                    entries@.len() <= 0x1000_0000_0000_0000,
                    i <= entries@.len(),
                    j < labels@.len(),
                    lviews == labels@.map_values(|s: String| s@),
                    lviews.len() <= entries@.len(),
                    l == lviews[j as int],
                    items_pre.len() <= 1 + j + entries@.len(),
                    items_dir == items_pre + seq![BuildItem::Dir { label: l }],
                    nodes_realize(
                        config,
                        nodes@,
                        items_dir + entries_of_label(config, entries@.take(i as int), l).map_values(
                            |e: ScanEntry| BuildItem::File { entry: e },
                        ),
                    ),
                decreases entries@.len() - i,
            {
                let ghost bucket_pre = entries_of_label(config, entries@.take(i as int), l);
                proof {
                    assert(entries@.take(i + 1) =~= entries@.take(i as int).push(
                        entries@[i as int],
                    ));
                    lemma_bucket_push(config, entries@.take(i as int), entries@[i as int], l);
                    lemma_bucket_len(config, entries@.take(i as int), l);
                }
                match config.classify(entries[i].name.as_str()) {
                    None => {},
                    Some(m) => {
                        if str_eq(m.label.as_str(), labels[j].as_str()) {
                            let p = nodes.len();
                            proof {
                                assert(nodes@.len() == items_dir.len() + bucket_pre.len());
                                assert(nodes@.len() < 0x7fff_ffff_ffff_ffff);
                            }
                            let ino = p as u64 + 1;
                            let file_attr = make_attr(ino, entries[i].size, false);
                            proof {
                                assert(m.label@ == entry_label(config, entries@[i as int]));
                                assert(m.display@ == entry_display(config, entries@[i as int]));
                                assert(entry_label(config, entries@[i as int]) == l);
                            }
                            let node = SiftNode::SiftFile {
                                name: m.display,
                                original_name: entries[i].name.clone(),
                                abs_path: entries[i].path.clone(),
                                sift_directory: m.label,
                                inode: ino,
                                offset: ino as i64,
                                attr: file_attr,
                            };
                            nodes.push(node);
                            proof {
                                let fitem = BuildItem::File { entry: entries@[i as int] };
                                assert(items_dir + entries_of_label(
                                    config,
                                    entries@.take(i + 1),
                                    l,
                                ).map_values(|e: ScanEntry| BuildItem::File { entry: e }) =~= (
                                items_dir + bucket_pre.map_values(
                                    |e: ScanEntry| BuildItem::File { entry: e },
                                )).push(fitem));
                            }
                        } else {
                            proof {
                                assert(entry_label(config, entries@[i as int]) != l);
                                assert(items_dir + entries_of_label(
                                    config,
                                    entries@.take(i + 1),
                                    l,
                                ).map_values(|e: ScanEntry| BuildItem::File { entry: e }) =~= items_dir
                                    + bucket_pre.map_values(
                                    |e: ScanEntry| BuildItem::File { entry: e },
                                ));
                            }
                        }
                    },
                }
                i = i + 1;
            }
            proof {
                assert(entries@.take(entries@.len() as int) =~= entries@);
                assert(lviews.take(j + 1).drop_last() =~= lviews.take(j as int));
                assert(lviews.take(j + 1).last() == l);
                assert(seq![root_item()] + items_for_labels(config, entries@, lviews.take(j + 1))
                    =~= items_dir + entries_of_label(config, entries@, l).map_values(
                    |e: ScanEntry| BuildItem::File { entry: e },
                ));
            }
            j = j + 1;
        }
        proof {
            assert(lviews.take(labels@.len() as int) =~= lviews);
        }

        let fs = SiftFilesystem { directory: String::from_str(directory), config, nodes };
        proof {
            lemma_items_len(fs.config, entries@, lviews);
            lemma_buckets_total_le(fs.config, entries@, lviews);
            lemma_wf_from_realize(fs.config, fs.nodes@, entries@);
        }
        Ok(fs)
    }
}

/// The position of the first node with the given display name, or -1 when no
/// node carries it.
pub open spec fn name_index(nodes: Seq<SiftNode>, name: Seq<char>) -> int
    decreases nodes.len(),
{
    if nodes.len() == 0 {
        -1
    } else if nodes[0].spec_name() == name {
        0
    } else {
        let r = name_index(nodes.skip(1), name);
        if r == -1 {
            -1
        } else {
            r + 1
        }
    }
}

/// What `name_index` finds: either no node carries the name, or the position
/// is the first one that does.
pub proof fn lemma_name_index(nodes: Seq<SiftNode>, name: Seq<char>)
    ensures
        name_index(nodes, name) == -1 ==> forall|i: int|
            0 <= i < nodes.len() ==> (#[trigger] nodes[i]).spec_name() != name,
        name_index(nodes, name) != -1 ==> {
            &&& 0 <= name_index(nodes, name) < nodes.len()
            &&& nodes[name_index(nodes, name)].spec_name() == name
            &&& forall|i: int|
                0 <= i < name_index(nodes, name) ==> (#[trigger] nodes[i]).spec_name() != name
        },
    decreases nodes.len(),
{
    if nodes.len() > 0 && nodes[0].spec_name() != name {
        lemma_name_index(nodes.skip(1), name);
        let rest = nodes.skip(1);
        assert(forall|i: int| 0 <= i < rest.len() ==> rest[i] == nodes[i + 1]);
        if name_index(nodes, name) == -1 {
            assert forall|i: int| 0 <= i < nodes.len() implies (#[trigger] nodes[i]).spec_name()
                != name by {
                if i > 0 {
                    assert(rest[i - 1].spec_name() != name);
                }
            }
        } else {
            assert forall|i: int| 0 <= i < name_index(nodes, name) implies (
            #[trigger] nodes[i]).spec_name() != name by {
                if i > 0 {
                    assert(rest[i - 1].spec_name() != name);
                }
            }
        }
    }
}

/// The file nodes whose display name starts with the given prefix, in table
/// order.
pub open spec fn files_with_prefix(nodes: Seq<SiftNode>, prefix: Seq<char>) -> Seq<SiftNode>
    decreases nodes.len(),
{
    if nodes.len() == 0 {
        Seq::empty()
    } else {
        let rest = files_with_prefix(nodes.drop_last(), prefix);
        let n = nodes.last();
        if n.is_file() && prefix.is_prefix_of(n.spec_name()) {
            rest.push(n)
        } else {
            rest
        }
    }
}

impl SiftFilesystem {
    /// Resolves a display name by linear scan over the node table; the first
    /// node carrying the name wins, and an absent name resolves to nothing.
    pub fn get_node_by_name(&self, node_name: &str) -> (r: Option<&SiftNode>)
        ensures
            match r {
                Some(node) => name_index(self.nodes@, node_name@) >= 0 && *node
                    == self.nodes@[name_index(self.nodes@, node_name@)],
                None => name_index(self.nodes@, node_name@) == -1,
            },
    {
        let n = self.nodes.len();
        let mut i: usize = 0;
        proof {
            assert(self.nodes@.skip(0) =~= self.nodes@);
        }
        while i < n
            invariant
                n == self.nodes@.len(),
                i <= n,
                ({
                    let r = name_index(self.nodes@.skip(i as int), node_name@);
                    name_index(self.nodes@, node_name@) == if r == -1 {
                        r
                    } else {
                        r + i
                    }
                }),
            decreases n - i,
        {
            let ghost rem = self.nodes@.skip(i as int);
            proof {
                assert(rem[0] == self.nodes@[i as int]);
                assert(rem.skip(1) =~= self.nodes@.skip(i + 1));
            }
            if str_eq(self.nodes[i].get_name(), node_name) {
                return Some(&self.nodes[i]);
            }
            proof {
                assert(rem[0].spec_name() != node_name@);
                lemma_name_index(rem.skip(1), node_name@);
                let r2 = name_index(rem.skip(1), node_name@);
                assert(name_index(rem, node_name@) == if r2 == -1 {
                    -1int
                } else {
                    r2 + 1
                });
            }
            i = i + 1;
        }
        proof {
            assert(self.nodes@.skip(n as int) =~= Seq::<SiftNode>::empty());
        }
        None
    }

    /// The file nodes whose display name has the given directory label as a
    /// string prefix, in table order. Membership is by prefix match on the
    /// display name, not by an explicit parent link, so a display name that
    /// happens to begin with an unrelated label is attributed to it.
    pub fn get_files_by_directory(&self, dir_name: &str) -> (r: Vec<&SiftNode>)
        ensures
            r@.len() == files_with_prefix(self.nodes@, dir_name@).len(),
            forall|p: int|
                0 <= p < r@.len() ==> *(#[trigger] r@[p]) == files_with_prefix(
                    self.nodes@,
                    dir_name@,
                )[p],
    {
        let mut out: Vec<&SiftNode> = Vec::new();
        let n = self.nodes.len();
        let mut i: usize = 0;
        proof {
            assert(self.nodes@.take(0) =~= Seq::<SiftNode>::empty());
        }
        while i < n
            invariant
                n == self.nodes@.len(),
                i <= n,
                out@.len() == files_with_prefix(self.nodes@.take(i as int), dir_name@).len(),
                forall|p: int|
                    0 <= p < out@.len() ==> *(#[trigger] out@[p]) == files_with_prefix(
                        self.nodes@.take(i as int),
                        dir_name@,
                    )[p],
            decreases n - i,
        {
            proof {
                assert(self.nodes@.take(i + 1).drop_last() =~= self.nodes@.take(i as int));
                assert(self.nodes@.take(i + 1).last() == self.nodes@[i as int]);
            }
            let node = &self.nodes[i];
            if matches!(node, SiftNode::SiftFile { .. }) && str_starts_with(
                node.get_name(),
                dir_name,
            ) {
                out.push(node);
            }
            i = i + 1;
        }
        proof {
            assert(self.nodes@.take(n as int) =~= self.nodes@);
        }
        out
    }
}

proof fn lemma_dir_items_distinct(
    cfg: NamingConfig,
    entries: Seq<ScanEntry>,
    labels: Seq<Seq<char>>,
)
    requires
        distinct_labels(labels),
    ensures
        forall|p: int, q: int|
            0 <= p < q < items_for_labels(cfg, entries, labels).len() && (#[trigger] items_for_labels(
                cfg,
                entries,
                labels,
            )[p]) is Dir && (#[trigger] items_for_labels(cfg, entries, labels)[q]) is Dir
                ==> items_for_labels(cfg, entries, labels)[p]->Dir_label != items_for_labels(
                cfg,
                entries,
                labels,
            )[q]->Dir_label,
        forall|p: int|
            0 <= p < items_for_labels(cfg, entries, labels).len() && (#[trigger] items_for_labels(
                cfg,
                entries,
                labels,
            )[p]) is Dir ==> labels.contains(items_for_labels(cfg, entries, labels)[p]->Dir_label),
    decreases labels.len(),
{
    if labels.len() > 0 {
        let rest = labels.drop_last();
        assert(distinct_labels(rest)) by {
            assert(forall|p: int, q: int|
                0 <= p < q < rest.len() ==> rest[p] == labels[p] && rest[q] == labels[q]);
        }
        lemma_dir_items_distinct(cfg, entries, rest);
        let items = items_for_labels(cfg, entries, labels);
        let prior = items_for_labels(cfg, entries, rest);
        let files = entries_of_label(cfg, entries, labels.last()).map_values(
            |e: ScanEntry| BuildItem::File { entry: e },
        );
        assert forall|x: Seq<char>| rest.contains(x) implies labels.contains(x) by {
            let i = choose|i: int| 0 <= i < rest.len() && rest[i] == x;
            assert(labels[i] == x);
        }
        assert(labels.contains(labels.last()));
        assert forall|p: int, q: int|
            0 <= p < q < items.len() && #[trigger] items[p] is Dir
                && #[trigger] items[q] is Dir implies items[p]->Dir_label
            != items[q]->Dir_label by {
            if q < prior.len() {
                assert(items[p] == prior[p] && items[q] == prior[q]);
            } else if q == prior.len() {
                assert(items[p] == prior[p]);
                assert(items[q]->Dir_label == labels.last());
                assert(rest.contains(prior[p]->Dir_label));
                if prior[p]->Dir_label == labels.last() {
                    let i = choose|i: int| 0 <= i < rest.len() && rest[i] == labels.last();
                    assert(labels[i] == labels[labels.len() - 1]);
                }
            } else {
                assert(items[q] == files[q - prior.len() - 1]);
            }
        }
        assert forall|p: int|
            0 <= p < items.len() && (#[trigger] items[p]) is Dir implies labels.contains(
            items[p]->Dir_label,
        ) by {
            if p < prior.len() {
                assert(items[p] == prior[p]);
            } else if p == prior.len() {
                assert(items[p]->Dir_label == labels.last());
            } else {
                assert(items[p] == files[p - prior.len() - 1]);
            }
        }
    }
}

/// Whether the entries carry pairwise distinct filenames, as the entries of
/// one directory do.
pub open spec fn distinct_names(entries: Seq<ScanEntry>) -> bool {
    forall|a: int, b: int| 0 <= a < b < entries.len() ==> entries[a].name@ != entries[b].name@
}

/// Whether the node is the file node built for the entry: a file carrying
/// the entry's filename as original name, the rendered display name, the
/// derived label, the source path, and the probed size.
pub open spec fn file_node_for(cfg: NamingConfig, node: SiftNode, e: ScanEntry) -> bool {
    match node {
        SiftNode::SiftFile { name, original_name, abs_path, sift_directory, attr, .. } => {
            &&& original_name@ == e.name@
            &&& name@ == entry_display(cfg, e)
            &&& sift_directory@ == entry_label(cfg, e)
            &&& abs_path@ == e.path@
            &&& attr.size == e.size
        },
        SiftNode::SiftDirectory { .. } => false,
    }
}

proof fn lemma_bucket_members(cfg: NamingConfig, es: Seq<ScanEntry>, label: Seq<char>)
    ensures
        forall|x: ScanEntry|
            #[trigger] entries_of_label(cfg, es, label).contains(x) ==> es.contains(x)
                && entry_matches(cfg, x) && entry_label(cfg, x) == label,
    decreases es.len(),
{
    if es.len() > 0 {
        lemma_bucket_members(cfg, es.drop_last(), label);
        let bucket = entries_of_label(cfg, es, label);
        let rest = entries_of_label(cfg, es.drop_last(), label);
        assert forall|x: ScanEntry| #[trigger] bucket.contains(x) implies es.contains(x)
            && entry_matches(cfg, x) && entry_label(cfg, x) == label by {
            let a = choose|a: int| 0 <= a < bucket.len() && bucket[a] == x;
            if a < rest.len() {
                assert(rest[a] == x);
                assert(rest.contains(x));
                let c = choose|c: int| 0 <= c < es.drop_last().len() && es.drop_last()[c] == x;
                assert(es[c] == x);
            } else {
                assert(x == es.last());
                assert(es[es.len() - 1] == x);
            }
        }
    }
}

proof fn lemma_bucket_names_distinct(cfg: NamingConfig, es: Seq<ScanEntry>, label: Seq<char>)
    requires
        distinct_names(es),
    ensures
        forall|a: int, b: int|
            0 <= a < b < entries_of_label(cfg, es, label).len() ==> (#[trigger] entries_of_label(
                cfg,
                es,
                label,
            )[a]).name@ != (#[trigger] entries_of_label(cfg, es, label)[b]).name@,
    decreases es.len(),
{
    if es.len() > 0 {
        assert(distinct_names(es.drop_last())) by {
            assert(forall|a: int, b: int|
                0 <= a < b < es.len() - 1 ==> es.drop_last()[a] == es[a] && es.drop_last()[b]
                    == es[b]);
        }
        lemma_bucket_names_distinct(cfg, es.drop_last(), label);
        lemma_bucket_members(cfg, es.drop_last(), label);
        let bucket = entries_of_label(cfg, es, label);
        let rest = entries_of_label(cfg, es.drop_last(), label);
        assert forall|a: int, b: int| 0 <= a < b < bucket.len() implies (
        #[trigger] bucket[a]).name@ != (#[trigger] bucket[b]).name@ by {
            if b < rest.len() {
                assert(bucket[a] == rest[a] && bucket[b] == rest[b]);
            } else {
                assert(bucket[b] == es.last());
                assert(bucket[a] == rest[a]);
                assert(rest.contains(rest[a]));
                let c = choose|c: int|
                    0 <= c < es.drop_last().len() && es.drop_last()[c] == rest[a];
                assert(es[c] == rest[a]);
                assert(es[c].name@ != es[es.len() - 1].name@);
            }
        }
    }
}

proof fn lemma_file_items_members(cfg: NamingConfig, entries: Seq<ScanEntry>, labels: Seq<Seq<char>>)
    ensures
        forall|x: ScanEntry|
            #[trigger] items_for_labels(cfg, entries, labels).contains(
                BuildItem::File { entry: x },
            ) ==> entries.contains(x) && entry_matches(cfg, x) && labels.contains(
                entry_label(cfg, x),
            ),
    decreases labels.len(),
{
    if labels.len() > 0 {
        lemma_file_items_members(cfg, entries, labels.drop_last());
        lemma_bucket_members(cfg, entries, labels.last());
        let items = items_for_labels(cfg, entries, labels);
        let prior = items_for_labels(cfg, entries, labels.drop_last());
        let bucket = entries_of_label(cfg, entries, labels.last());
        let files = bucket.map_values(|e: ScanEntry| BuildItem::File { entry: e });
        assert(labels.contains(labels.last()));
        assert forall|x: Seq<char>| labels.drop_last().contains(x) implies labels.contains(x) by {
            let i = choose|i: int|
                0 <= i < labels.drop_last().len() && labels.drop_last()[i] == x;
            assert(labels[i] == x);
        }
        assert forall|x: ScanEntry| #[trigger] items.contains(
            BuildItem::File { entry: x },
        ) implies entries.contains(x) && entry_matches(cfg, x) && labels.contains(
            entry_label(cfg, x),
        ) by {
            let p = choose|p: int|
                0 <= p < items.len() && items[p] == BuildItem::File { entry: x };
            if p < prior.len() {
                assert(prior[p] == items[p]);
                assert(prior.contains(BuildItem::File { entry: x }));
            } else if p > prior.len() {
                assert(items[p] == files[p - prior.len() - 1]);
                assert(x == bucket[p - prior.len() - 1]);
                assert(bucket.contains(x));
            }
        }
    }
}

proof fn lemma_file_items_names_distinct(
    cfg: NamingConfig,
    entries: Seq<ScanEntry>,
    labels: Seq<Seq<char>>,
)
    requires
        distinct_labels(labels),
        distinct_names(entries),
    ensures
        forall|p: int, q: int|
            0 <= p < q < items_for_labels(cfg, entries, labels).len() && (
            #[trigger] items_for_labels(cfg, entries, labels)[p]) is File && (
            #[trigger] items_for_labels(cfg, entries, labels)[q]) is File ==> items_for_labels(
                cfg,
                entries,
                labels,
            )[p]->File_entry.name@ != items_for_labels(cfg, entries, labels)[q]->File_entry.name@,
    decreases labels.len(),
{
    if labels.len() > 0 {
        let rest = labels.drop_last();
        assert(distinct_labels(rest)) by {
            assert(forall|p: int, q: int|
                0 <= p < q < rest.len() ==> rest[p] == labels[p] && rest[q] == labels[q]);
        }
        lemma_file_items_names_distinct(cfg, entries, rest);
        lemma_file_items_members(cfg, entries, rest);
        lemma_bucket_members(cfg, entries, labels.last());
        lemma_bucket_names_distinct(cfg, entries, labels.last());
        let items = items_for_labels(cfg, entries, labels);
        let prior = items_for_labels(cfg, entries, rest);
        let bucket = entries_of_label(cfg, entries, labels.last());
        let files = bucket.map_values(|e: ScanEntry| BuildItem::File { entry: e });
        assert forall|p: int, q: int|
            0 <= p < q < items.len() && (#[trigger] items[p]) is File && (
            #[trigger] items[q]) is File implies items[p]->File_entry.name@
            != items[q]->File_entry.name@ by {
            let ep = items[p]->File_entry;
            let eq = items[q]->File_entry;
            if q < prior.len() {
                assert(items[p] == prior[p] && items[q] == prior[q]);
            } else if q > prior.len() {
                assert(items[q] == files[q - prior.len() - 1]);
                assert(eq == bucket[q - prior.len() - 1]);
                assert(bucket.contains(eq));
                assert(entry_label(cfg, eq) == labels.last());
                if p < prior.len() {
                    assert(items[p] == prior[p]);
                    assert(prior[p] == BuildItem::File { entry: ep });
                    assert(prior.contains(BuildItem::File { entry: ep }));
                    assert(rest.contains(entry_label(cfg, ep)));
                    let c = choose|c: int|
                        0 <= c < rest.len() && rest[c] == entry_label(cfg, ep);
                    assert(labels[c] == entry_label(cfg, ep));
                    if entry_label(cfg, ep) == labels.last() {
                        assert(labels[c] == labels[labels.len() - 1]);
                        assert(false);
                    }
                    if ep.name@ == eq.name@ {
                        assert(entry_label(cfg, ep) == entry_label(cfg, eq));
                    }
                } else if p > prior.len() {
                    assert(items[p] == files[p - prior.len() - 1]);
                    assert(ep == bucket[p - prior.len() - 1]);
                }
            }
        }
    }
}

proof fn lemma_label_present(cfg: NamingConfig, entries: Seq<ScanEntry>, k: int)
    requires
        0 <= k < entries.len(),
        entry_matches(cfg, entries[k]),
    ensures
        labels_in_order(cfg, entries).contains(entry_label(cfg, entries[k])),
    decreases entries.len(),
{
    let l = entry_label(cfg, entries[k]);
    let labels = labels_in_order(cfg, entries);
    let prefix = labels_in_order(cfg, entries.drop_last());
    if k == entries.len() - 1 {
        if prefix.contains(l) {
            if labels != prefix {
                let a = choose|a: int| 0 <= a < prefix.len() && prefix[a] == l;
                assert(labels[a] == l);
            }
        } else {
            assert(labels == prefix.push(l));
            assert(labels[labels.len() - 1] == l);
        }
    } else {
        assert(entries.drop_last()[k] == entries[k]);
        lemma_label_present(cfg, entries.drop_last(), k);
        let a = choose|a: int| 0 <= a < prefix.len() && prefix[a] == l;
        assert(labels[a] == l);
    }
}

proof fn lemma_bucket_has(cfg: NamingConfig, entries: Seq<ScanEntry>, k: int)
    requires
        0 <= k < entries.len(),
        entry_matches(cfg, entries[k]),
    ensures
        entries_of_label(cfg, entries, entry_label(cfg, entries[k])).contains(entries[k]),
    decreases entries.len(),
{
    let l = entry_label(cfg, entries[k]);
    let bucket = entries_of_label(cfg, entries, l);
    let rest = entries_of_label(cfg, entries.drop_last(), l);
    if k == entries.len() - 1 {
        assert(bucket == rest.push(entries[k]));
        assert(bucket[bucket.len() - 1] == entries[k]);
    } else {
        assert(entries.drop_last()[k] == entries[k]);
        lemma_bucket_has(cfg, entries.drop_last(), k);
        let a = choose|a: int| 0 <= a < rest.len() && rest[a] == entries[k];
        assert(bucket[a] == entries[k]);
    }
}

proof fn lemma_items_has_file(
    cfg: NamingConfig,
    entries: Seq<ScanEntry>,
    labels: Seq<Seq<char>>,
    l: Seq<char>,
    e: ScanEntry,
)
    requires
        labels.contains(l),
        entries_of_label(cfg, entries, l).contains(e),
    ensures
        items_for_labels(cfg, entries, labels).contains(BuildItem::File { entry: e }),
    decreases labels.len(),
{
    let items = items_for_labels(cfg, entries, labels);
    let prior = items_for_labels(cfg, entries, labels.drop_last());
    if labels.last() == l {
        let bucket = entries_of_label(cfg, entries, l);
        let files = bucket.map_values(|x: ScanEntry| BuildItem::File { entry: x });
        let a = choose|a: int| 0 <= a < bucket.len() && bucket[a] == e;
        assert(files[a] == BuildItem::File { entry: e });
        assert(items[prior.len() + 1 + a] == BuildItem::File { entry: e });
    } else {
        let i = choose|i: int| 0 <= i < labels.len() && labels[i] == l;
        assert(labels.drop_last()[i] == l);
        assert(labels.drop_last().contains(l));
        lemma_items_has_file(cfg, entries, labels.drop_last(), l, e);
        let p = choose|p: int| 0 <= p < prior.len() && prior[p] == BuildItem::File { entry: e };
        assert(items[p] == BuildItem::File { entry: e });
    }
}

proof fn lemma_items_has_dir(
    cfg: NamingConfig,
    entries: Seq<ScanEntry>,
    labels: Seq<Seq<char>>,
    l: Seq<char>,
)
    requires
        labels.contains(l),
    ensures
        items_for_labels(cfg, entries, labels).contains(BuildItem::Dir { label: l }),
    decreases labels.len(),
{
    let items = items_for_labels(cfg, entries, labels);
    let prior = items_for_labels(cfg, entries, labels.drop_last());
    if labels.last() == l {
        assert(items[prior.len() as int] == BuildItem::Dir { label: l });
    } else {
        let i = choose|i: int| 0 <= i < labels.len() && labels[i] == l;
        assert(labels.drop_last()[i] == l);
        assert(labels.drop_last().contains(l));
        lemma_items_has_dir(cfg, entries, labels.drop_last(), l);
        let p = choose|p: int| 0 <= p < prior.len() && prior[p] == BuildItem::Dir { label: l };
        assert(items[p] == BuildItem::Dir { label: l });
    }
}

/// Every file node's derived directory label is the display name of a
/// directory node after the root: its logical parent. Under the structural
/// invariant the labels of those directories are pairwise distinct, so the
/// parent is unique.
pub proof fn lemma_parent_exists(
    cfg: NamingConfig,
    nodes: Seq<SiftNode>,
    entries: Seq<ScanEntry>,
    i: int,
)
    requires
        nodes_realize(cfg, nodes, build_items(cfg, entries)),
        0 <= i < nodes.len(),
        nodes[i].is_file(),
    ensures
        exists|d: int|
            1 <= d < nodes.len() && !(#[trigger] nodes[d]).is_file() && nodes[d].spec_name()
                == nodes[i]->SiftFile_sift_directory@,
{
    let items = build_items(cfg, entries);
    let labels = labels_in_order(cfg, entries);
    let inner = items_for_labels(cfg, entries, labels);
    lemma_file_items_members(cfg, entries, labels);
    assert(node_matches_item(cfg, nodes[i], items[i], (i + 1) as u64));
    assert(items[i] is File);
    assert(i >= 1);
    assert(items[i] == inner[i - 1]);
    let e = items[i]->File_entry;
    assert(inner[i - 1] == BuildItem::File { entry: e });
    assert(inner.contains(BuildItem::File { entry: e }));
    let l = entry_label(cfg, e);
    assert(labels.contains(l));
    lemma_items_has_dir(cfg, entries, labels, l);
    let p = choose|p: int| 0 <= p < inner.len() && inner[p] == BuildItem::Dir { label: l };
    assert(items[p + 1] == BuildItem::Dir { label: l });
    assert(node_matches_item(cfg, nodes[p + 1], items[p + 1], (p + 2) as u64));
    assert(!nodes[p + 1].is_file() && nodes[p + 1].spec_name() == l);
    assert(nodes[i]->SiftFile_sift_directory@ == l);
}

/// Classification completeness: every entry whose filename matches the
/// pattern is realized by exactly one file node, which carries the entry's
/// filename as original name, the rendered display name, the derived label,
/// the source path and the probed size.
pub proof fn lemma_classification_completeness(
    cfg: NamingConfig,
    nodes: Seq<SiftNode>,
    entries: Seq<ScanEntry>,
    k: int,
)
    requires
        nodes_realize(cfg, nodes, build_items(cfg, entries)),
        distinct_names(entries),
        0 <= k < entries.len(),
        entry_matches(cfg, entries[k]),
    ensures
        exists|i: int|
            0 <= i < nodes.len() && #[trigger] file_node_for(cfg, nodes[i], entries[k]),
        forall|i: int, j: int|
            0 <= i < nodes.len() && 0 <= j < nodes.len() && #[trigger] file_node_for(
                cfg,
                nodes[i],
                entries[k],
            ) && #[trigger] file_node_for(cfg, nodes[j], entries[k]) ==> i == j,
{
    let items = build_items(cfg, entries);
    let labels = labels_in_order(cfg, entries);
    let inner = items_for_labels(cfg, entries, labels);
    let l = entry_label(cfg, entries[k]);
    lemma_labels_in_order_distinct(cfg, entries);
    lemma_label_present(cfg, entries, k);
    lemma_bucket_has(cfg, entries, k);
    lemma_items_has_file(cfg, entries, labels, l, entries[k]);
    let p = choose|p: int|
        0 <= p < inner.len() && inner[p] == BuildItem::File { entry: entries[k] };
    assert(items[p + 1] == BuildItem::File { entry: entries[k] });
    assert(node_matches_item(cfg, nodes[p + 1], items[p + 1], (p + 2) as u64));
    assert(file_node_for(cfg, nodes[p + 1], entries[k]));

    lemma_file_items_names_distinct(cfg, entries, labels);
    assert forall|i: int, j: int|
        0 <= i < nodes.len() && 0 <= j < nodes.len() && #[trigger] file_node_for(
            cfg,
            nodes[i],
            entries[k],
        ) && #[trigger] file_node_for(cfg, nodes[j], entries[k]) implies i == j by {
        assert(node_matches_item(cfg, nodes[i], items[i], (i + 1) as u64));
        assert(node_matches_item(cfg, nodes[j], items[j], (j + 1) as u64));
        assert(items[i] is File && items[j] is File);
        assert(i >= 1 && j >= 1);
        assert(items[i] == inner[i - 1] && items[j] == inner[j - 1]);
        assert(inner[i - 1]->File_entry.name@ == entries[k].name@);
        assert(inner[j - 1]->File_entry.name@ == entries[k].name@);
        if i < j {
            assert(false);
        }
        if j < i {
            assert(false);
        }
    }
}

/// Skip property: an entry whose filename does not match the pattern leaves
/// no node behind — no file node carries its filename as original name. The
/// build itself does not fail on such an entry: by the build's contract only
/// a configuration error makes it fail.
pub proof fn lemma_skip_property(
    cfg: NamingConfig,
    nodes: Seq<SiftNode>,
    entries: Seq<ScanEntry>,
    k: int,
)
    requires
        nodes_realize(cfg, nodes, build_items(cfg, entries)),
        0 <= k < entries.len(),
        !entry_matches(cfg, entries[k]),
    ensures
        forall|i: int|
            0 <= i < nodes.len() && (#[trigger] nodes[i]).is_file()
                ==> nodes[i]->SiftFile_original_name@ != entries[k].name@,
{
    let items = build_items(cfg, entries);
    let labels = labels_in_order(cfg, entries);
    let inner = items_for_labels(cfg, entries, labels);
    lemma_file_items_members(cfg, entries, labels);
    assert forall|i: int|
        0 <= i < nodes.len() && (#[trigger] nodes[i]).is_file() implies
        nodes[i]->SiftFile_original_name@ != entries[k].name@ by {
        assert(node_matches_item(cfg, nodes[i], items[i], (i + 1) as u64));
        assert(items[i] is File);
        assert(i >= 1);
        assert(items[i] == inner[i - 1]);
        let e = items[i]->File_entry;
        assert(inner[i - 1] == BuildItem::File { entry: e });
        assert(inner.contains(BuildItem::File { entry: e }));
        assert(entry_matches(cfg, e));
        assert(nodes[i]->SiftFile_original_name@ == e.name@);
        if e.name@ == entries[k].name@ {
            assert(classify_spec(cfg, e.name@) == classify_spec(cfg, entries[k].name@));
            assert(false);
        }
    }
}

/// Identifier uniqueness: distinct nodes carry distinct identifiers, and
/// identifier 1 always denotes the root directory.
pub proof fn lemma_identifier_uniqueness(fs: SiftFilesystem)
    requires
        fs.wf(),
    ensures
        forall|i: int, j: int|
            0 <= i < j < fs.nodes@.len() ==> (#[trigger] fs.nodes@[i]).spec_inode() != (
            #[trigger] fs.nodes@[j]).spec_inode(),
        fs.nodes@[0].spec_inode() == 1,
        fs.nodes@[0] is SiftDirectory,
{
}

proof fn lemma_wf_from_realize(cfg: NamingConfig, nodes: Seq<SiftNode>, entries: Seq<ScanEntry>)
    requires
        nodes_realize(cfg, nodes, build_items(cfg, entries)),
        nodes.len() <= 0x7fff_ffff_ffff_ffff,
    ensures
        nodes.len() >= 1,
        forall|i: int| 0 <= i < nodes.len() ==> (#[trigger] nodes[i]).spec_inode() == i + 1,
        forall|i: int| 0 <= i < nodes.len() ==> (#[trigger] nodes[i]).spec_offset() == i + 1,
        nodes[0] is SiftDirectory,
        nodes[0].spec_name() == "/"@,
        forall|i: int, j: int|
            1 <= i < j < nodes.len() && !(#[trigger] nodes[i]).is_file() && !(
            #[trigger] nodes[j]).is_file() ==> nodes[i].spec_name() != nodes[j].spec_name(),
{
    let items = build_items(cfg, entries);
    let labels = labels_in_order(cfg, entries);
    let inner = items_for_labels(cfg, entries, labels);
    lemma_labels_in_order_distinct(cfg, entries);
    lemma_dir_items_distinct(cfg, entries, labels);
    assert(items[0] == root_item());
    assert(node_matches_item(cfg, nodes[0], items[0], 1));
    assert forall|i: int| 0 <= i < nodes.len() implies (#[trigger] nodes[i]).spec_inode() == i + 1
        && nodes[i].spec_offset() == i + 1 by {
        assert(node_matches_item(cfg, nodes[i], items[i], (i + 1) as u64));
        assert((i + 1) as u64 == i + 1);
        assert(((i + 1) as u64) as i64 == i + 1);
    }
    assert forall|i: int, j: int|
        1 <= i < j < nodes.len() && !(#[trigger] nodes[i]).is_file() && !(
        #[trigger] nodes[j]).is_file() implies nodes[i].spec_name() != nodes[j].spec_name() by {
        assert(node_matches_item(cfg, nodes[i], items[i], (i + 1) as u64));
        assert(node_matches_item(cfg, nodes[j], items[j], (j + 1) as u64));
        assert(items[i] == inner[i - 1] && items[j] == inner[j - 1]);
        assert(items[i] is Dir && items[j] is Dir);
        assert(nodes[i].spec_name() == items[i]->Dir_label);
        assert(nodes[j].spec_name() == items[j]->Dir_label);
    }
}

} // verus!
