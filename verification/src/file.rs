//! The walker: types for filesystem snapshots and the materialized entry
//! tree, and the traversal that aggregates sizes across the depth cutoff.

use vstd::prelude::*;

verus! {

/// The classification of a filesystem entry, derived once from metadata.
#[derive(Clone, Copy, PartialEq, Eq, Structural, Debug)]
pub enum FileKind {
    Directory,
    File,
    Symlink,
    Unknown,
}

/// One node of a filesystem snapshot, as handed to the walker.
///
/// The snapshot is taken outside the library: every node carries the plain
/// values the walk logic reads (name, hidden verdict of the platform's
/// predicate, seconds since creation, byte length).  Failures observed while
/// taking the snapshot are recorded as nodes of their own, so the walker's
/// failure tolerance is part of the verified logic.
pub enum FsTree {
    /// A directory whose metadata and creation time could be read.
    /// `listing` is `None` exactly when opening the directory for
    /// enumeration failed.
    Dir { name: String, hidden: bool, created: u64, listing: Option<Vec<FsTree>> },
    /// A non-directory entry whose metadata and creation time could be read.
    Leaf { name: String, hidden: bool, kind: FileKind, created: u64, size: u64 },
    /// An entry whose metadata or creation time could not be read.
    MetaError { name: String },
}

/// The outcome of a walk call: a materialized entry, or a bare size when the
/// root itself could not be enumerated.
pub enum GetFile {
    File(FileInfo),
    Size(u64),
}

/// One materialized node of the entry tree built by the walker.
pub struct FileInfo {
    pub file_level: u8,
    pub file_name: String,
    pub file_kind: FileKind,
    pub created: u64,
    pub file_size: u64,
    pub sub_files: Option<Vec<GetFile>>,
}

/// The mathematical model of a walk outcome.
#[verifier::ext_equal]
pub enum GfModel {
    File(FiModel),
    Size(u64),
}

/// The mathematical model of a materialized entry.
#[verifier::ext_equal]
pub struct FiModel {
    pub level: u8,
    pub name: Seq<char>,
    pub kind: FileKind,
    pub created: u64,
    pub size: u64,
    pub subs: Option<Seq<GfModel>>,
}

/// A sum clipped to the largest representable size.
pub open spec fn sat64(n: int) -> u64 {
    if n > u64::MAX {
        u64::MAX
    } else {
        n as u64
    }
}

/// Whether a snapshot node is marked hidden by the platform's predicate.
pub open spec fn node_hidden(t: FsTree) -> bool {
    match t {
        FsTree::Dir { hidden, .. } => hidden,
        FsTree::Leaf { hidden, .. } => hidden,
        FsTree::MetaError { .. } => false,
    }
}

/// The full recursive byte total of a directory node's contents, under the
/// per-entry rules: entries without metadata contribute nothing, hidden
/// entries contribute nothing unless `show_hidden`, an unreadable listing
/// contributes nothing.  Independent of any depth cutoff.
pub open spec fn dir_size(t: FsTree, show_hidden: bool) -> int
    decreases t, 0int, 0int,
{
    match t {
        FsTree::Dir { listing: Some(entries), .. } => entries_size(entries@, entries@.len() as int, show_hidden),
        _ => 0,
    }
}

/// The summed contributions of the first `i` entries of a sibling listing.
pub open spec fn entries_size(es: Seq<FsTree>, i: int, show_hidden: bool) -> int
    decreases es, 1int, i,
{
    if i <= 0 || i > es.len() {
        0
    } else {
        entries_size(es, i - 1, show_hidden) + entry_contrib(es[i - 1], show_hidden)
    }
}

/// What one entry of a directory listing contributes to its parent's size.
pub open spec fn entry_contrib(t: FsTree, show_hidden: bool) -> int
    decreases t, 0int, 1int,
{
    match t {
        FsTree::MetaError { .. } => 0,
        FsTree::Leaf { hidden, size, .. } => if hidden && !show_hidden {
            0
        } else {
            size as int
        },
        FsTree::Dir { hidden, .. } => if hidden && !show_hidden {
            0
        } else {
            dir_size(t, show_hidden)
        },
    }
}

/// The model of a walk outcome.
pub open spec fn gf_view(g: GetFile) -> GfModel
    decreases g, 0int, 1int,
{
    match g {
        GetFile::File(f) => GfModel::File(fi_view(f)),
        GetFile::Size(s) => GfModel::Size(s),
    }
}

/// The model of a materialized entry.
pub open spec fn fi_view(f: FileInfo) -> FiModel
    decreases f, 0int, 0int,
{
    FiModel {
        level: f.file_level,
        name: f.file_name@,
        kind: f.file_kind,
        created: f.created,
        size: f.file_size,
        subs: match f.sub_files {
            Some(v) => Some(gfs_view(v@, v@.len() as int)),
            None => None,
        },
    }
}

/// The models of the first `i` elements of a sibling list.
pub open spec fn gfs_view(s: Seq<GetFile>, i: int) -> Seq<GfModel>
    decreases s, 1int, i,
{
    if i <= 0 || i > s.len() {
        Seq::empty()
    } else {
        gfs_view(s, i - 1).push(gf_view(s[i - 1]))
    }
}

/// The size carried by a walk outcome.
pub open spec fn gf_size(m: GfModel) -> u64 {
    match m {
        GfModel::File(f) => f.size,
        GfModel::Size(s) => s,
    }
}

/// What the walk returns on a snapshot node taken as root: a materialized
/// entry for a directory that could be enumerated, a bare zero size
/// otherwise.  The entry's size is the full recursive total of the
/// directory's contents, whatever `levels` says.
pub open spec fn spec_get_files(t: FsTree, cur: u8, levels: u8, show_hidden: bool) -> GfModel
    decreases t, 0int, 0int,
{
    match t {
        FsTree::Dir { name, hidden: _, created, listing: Some(entries) } => GfModel::File(
            FiModel {
                level: (cur - 1) as u8,
                name: name@,
                kind: FileKind::Directory,
                created,
                size: sat64(entries_size(entries@, entries@.len() as int, show_hidden)),
                subs: Some(
                    spec_children(entries@, entries@.len() as int, cur, levels, show_hidden),
                ),
            },
        ),
        _ => GfModel::Size(0),
    }
}

/// The walk outcomes contributed by the first `i` entries of a listing.
pub open spec fn spec_children(es: Seq<FsTree>, i: int, cur: u8, levels: u8, show_hidden: bool) -> Seq<GfModel>
    decreases es, 1int, i,
{
    if i <= 0 || i > es.len() {
        Seq::empty()
    } else {
        spec_children(es, i - 1, cur, levels, show_hidden) + spec_child(
            es[i - 1],
            cur,
            levels,
            show_hidden,
        )
    }
}

/// What one entry of a listing adds to its parent's child list: nothing for
/// an entry without metadata or a filtered hidden entry, a leaf node for a
/// file, a size-only rollup node for a directory at the depth cutoff, and a
/// recursive walk outcome below the cutoff.
pub open spec fn spec_child(t: FsTree, cur: u8, levels: u8, show_hidden: bool) -> Seq<GfModel>
    decreases t, 0int, 1int,
{
    match t {
        FsTree::MetaError { .. } => Seq::empty(),
        FsTree::Leaf { name, hidden, kind, created, size } => if hidden && !show_hidden {
            Seq::empty()
        } else {
            seq![
                GfModel::File(
                    FiModel {
                        level: cur,
                        name: name@,
                        kind,
                        created,
                        size,
                        subs: None,
                    },
                ),
            ]
        },
        FsTree::Dir { name, hidden, created, .. } => if hidden && !show_hidden {
            Seq::empty()
        } else if cur >= levels {
            seq![
                GfModel::File(
                    FiModel {
                        level: cur,
                        name: name@,
                        kind: FileKind::Directory,
                        created,
                        size: sat64(dir_size(t, show_hidden)),
                        subs: None,
                    },
                ),
            ]
        } else {
            seq![spec_get_files(t, (cur + 1) as u8, levels, show_hidden)]
        },
    }
}

/// Every directory total and every entry contribution is nonnegative.
pub proof fn lemma_dir_size_nonneg(t: FsTree, show_hidden: bool)
    ensures
        dir_size(t, show_hidden) >= 0,
        entry_contrib(t, show_hidden) >= 0,
    decreases t, 0int, 1int,
{
    match t {
        FsTree::Dir { listing: Some(entries), .. } => {
            lemma_entries_size_nonneg(entries@, entries@.len() as int, show_hidden);
        },
        _ => {},
    }
}

/// Prefix sums of entry contributions are nonnegative.
pub proof fn lemma_entries_size_nonneg(es: Seq<FsTree>, i: int, show_hidden: bool)
    ensures
        entries_size(es, i, show_hidden) >= 0,
    decreases es, 1int, i,
{
    if i <= 0 || i > es.len() {
    } else {
        lemma_entries_size_nonneg(es, i - 1, show_hidden);
        lemma_dir_size_nonneg(es[i - 1], show_hidden);
    }
}

/// Clipping distributes over addition of clipped summands.
proof fn lemma_sat_add(a: int, b: int)
    requires
        a >= 0,
        b >= 0,
    ensures
        sat64(sat64(a) as int + sat64(b) as int) == sat64(a + b),
{
}

/// The model of a prefix ignores elements pushed past it.
proof fn lemma_gfs_view_push(s: Seq<GetFile>, g: GetFile, i: int)
    requires
        0 <= i <= s.len(),
    ensures
        gfs_view(s.push(g), i) == gfs_view(s, i),
    decreases i,
{
    if i <= 0 {
    } else {
        lemma_gfs_view_push(s, g, i - 1);
        assert(s.push(g)[i - 1] == s[i - 1]);
    }
}

/// Addition clipped at the largest representable size.
pub fn sat_add_u64(a: u64, b: u64) -> (r: u64)
    ensures
        r == sat64(a as int + b as int),
{
    if a <= u64::MAX - b {
        a + b
    } else {
        u64::MAX
    }
}

/// Reads the size a walk outcome carries.
pub fn get_file_size(g: &GetFile) -> (r: u64)
    ensures
        r == gf_size(gf_view(*g)),
{
    match g {
        GetFile::File(f) => f.file_size,
        GetFile::Size(s) => *s,
    }
}


/// The size-only recursive sum used beneath the depth cutoff: the full
/// recursive byte total of a directory's contents, clipped at `u64::MAX`,
/// under the same per-entry rules as the materializing walk.  A node that is
/// not an enumerable directory contributes nothing.
#[verifier::loop_isolation(false)]
pub fn get_files_oos(t: &FsTree, show_hidden: bool) -> (r: u64)
    ensures
        r == sat64(dir_size(*t, show_hidden)),
    decreases *t,
{
    match t {
        FsTree::Dir { listing: Some(entries), .. } => {
            let ghost es = entries@;
            let mut size: u64 = 0;
            let mut idx: usize = 0;
            while idx < entries.len()
                invariant
                    idx <= es.len(),
                    size == sat64(entries_size(es, idx as int, show_hidden)),
                decreases es.len() - idx,
            {
                let e = &entries[idx];
                proof {
                    lemma_entries_size_nonneg(es, idx as int, show_hidden);
                    lemma_dir_size_nonneg(es[idx as int], show_hidden);
                }
                match e {
                    FsTree::MetaError { .. } => {},
                    FsTree::Leaf { hidden, size: esize, .. } => {
                        if !(*hidden && !show_hidden) {
                            size = sat_add_u64(size, *esize);
                            proof {
                                lemma_sat_add(
                                    entries_size(es, idx as int, show_hidden),
                                    *esize as int,
                                );
                            }
                        }
                    },
                    FsTree::Dir { hidden, .. } => {
                        if !(*hidden && !show_hidden) {
                            proof {
                                assert(decreases_to!(*t => (*t)->Dir_listing));
                                assert(decreases_to!((*t)->Dir_listing => (*t)->Dir_listing->0));
                                assert((*t)->Dir_listing->0 == *entries);
                                assert(decreases_to!(*entries => entries@));
                                assert(decreases_to!(entries@ => entries@[idx as int]));
                                assert(decreases_to!(*t => es[idx as int]));
                            }
                            let sub = get_files_oos(e, show_hidden);
                            size = sat_add_u64(size, sub);
                            proof {
                                lemma_sat_add(
                                    entries_size(es, idx as int, show_hidden),
                                    dir_size(es[idx as int], show_hidden),
                                );
                            }
                        }
                    },
                }
                idx = idx + 1;
            }
            size
        },
        _ => 0,
    }
}

/// The walker.  Builds the materialized entry tree for a snapshot node taken
/// as root: a directory that could be enumerated yields an entry whose size
/// is the full recursive total of its contents (clipped at `u64::MAX`) and
/// whose children follow the per-entry rules — entries without metadata are
/// skipped, hidden entries are skipped unless `show_hidden`, files become
/// leaves, directories at the depth cutoff become size-only rollup leaves,
/// directories below it are walked recursively.  Any other root yields a
/// bare zero size.  One unreadable subtree never aborts the walk: it shows
/// up as a zero-size outcome among its siblings.
#[verifier::loop_isolation(false)]
pub fn get_files(t: &FsTree, current_level: u8, levels: u8, show_hidden: bool) -> (r: GetFile)
    requires
        1 <= current_level,
    ensures
        gf_view(r) == spec_get_files(*t, current_level, levels, show_hidden),
    decreases *t,
{
    match t {
        FsTree::Dir { name, hidden: _, created, listing: Some(entries) } => {
            let ghost es = entries@;
            let mut sub_files: Vec<GetFile> = Vec::new();
            let mut size: u64 = 0;
            let mut idx: usize = 0;
            while idx < entries.len()
                invariant
                    idx <= es.len(),
                    gfs_view(sub_files@, sub_files@.len() as int) == spec_children(
                        es,
                        idx as int,
                        current_level,
                        levels,
                        show_hidden,
                    ),
                    size == sat64(entries_size(es, idx as int, show_hidden)),
                decreases es.len() - idx,
            {
                let e = &entries[idx];
                proof {
                    lemma_entries_size_nonneg(es, idx as int, show_hidden);
                    lemma_dir_size_nonneg(es[idx as int], show_hidden);
                }
                let ghost pre_subs = sub_files@;
                match e {
                    FsTree::MetaError { .. } => {
                        proof {
                            assert(spec_child(
                                es[idx as int],
                                current_level,
                                levels,
                                show_hidden,
                            ) =~~= Seq::<GfModel>::empty());
                            assert(gfs_view(sub_files@, sub_files@.len() as int)
                                =~~= spec_children(
                                es,
                                idx as int + 1,
                                current_level,
                                levels,
                                show_hidden,
                            ));
                        }
                    },
                    FsTree::Leaf { name: ename, hidden, kind, created: ecreated, size: esize } => {
                        if !(*hidden && !show_hidden) {
                            sub_files.push(
                                GetFile::File(
                                    FileInfo {
                                        file_level: current_level,
                                        file_name: ename.clone(),
                                        file_kind: *kind,
                                        created: *ecreated,
                                        file_size: *esize,
                                        sub_files: None,
                                    },
                                ),
                            );
                            size = sat_add_u64(size, *esize);
                            proof {
                                lemma_sat_add(
                                    entries_size(es, idx as int, show_hidden),
                                    *esize as int,
                                );
                                lemma_gfs_view_push(
                                    pre_subs,
                                    sub_files@[pre_subs.len() as int],
                                    pre_subs.len() as int,
                                );
                                assert(sub_files@ == pre_subs.push(
                                    sub_files@[pre_subs.len() as int],
                                ));
                                assert(gfs_view(sub_files@, sub_files@.len() as int)
                                    == gfs_view(pre_subs, pre_subs.len() as int).push(
                                    gf_view(sub_files@[pre_subs.len() as int]),
                                ));
                                assert(gf_view(sub_files@[pre_subs.len() as int])
                                    == spec_child(
                                    es[idx as int],
                                    current_level,
                                    levels,
                                    show_hidden,
                                )[0]);
                                assert(gfs_view(sub_files@, sub_files@.len() as int)
                                    =~~= spec_children(
                                    es,
                                    idx as int + 1,
                                    current_level,
                                    levels,
                                    show_hidden,
                                ));
                            }
                        } else {
                            proof {
                                assert(spec_child(
                                    es[idx as int],
                                    current_level,
                                    levels,
                                    show_hidden,
                                ) =~~= Seq::<GfModel>::empty());
                                assert(gfs_view(sub_files@, sub_files@.len() as int)
                                    =~~= spec_children(
                                    es,
                                    idx as int + 1,
                                    current_level,
                                    levels,
                                    show_hidden,
                                ));
                            }
                        }
                    },
                    FsTree::Dir { name: ename, hidden, created: ecreated, .. } => {
                        if !(*hidden && !show_hidden) {
                            proof {
                                assert(decreases_to!(*t => (*t)->Dir_listing));
                                assert(decreases_to!((*t)->Dir_listing => (*t)->Dir_listing->0));
                                assert((*t)->Dir_listing->0 == *entries);
                                assert(decreases_to!(*entries => entries@));
                                assert(decreases_to!(entries@ => entries@[idx as int]));
                                assert(decreases_to!(*t => es[idx as int]));
                            }
                            let child = if current_level >= levels {
                                let rollup = get_files_oos(e, show_hidden);
                                GetFile::File(
                                    FileInfo {
                                        file_level: current_level,
                                        file_name: ename.clone(),
                                        file_kind: FileKind::Directory,
                                        created: *ecreated,
                                        file_size: rollup,
                                        sub_files: None,
                                    },
                                )
                            } else {
                                get_files(e, current_level + 1, levels, show_hidden)
                            };
                            let child_size = get_file_size(&child);
                            size = sat_add_u64(size, child_size);
                            sub_files.push(child);
                            proof {
                                lemma_sat_add(
                                    entries_size(es, idx as int, show_hidden),
                                    dir_size(es[idx as int], show_hidden),
                                );
                                lemma_gfs_view_push(
                                    pre_subs,
                                    sub_files@[pre_subs.len() as int],
                                    pre_subs.len() as int,
                                );
                                assert(sub_files@ == pre_subs.push(
                                    sub_files@[pre_subs.len() as int],
                                ));
                                assert(gfs_view(sub_files@, sub_files@.len() as int)
                                    == gfs_view(pre_subs, pre_subs.len() as int).push(
                                    gf_view(sub_files@[pre_subs.len() as int]),
                                ));
                                assert(gf_view(sub_files@[pre_subs.len() as int])
                                    == spec_child(
                                    es[idx as int],
                                    current_level,
                                    levels,
                                    show_hidden,
                                )[0]);
                                assert(gfs_view(sub_files@, sub_files@.len() as int)
                                    =~~= spec_children(
                                    es,
                                    idx as int + 1,
                                    current_level,
                                    levels,
                                    show_hidden,
                                ));
                            }
                        } else {
                            proof {
                                assert(spec_child(
                                    es[idx as int],
                                    current_level,
                                    levels,
                                    show_hidden,
                                ) =~~= Seq::<GfModel>::empty());
                                assert(gfs_view(sub_files@, sub_files@.len() as int)
                                    =~~= spec_children(
                                    es,
                                    idx as int + 1,
                                    current_level,
                                    levels,
                                    show_hidden,
                                ));
                            }
                        }
                    },
                }
                idx = idx + 1;
            }
            let result = GetFile::File(
                FileInfo {
                    file_level: current_level - 1,
                    file_name: name.clone(),
                    file_kind: FileKind::Directory,
                    created: *created,
                    file_size: size,
                    sub_files: Some(sub_files),
                },
            );
            proof {
                assert(gf_view(result) =~~= spec_get_files(
                    *t,
                    current_level,
                    levels,
                    show_hidden,
                ));
            }
            result
        },
        _ => GetFile::Size(0),
    }
}


/// The sum of the sizes carried by the first `i` outcomes of a sibling list.
pub open spec fn gf_sizes_sum(s: Seq<GfModel>, i: int) -> int
    decreases i,
{
    if i <= 0 || i > s.len() {
        0
    } else {
        gf_sizes_sum(s, i - 1) + gf_size(s[i - 1]) as int
    }
}

/// The sum of outcome sizes looks only at the elements it ranges over.
proof fn lemma_gf_sizes_sum_prefix(s1: Seq<GfModel>, s2: Seq<GfModel>, i: int)
    requires
        i <= s1.len(),
        i <= s2.len(),
        forall|j: int| 0 <= j < i ==> s1[j] == s2[j],
    ensures
        gf_sizes_sum(s1, i) == gf_sizes_sum(s2, i),
    decreases i,
{
    if i > 0 {
        lemma_gf_sizes_sum_prefix(s1, s2, i - 1);
    }
}

/// A prefix sum of entry contributions never exceeds a longer one, and any
/// single contribution in range is bounded by the whole.
proof fn lemma_entries_size_mono(es: Seq<FsTree>, j: int, i: int, show_hidden: bool)
    requires
        0 <= j < i <= es.len(),
    ensures
        entry_contrib(es[j], show_hidden) <= entries_size(es, i, show_hidden),
        entries_size(es, j, show_hidden) + entry_contrib(es[j], show_hidden) <= entries_size(
            es,
            i,
            show_hidden,
        ),
    decreases i,
{
    lemma_dir_size_nonneg(es[j], show_hidden);
    lemma_entries_size_nonneg(es, j, show_hidden);
    if j + 1 == i {
    } else {
        lemma_entries_size_mono(es, j, i - 1, show_hidden);
        lemma_dir_size_nonneg(es[i - 1], show_hidden);
    }
}

/// The size the walk reports for a root is the full recursive total of its
/// contents, clipped at `u64::MAX` — whatever the depth cutoff `levels`
/// says.  The cutoff decides only which nodes are materialized.
pub proof fn lemma_walk_size_depth_independent(t: FsTree, cur: u8, levels: u8, show_hidden: bool)
    ensures
        gf_size(spec_get_files(t, cur, levels, show_hidden)) == sat64(dir_size(t, show_hidden)),
{
    match t {
        FsTree::Dir { listing: Some(entries), .. } => {},
        _ => {},
    }
}

/// The summed sizes of the walk outcomes for the first `i` entries equal the
/// summed contributions of those entries, as long as the whole listing's
/// total fits in a `u64` (so no child total is clipped).
proof fn lemma_children_sizes(
    es: Seq<FsTree>,
    i: int,
    cur: u8,
    levels: u8,
    show_hidden: bool,
)
    requires
        0 <= i <= es.len(),
        entries_size(es, es.len() as int, show_hidden) <= u64::MAX,
    ensures
        gf_sizes_sum(
            spec_children(es, i, cur, levels, show_hidden),
            spec_children(es, i, cur, levels, show_hidden).len() as int,
        ) == entries_size(es, i, show_hidden),
    decreases i,
{
    if i <= 0 {
    } else {
        lemma_children_sizes(es, i - 1, cur, levels, show_hidden);
        let prev = spec_children(es, i - 1, cur, levels, show_hidden);
        let last = spec_child(es[i - 1], cur, levels, show_hidden);
        let whole = spec_children(es, i, cur, levels, show_hidden);
        assert(whole == prev + last);
        lemma_gf_sizes_sum_prefix(whole, prev, prev.len() as int);
        if i < es.len() {
            lemma_entries_size_mono(es, i - 1, es.len() as int, show_hidden);
        }
        lemma_entries_size_nonneg(es, i - 1, show_hidden);
        lemma_dir_size_nonneg(es[i - 1], show_hidden);
        assert(entry_contrib(es[i - 1], show_hidden) <= u64::MAX);
        match es[i - 1] {
            FsTree::MetaError { .. } => {
                assert(whole =~= prev);
                lemma_gf_sizes_sum_prefix(whole, prev, prev.len() as int);
            },
            FsTree::Leaf { hidden, size, .. } => {},
            FsTree::Dir { hidden, .. } => {
                if !(hidden && !show_hidden) {
                    if cur < levels {
                        lemma_walk_size_depth_independent(
                            es[i - 1],
                            (cur + 1) as u8,
                            levels,
                            show_hidden,
                        );
                    }
                }
            },
        }
    }
}

/// The aggregation invariant of a materialized directory: its size equals
/// the sum of its children's sizes, as long as the true total fits in a
/// `u64`.
pub proof fn lemma_walk_children_sum(t: FsTree, cur: u8, levels: u8, show_hidden: bool)
    requires
        dir_size(t, show_hidden) <= u64::MAX,
    ensures
        spec_get_files(t, cur, levels, show_hidden) matches GfModel::File(f) ==> {
            &&& f.subs matches Some(s)
            &&& f.size == gf_sizes_sum(f.subs->0, f.subs->0.len() as int)
        },
{
    match t {
        FsTree::Dir { listing: Some(entries), .. } => {
            lemma_entries_size_nonneg(entries@, entries@.len() as int, show_hidden);
            lemma_children_sizes(
                entries@,
                entries@.len() as int,
                cur,
                levels,
                show_hidden,
            );
        },
        _ => {},
    }
}

/// At or past the depth cutoff the walk materializes a single flat level:
/// every child of the returned entry is a leaf-like node without children of
/// its own, while the entry's size is still the full recursive total.
pub proof fn lemma_depth_floor(t: FsTree, cur: u8, levels: u8, show_hidden: bool)
    requires
        levels <= cur,
    ensures
        spec_get_files(t, cur, levels, show_hidden) matches GfModel::File(f) ==> {
            &&& f.size == sat64(dir_size(t, show_hidden))
            &&& f.subs matches Some(s)
            &&& forall|j: int|
                0 <= j < s.len() ==> (#[trigger] s[j] matches GfModel::File(c) && c.subs
                    is None)
        },
{
    match t {
        FsTree::Dir { listing: Some(entries), .. } => {
            lemma_depth_floor_children(entries@, entries@.len() as int, cur, levels, show_hidden);
        },
        _ => {},
    }
}

/// At or past the cutoff, every walk outcome of a listing is a childless
/// materialized node.
proof fn lemma_depth_floor_children(es: Seq<FsTree>, i: int, cur: u8, levels: u8, show_hidden: bool)
    requires
        levels <= cur,
        i <= es.len(),
    ensures
        forall|j: int|
            0 <= j < spec_children(es, i, cur, levels, show_hidden).len()
                ==> (#[trigger] spec_children(es, i, cur, levels, show_hidden)[j] matches
                GfModel::File(c) && c.subs is None),
    decreases i,
{
    if i > 0 {
        lemma_depth_floor_children(es, i - 1, cur, levels, show_hidden);
        let prev = spec_children(es, i - 1, cur, levels, show_hidden);
        let last = spec_child(es[i - 1], cur, levels, show_hidden);
        let whole = spec_children(es, i, cur, levels, show_hidden);
        assert(whole == prev + last);
        assert forall|j: int| 0 <= j < whole.len() implies (#[trigger] whole[j] matches
            GfModel::File(c) && c.subs is None) by {
            if j < prev.len() {
                assert(whole[j] == prev[j]);
            } else {
                assert(whole[j] == last[j - prev.len()]);
                match es[i - 1] {
                    FsTree::MetaError { .. } => {},
                    FsTree::Leaf { .. } => {},
                    FsTree::Dir { .. } => {},
                }
            }
        }
    }
}

/// Sums of entry contributions depend only on the entries in range.
proof fn lemma_entries_size_agree(es1: Seq<FsTree>, es2: Seq<FsTree>, i: int, show_hidden: bool)
    requires
        i <= es1.len(),
        i <= es2.len(),
        forall|j: int| 0 <= j < i ==> es1[j] == es2[j],
    ensures
        entries_size(es1, i, show_hidden) == entries_size(es2, i, show_hidden),
    decreases i,
{
    if i > 0 {
        lemma_entries_size_agree(es1, es2, i - 1, show_hidden);
    }
}

/// Hidden filtering is all-or-nothing per entry.  Removing entry `k` from a
/// listing changes the listing's total by exactly that entry's contribution:
/// zero when the entry is hidden and filtering is on, its full recursive
/// size otherwise.  Applied along a path of ancestors, a hidden subtree
/// therefore contributes zero to every ancestor's total when filtering is
/// on, and its full recursive size when it is off.
pub proof fn lemma_hidden_all_or_nothing(es: Seq<FsTree>, k: int, show_hidden: bool)
    requires
        0 <= k < es.len(),
    ensures
        entries_size(es, es.len() as int, show_hidden) == entries_size(
            es.remove(k),
            es.len() as int - 1,
            show_hidden,
        ) + entry_contrib(es[k], show_hidden),
        node_hidden(es[k]) && !show_hidden ==> entry_contrib(es[k], show_hidden) == 0,
        (node_hidden(es[k]) && show_hidden && es[k] matches FsTree::Dir { .. })
            ==> entry_contrib(es[k], show_hidden) == dir_size(es[k], show_hidden),
{
    lemma_entries_size_remove(es, k, es.len() as int, show_hidden);
}

/// Removing one entry lowers a covering prefix sum by exactly that entry's
/// contribution.
proof fn lemma_entries_size_remove(es: Seq<FsTree>, k: int, i: int, show_hidden: bool)
    requires
        0 <= k < i <= es.len(),
    ensures
        entries_size(es, i, show_hidden) == entries_size(es.remove(k), i - 1, show_hidden)
            + entry_contrib(es[k], show_hidden),
    decreases i,
{
    if i - 1 == k {
        lemma_entries_size_agree(es, es.remove(k), k, show_hidden);
    } else {
        lemma_entries_size_remove(es, k, i - 1, show_hidden);
        assert(es.remove(k)[i - 2] == es[i - 1]);
    }
}


/// A prefix view has one model per element viewed.
pub proof fn lemma_gfs_view_len(s: Seq<GetFile>, i: int)
    requires
        0 <= i <= s.len(),
    ensures
        gfs_view(s, i).len() == i,
    decreases i,
{
    if i > 0 {
        lemma_gfs_view_len(s, i - 1);
    }
}

/// The prefix view models each element in place.
pub proof fn lemma_gfs_view_index(s: Seq<GetFile>, i: int, k: int)
    requires
        0 <= k < i <= s.len(),
    ensures
        gfs_view(s, i).len() == i,
        gfs_view(s, i)[k] == gf_view(s[k]),
    decreases i,
{
    lemma_gfs_view_len(s, i);
    if k < i - 1 {
        lemma_gfs_view_index(s, i - 1, k);
    } else {
        lemma_gfs_view_len(s, i - 1);
    }
}

} // verus!
