//! The presenter: sorting of sibling groups and the indented, depth-first
//! rendering of the entry tree.

use vstd::prelude::*;

use crate::file::{FileInfo, FileKind, FsTree, GetFile, GfModel, FiModel, fi_view, gf_view, gfs_view};
use crate::util::{Sort, spec_append_level, spec_format_size, append_level, parse_file_size};

verus! {

/// The type glyph of an entry, in the Unicode or the plain variant.
pub open spec fn spec_file_icon(kind: FileKind, unicode: bool) -> Seq<char> {
    if unicode {
        match kind {
            FileKind::Directory => seq!['\u{1F4C1}'],
            FileKind::File => seq!['\u{1F4C4}'],
            FileKind::Symlink => seq!['\u{1F517}'],
            FileKind::Unknown => seq!['\u{2753}'],
        }
    } else {
        match kind {
            FileKind::Directory => seq!['[', 'D', ']'],
            FileKind::File => seq!['[', 'F', ']'],
            FileKind::Symlink => seq!['[', 'S', ']'],
            FileKind::Unknown => seq!['[', '?', ']'],
        }
    }
}

/// The glyph put in front of an entry's name, chosen by its kind and by
/// whether the terminal takes Unicode.
pub fn get_file_icon(kind: &FileKind, unicode: bool) -> (r: &'static str)
    ensures
        r@ == spec_file_icon(*kind, unicode),
{
    if unicode {
        proof {
            reveal_strlit("\u{1F4C1}");
            reveal_strlit("\u{1F4C4}");
            reveal_strlit("\u{1F517}");
            reveal_strlit("\u{2753}");
        }
        match kind {
            FileKind::Directory => {
                proof {
                    assert("\u{1F4C1}"@ =~= seq!['\u{1F4C1}']);
                }
                "\u{1F4C1}"
            },
            FileKind::File => {
                proof {
                    assert("\u{1F4C4}"@ =~= seq!['\u{1F4C4}']);
                }
                "\u{1F4C4}"
            },
            FileKind::Symlink => {
                proof {
                    assert("\u{1F517}"@ =~= seq!['\u{1F517}']);
                }
                "\u{1F517}"
            },
            FileKind::Unknown => {
                proof {
                    assert("\u{2753}"@ =~= seq!['\u{2753}']);
                }
                "\u{2753}"
            },
        }
    } else {
        proof {
            reveal_strlit("[D]");
            reveal_strlit("[F]");
            reveal_strlit("[S]");
            reveal_strlit("[?]");
        }
        match kind {
            FileKind::Directory => {
                proof {
                    assert("[D]"@ =~= seq!['[', 'D', ']']);
                }
                "[D]"
            },
            FileKind::File => {
                proof {
                    assert("[F]"@ =~= seq!['[', 'F', ']']);
                }
                "[F]"
            },
            FileKind::Symlink => {
                proof {
                    assert("[S]"@ =~= seq!['[', 'S', ']']);
                }
                "[S]"
            },
            FileKind::Unknown => {
                proof {
                    assert("[?]"@ =~= seq!['[', '?', ']']);
                }
                "[?]"
            },
        }
    }
}

/// Lexicographic order on character sequences, by scalar value.
pub open spec fn lex_le(a: Seq<char>, b: Seq<char>) -> bool
    decreases a.len(),
{
    if a.len() == 0 {
        true
    } else if b.len() == 0 {
        false
    } else if a[0] == b[0] {
        lex_le(a.drop_first(), b.drop_first())
    } else {
        (a[0] as u32) < (b[0] as u32)
    }
}

/// Relies on `str`'s `PartialOrd`/`Ord`: string slices compare
/// lexicographically, which for UTF-8 text agrees with the lexicographic
/// order of the character sequences by scalar value.
#[verifier::external_body]
fn str_le(a: &str, b: &str) -> (r: bool)
    ensures
        r == lex_le(a@, b@),
{
    a <= b
}

/// Whether entry `a` comes no later than entry `b` under the given sort:
/// the chosen key compared in the chosen direction.  Ties leave both orders
/// acceptable; the sort keeps input order for them.
pub open spec fn le_by(sort: Sort, a: FiModel, b: FiModel) -> bool {
    match sort {
        Sort::NameASC => lex_le(a.name, b.name),
        Sort::NameDEC => lex_le(b.name, a.name),
        Sort::SizeASC => a.size <= b.size,
        Sort::SizeDEC => b.size <= a.size,
        Sort::DateASC => a.created <= b.created,
        Sort::DateDEC => b.created <= a.created,
    }
}

/// Compares two materialized entries under the given sort.
fn file_le(sort: &Sort, a: &FileInfo, b: &FileInfo) -> (r: bool)
    ensures
        r == le_by(*sort, fi_view(*a), fi_view(*b)),
{
    match sort {
        Sort::NameASC => str_le(a.file_name.as_str(), b.file_name.as_str()),
        Sort::NameDEC => str_le(b.file_name.as_str(), a.file_name.as_str()),
        Sort::SizeASC => a.file_size <= b.file_size,
        Sort::SizeDEC => b.file_size <= a.file_size,
        Sort::DateASC => a.created <= b.created,
        Sort::DateDEC => b.created <= a.created,
    }
}

/// Inserts an entry into a sibling list behind every entry that may come
/// before it: the insertion step of a stable sort.
pub open spec fn insert_by(sort: Sort, x: FiModel, l: Seq<FiModel>) -> Seq<FiModel>
    decreases l.len(),
{
    if l.len() == 0 {
        seq![x]
    } else if le_by(sort, l[0], x) {
        seq![l[0]] + insert_by(sort, x, l.drop_first())
    } else {
        seq![x] + l
    }
}

/// Stable insertion sort of a sibling list: entries are taken in input
/// order and each is placed behind every earlier entry that compares no
/// later, so ties keep their input order.
pub open spec fn sort_by(sort: Sort, l: Seq<FiModel>) -> Seq<FiModel>
    decreases l.len(),
{
    if l.len() == 0 {
        Seq::empty()
    } else {
        insert_by(sort, l.last(), sort_by(sort, l.drop_last()))
    }
}

/// The materialized entries among the first `i` outcomes of a sibling
/// list, in order; bare-size placeholders are dropped.
pub open spec fn files_of(s: Seq<GfModel>, i: int) -> Seq<FiModel>
    decreases i,
{
    if i <= 0 || i > s.len() {
        Seq::empty()
    } else {
        files_of(s, i - 1) + match s[i - 1] {
            GfModel::File(f) => seq![f],
            GfModel::Size(_) => Seq::<FiModel>::empty(),
        }
    }
}

/// One rendered line: the indentation for the entry's level, its type
/// glyph, its name, and its formatted size in parentheses.
pub open spec fn spec_line(f: FiModel, unicode: bool) -> Seq<char> {
    spec_append_level(f.level as int) + spec_file_icon(f.kind, unicode) + seq![' '] + f.name
        + seq![' ', '('] + spec_format_size(f.size) + seq![')']
}

/// Formats one entry's line: its indentation, type glyph, name, and
/// formatted size in parentheses.
pub fn print_file(file: &FileInfo, unicode: bool) -> (r: String)
    ensures
        r@ == spec_line(fi_view(*file), unicode),
{
    let mut line = append_level(&file.file_level);
    line.append(get_file_icon(&file.file_kind, unicode));
    line.append(" ");
    line.append(file.file_name.as_str());
    line.append(" (");
    let sz = parse_file_size(file.file_size);
    line.append(sz.as_str());
    line.append(")");
    proof {
        reveal_strlit(" ");
        reveal_strlit(" (");
        reveal_strlit(")");
        assert(" "@ =~= seq![' ']);
        assert(" ("@ =~= seq![' ', '(']);
        assert(")"@ =~= seq![')']);
        assert(line@ =~= spec_line(fi_view(*file), unicode));
    }
    line
}

/// A well-formed walk outcome at a level: a bare size, or a well-formed
/// materialized entry at that level.
pub open spec fn wf_gf(g: GfModel, lvl: int) -> bool
    decreases g, 0int,
{
    match g {
        GfModel::Size(_) => true,
        GfModel::File(f) => f.level == lvl && wf_fi(f),
    }
}

/// A well-formed materialized entry: if it has children they sit one level
/// below it, are well-formed in turn, and the level leaves room for one
/// more.
pub open spec fn wf_fi(f: FiModel) -> bool
    decreases f, 1int,
{
    match f.subs {
        None => true,
        Some(s) => f.level < 255 && forall|j: int|
            0 <= j < s.len() ==> wf_gf(#[trigger] s[j], f.level + 1),
    }
}

/// A well-formed sibling list of materialized entries at a level.
pub open spec fn wf_files(l: Seq<FiModel>, lvl: int) -> bool {
    forall|j: int| 0 <= j < l.len() ==> #[trigger] l[j].level == lvl && wf_fi(l[j])
}

/// The lines rendered for a sorted sibling list of materialized entries:
/// each entry's own line, followed, depth first, by the block of its
/// children.
pub open spec fn spec_render_files(l: Seq<FiModel>, lvl: int, sort: Sort, unicode: bool) -> Seq<
    Seq<char>,
>
    decreases 256 - lvl, 1int, l.len(),
        when 0 <= lvl <= 255 && wf_files(l, lvl)
{
    if l.len() == 0 {
        Seq::empty()
    } else {
        spec_render_node(l[0], sort, unicode) + spec_render_files(
            l.drop_first(),
            lvl,
            sort,
            unicode,
        )
    }
}

/// The lines rendered for one materialized entry: its line, then the lines
/// of its children, filtered to materialized entries and stably sorted.
pub open spec fn spec_render_node(f: FiModel, sort: Sort, unicode: bool) -> Seq<Seq<char>>
    decreases 256 - f.level, 0int, 0int,
        when wf_fi(f)
{
    seq![spec_line(f, unicode)] + match f.subs {
        None => Seq::<Seq<char>>::empty(),
        Some(s) => spec_render_files(
            sort_by(sort, files_of(s, s.len() as int)),
            f.level + 1,
            sort,
            unicode,
        ),
    }
}


/// The models of the first `i` elements of a borrowed sibling list.
pub open spec fn fis_view(s: Seq<&FileInfo>, i: int) -> Seq<FiModel>
    decreases i,
{
    if i <= 0 || i > s.len() {
        Seq::empty()
    } else {
        fis_view(s, i - 1).push(fi_view(*s[i - 1]))
    }
}

/// The borrowed-list view looks only at the elements it ranges over.
proof fn lemma_fis_view_push(s: Seq<&FileInfo>, x: &FileInfo, i: int)
    requires
        0 <= i <= s.len(),
    ensures
        fis_view(s.push(x), i) == fis_view(s, i),
    decreases i,
{
    if i > 0 {
        lemma_fis_view_push(s, x, i - 1);
        assert(s.push(x)[i - 1] == s[i - 1]);
    }
}

/// The borrowed-list view has one model per element, each in place.
proof fn lemma_fis_view_index(s: Seq<&FileInfo>, i: int, k: int)
    requires
        0 <= k < i <= s.len(),
    ensures
        fis_view(s, i).len() == i,
        fis_view(s, i)[k] == fi_view(*s[k]),
    decreases i,
{
    lemma_fis_view_len(s, i - 1);
    if k < i - 1 {
        lemma_fis_view_index(s, i - 1, k);
    }
}

/// The borrowed-list view has one model per element viewed.
proof fn lemma_fis_view_len(s: Seq<&FileInfo>, i: int)
    requires
        0 <= i <= s.len(),
    ensures
        fis_view(s, i).len() == i,
    decreases i,
{
    if i > 0 {
        lemma_fis_view_len(s, i - 1);
    }
}

/// Filtering a well-formed sibling list of outcomes leaves a well-formed
/// sibling list of entries at the same level.
proof fn lemma_files_of_wf(s: Seq<GfModel>, i: int, lvl: int)
    requires
        0 <= i <= s.len(),
        forall|j: int| 0 <= j < s.len() ==> wf_gf(#[trigger] s[j], lvl),
    ensures
        wf_files(files_of(s, i), lvl),
    decreases i,
{
    if i > 0 {
        lemma_files_of_wf(s, i - 1, lvl);
        let prev = files_of(s, i - 1);
        let whole = files_of(s, i);
        assert forall|j: int| 0 <= j < whole.len() implies #[trigger] whole[j].level == lvl
            && wf_fi(whole[j]) by {
            if j < prev.len() {
                assert(whole[j] == prev[j]);
            } else {
                assert(wf_gf(s[i - 1], lvl));
            }
        }
    }
}

/// Inserting a well-formed entry into a well-formed sibling list keeps the
/// list well formed.
proof fn lemma_insert_by_wf(sort: Sort, x: FiModel, l: Seq<FiModel>, lvl: int)
    requires
        x.level == lvl,
        wf_fi(x),
        wf_files(l, lvl),
    ensures
        wf_files(insert_by(sort, x, l), lvl),
    decreases l.len(),
{
    if l.len() == 0 {
    } else if le_by(sort, l[0], x) {
        assert(wf_files(l.drop_first(), lvl)) by {
            assert(forall|j: int|
                0 <= j < l.drop_first().len() ==> #[trigger] l.drop_first()[j] == l[j + 1]);
        };
        lemma_insert_by_wf(sort, x, l.drop_first(), lvl);
        let rest = insert_by(sort, x, l.drop_first());
        let whole = insert_by(sort, x, l);
        assert(whole == seq![l[0]] + rest);
        assert forall|j: int| 0 <= j < whole.len() implies #[trigger] whole[j].level == lvl
            && wf_fi(whole[j]) by {
            if j == 0 {
                assert(whole[0] == l[0]);
            } else {
                assert(whole[j] == rest[j - 1]);
            }
        }
    } else {
        assert(insert_by(sort, x, l) == seq![x] + l);
        let whole = insert_by(sort, x, l);
        assert forall|j: int| 0 <= j < whole.len() implies #[trigger] whole[j].level == lvl
            && wf_fi(whole[j]) by {
            if j > 0 {
                assert(whole[j] == l[j - 1]);
            }
        }
    }
}

/// Stable sorting keeps a sibling list well formed.
proof fn lemma_sort_by_wf(sort: Sort, l: Seq<FiModel>, lvl: int)
    requires
        wf_files(l, lvl),
    ensures
        wf_files(sort_by(sort, l), lvl),
    decreases l.len(),
{
    if l.len() > 0 {
        assert(wf_files(l.drop_last(), lvl)) by {
            assert(forall|j: int|
                0 <= j < l.drop_last().len() ==> #[trigger] l.drop_last()[j] == l[j]);
        };
        lemma_sort_by_wf(sort, l.drop_last(), lvl);
        lemma_insert_by_wf(sort, l.last(), sort_by(sort, l.drop_last()), lvl);
    }
}

/// Where the insertion step puts the new entry: right behind the longest
/// prefix whose entries all may come before it.
proof fn lemma_insert_by_at(sort: Sort, x: FiModel, l: Seq<FiModel>, p: int)
    requires
        0 <= p <= l.len(),
        forall|j: int| 0 <= j < p ==> le_by(sort, #[trigger] l[j], x),
        p < l.len() ==> !le_by(sort, l[p], x),
    ensures
        insert_by(sort, x, l) == l.subrange(0, p) + seq![x] + l.subrange(p, l.len() as int),
    decreases p,
{
    if p == 0 {
        if l.len() == 0 {
            assert(insert_by(sort, x, l) =~= l.subrange(0, 0) + seq![x] + l.subrange(0, 0));
        } else {
            assert(insert_by(sort, x, l) =~= l.subrange(0, 0) + seq![x] + l.subrange(
                0,
                l.len() as int,
            ));
        }
    } else {
        let d = l.drop_first();
        assert(forall|j: int| 0 <= j < d.len() ==> #[trigger] d[j] == l[j + 1]);
        lemma_insert_by_at(sort, x, d, p - 1);
        assert(insert_by(sort, x, l) == seq![l[0]] + (d.subrange(0, p - 1) + seq![x]
            + d.subrange(p - 1, d.len() as int)));
        assert(seq![l[0]] + (d.subrange(0, p - 1) + seq![x] + d.subrange(p - 1, d.len() as int))
            =~= l.subrange(0, p) + seq![x] + l.subrange(p, l.len() as int));
    }
}

/// Sorting after appending one entry is inserting it into the sorted list.
proof fn lemma_sort_by_push(sort: Sort, l: Seq<FiModel>, x: FiModel)
    ensures
        sort_by(sort, l.push(x)) == insert_by(sort, x, sort_by(sort, l)),
{
    assert(l.push(x).drop_last() =~= l);
    assert(l.push(x).last() == x);
}


/// The character sequences of a list of rendered lines.
pub open spec fn lines_view(s: Seq<String>) -> Seq<Seq<char>> {
    s.map_values(|x: String| x@)
}

/// Viewing an inserted borrowed list splits around the inserted entry.
proof fn lemma_fis_view_insert(s: Seq<&FileInfo>, x: &FileInfo, p: int)
    requires
        0 <= p <= s.len(),
    ensures
        fis_view(s.insert(p, x), s.len() as int + 1) == fis_view(s, s.len() as int).subrange(0, p)
            + seq![fi_view(*x)] + fis_view(s, s.len() as int).subrange(p, s.len() as int),
{
    let t = s.insert(p, x);
    lemma_fis_view_len(t, t.len() as int);
    lemma_fis_view_len(s, s.len() as int);
    assert forall|j: int| 0 <= j < t.len() implies fis_view(t, t.len() as int)[j] == (
    fis_view(s, s.len() as int).subrange(0, p) + seq![fi_view(*x)] + fis_view(
        s,
        s.len() as int,
    ).subrange(p, s.len() as int))[j] by {
        lemma_fis_view_index(t, t.len() as int, j);
        if j < p {
            lemma_fis_view_index(s, s.len() as int, j);
            assert(t[j] == s[j]);
        } else if j == p {
            assert(t[j] == x);
        } else {
            lemma_fis_view_index(s, s.len() as int, j - 1);
            assert(t[j] == s[j - 1]);
        }
    }
    assert(fis_view(t, t.len() as int) =~= fis_view(s, s.len() as int).subrange(0, p) + seq![
        fi_view(*x),
    ] + fis_view(s, s.len() as int).subrange(p, s.len() as int));
}

/// Renders a sorted sibling group and, depth first, every group below it,
/// appending one line per materialized entry to `out`, as
/// `spec_render_files` states: bare-size placeholders are dropped, the
/// group is stably sorted under `sort`, and each entry's line precedes its
/// children's lines.
#[verifier::rlimit(60)]
#[verifier::loop_isolation(false)]
pub fn render_sub_files(
    sub_files: &Vec<GetFile>,
    sort: &Sort,
    unicode: bool,
    level: u8,
    out: &mut Vec<String>,
)
    requires
        forall|j: int|
            0 <= j < sub_files@.len() ==> wf_gf(#[trigger] gf_view(sub_files@[j]), level as int),
    ensures
        lines_view(final(out)@) == lines_view(old(out)@) + spec_render_files(
            sort_by(
                *sort,
                files_of(
                    gfs_view(sub_files@, sub_files@.len() as int),
                    sub_files@.len() as int,
                ),
            ),
            level as int,
            *sort,
            unicode,
        ),
    decreases 256 - level as int,
{
    let ghost gfs = gfs_view(sub_files@, sub_files@.len() as int);
    proof {
        crate::file::lemma_gfs_view_len(sub_files@, sub_files@.len() as int);
    }
    let mut files: Vec<&FileInfo> = Vec::new();
    let mut idx: usize = 0;
    while idx < sub_files.len()
        invariant
            idx <= sub_files@.len(),
            fis_view(files@, files@.len() as int) == files_of(gfs, idx as int),
        decreases sub_files@.len() - idx,
    {
        proof {
            crate::file::lemma_gfs_view_index(sub_files@, sub_files@.len() as int, idx as int);
            lemma_fis_view_len(files@, files@.len() as int);
        }
        let ghost pre_files = files@;
        match &sub_files[idx] {
            GetFile::File(f) => {
                files.push(f);
                proof {
                    lemma_fis_view_push(pre_files, files@[pre_files.len() as int], pre_files.len() as int);
                    assert(fis_view(files@, files@.len() as int) =~= files_of(gfs, idx as int + 1));
                }
            },
            GetFile::Size(_) => {
                proof {
                    assert(fis_view(files@, files@.len() as int) =~= files_of(gfs, idx as int + 1));
                }
            },
        }
        idx = idx + 1;
    }
    let ghost fism = files_of(gfs, sub_files@.len() as int);
    let mut sorted_v: Vec<&FileInfo> = Vec::new();
    let mut i: usize = 0;
    while i < files.len()
        invariant
            i <= files@.len(),
            sorted_v@.len() == i,
            fis_view(sorted_v@, sorted_v@.len() as int) == sort_by(
                *sort,
                fis_view(files@, i as int),
            ),
        decreases files@.len() - i,
    {
        let x = files[i];
        let ghost sm = fis_view(sorted_v@, sorted_v@.len() as int);
        proof {
            lemma_fis_view_len(sorted_v@, sorted_v@.len() as int);
        }
        let mut p: usize = 0;
        while p < sorted_v.len() && file_le(sort, sorted_v[p], x)
            invariant
                p <= sorted_v@.len(),
                forall|j: int|
                    0 <= j < p ==> le_by(*sort, fi_view(*#[trigger] sorted_v@[j]), fi_view(*x)),
            decreases sorted_v@.len() - p,
        {
            p = p + 1;
        }
        let ghost pre_sorted = sorted_v@;
        sorted_v.insert(p, x);
        i = i + 1;
        proof {
            assert(forall|j: int|
                0 <= j < p ==> le_by(*sort, #[trigger] sm[j], fi_view(*x))) by {
                assert forall|j: int| 0 <= j < p implies le_by(
                    *sort,
                    #[trigger] sm[j],
                    fi_view(*x),
                ) by {
                    lemma_fis_view_index(pre_sorted, pre_sorted.len() as int, j);
                }
            };
            if (p as int) < pre_sorted.len() {
                lemma_fis_view_index(pre_sorted, pre_sorted.len() as int, p as int);
            }
            lemma_insert_by_at(*sort, fi_view(*x), sm, p as int);
            lemma_fis_view_insert(pre_sorted, x, p as int);
            lemma_fis_view_index(files@, files@.len() as int, i as int - 1);
            assert(fis_view(files@, i as int) =~= fis_view(files@, i as int - 1).push(
                fi_view(*files@[i as int - 1]),
            )) by {
                lemma_fis_view_len(files@, i as int - 1);
            };
            lemma_sort_by_push(*sort, fis_view(files@, i as int - 1), fi_view(*x));
            assert(fis_view(sorted_v@, sorted_v@.len() as int) =~= sort_by(
                *sort,
                fis_view(files@, i as int),
            ));
        }
    }
    let ghost sortedm = fis_view(sorted_v@, sorted_v@.len() as int);
    proof {
        lemma_fis_view_len(files@, files@.len() as int);
        assert(fis_view(files@, files@.len() as int) == fism);
        assert(sortedm == sort_by(*sort, fism));
        assert(forall|j: int| 0 <= j < gfs.len() ==> wf_gf(#[trigger] gfs[j], level as int)) by {
            assert forall|j: int| 0 <= j < gfs.len() implies wf_gf(
                #[trigger] gfs[j],
                level as int,
            ) by {
                crate::file::lemma_gfs_view_index(sub_files@, sub_files@.len() as int, j);
            }
        };
        lemma_files_of_wf(gfs, gfs.len() as int, level as int);
        lemma_sort_by_wf(*sort, fism, level as int);
        lemma_fis_view_len(sorted_v@, sorted_v@.len() as int);
    }
    proof {
        assert(sortedm.skip(0) =~= sortedm);
    }
    let mut k: usize = 0;
    while k < sorted_v.len()
        invariant
            k <= sorted_v@.len(),
            lines_view(old(out)@) + spec_render_files(sortedm, level as int, *sort, unicode)
                == lines_view(out@) + spec_render_files(
                sortedm.skip(k as int),
                level as int,
                *sort,
                unicode,
            ),
        decreases sorted_v@.len() - k,
    {
        let f: &FileInfo = sorted_v[k];
        proof {
            lemma_fis_view_index(sorted_v@, sorted_v@.len() as int, k as int);
            assert(fi_view(*f) == sortedm[k as int]);
            assert(wf_files(sortedm.skip(k as int), level as int)) by {
                assert(forall|j: int|
                    0 <= j < sortedm.skip(k as int).len() ==> #[trigger] sortedm.skip(
                        k as int,
                    )[j] == sortedm[j + k]);
            };
        }
        let line = print_file(f, unicode);
        let ghost pre_out = out@;
        out.push(line);
        proof {
            assert(lines_view(out@) =~= lines_view(pre_out).push(line@));
        }
        match &f.sub_files {
            Some(subs) => {
                proof {
                    crate::file::lemma_gfs_view_len(subs@, subs@.len() as int);
                    assert(wf_fi(fi_view(*f)));
                    assert(fi_view(*f).subs == Some(
                        gfs_view(subs@, subs@.len() as int),
                    ));
                    assert forall|j: int| 0 <= j < subs@.len() implies wf_gf(
                        #[trigger] gf_view(subs@[j]),
                        f.file_level as int + 1,
                    ) by {
                        crate::file::lemma_gfs_view_index(subs@, subs@.len() as int, j);
                        let s = gfs_view(subs@, subs@.len() as int);
                        assert(wf_gf(((fi_view(*f).subs)->0)[j], fi_view(*f).level + 1));
                        assert(((fi_view(*f).subs)->0)[j] == s[j]);
                        assert(s[j] == gf_view(subs@[j]));
                    }
                    assert forall|j: int|
                        0 <= j < gfs_view(subs@, subs@.len() as int).len() implies wf_gf(
                        #[trigger] gfs_view(subs@, subs@.len() as int)[j],
                        f.file_level as int + 1,
                    ) by {
                        crate::file::lemma_gfs_view_index(subs@, subs@.len() as int, j);
                    }
                    lemma_files_of_wf(
                        gfs_view(subs@, subs@.len() as int),
                        subs@.len() as int,
                        f.file_level as int + 1,
                    );
                    lemma_sort_by_wf(
                        *sort,
                        files_of(gfs_view(subs@, subs@.len() as int), subs@.len() as int),
                        f.file_level as int + 1,
                    );
                }
                render_sub_files(subs, sort, unicode, f.file_level + 1, out);
                proof {
                    let block = spec_render_files(
                        sort_by(
                            *sort,
                            files_of(
                                gfs_view(subs@, subs@.len() as int),
                                subs@.len() as int,
                            ),
                        ),
                        f.file_level as int + 1,
                        *sort,
                        unicode,
                    );
                    assert(lines_view(out@) =~= lines_view(pre_out).push(line@) + block);
                    assert(spec_render_node(fi_view(*f), *sort, unicode) =~= seq![
                        spec_line(fi_view(*f), unicode),
                    ] + block);
                    assert(lines_view(out@) =~= lines_view(pre_out) + spec_render_node(
                        fi_view(*f),
                        *sort,
                        unicode,
                    ));
                }
            },
            None => {
                proof {
                    assert(spec_render_node(fi_view(*f), *sort, unicode) =~= seq![
                        spec_line(fi_view(*f), unicode),
                    ]);
                    assert(lines_view(out@) =~= lines_view(pre_out) + spec_render_node(
                        fi_view(*f),
                        *sort,
                        unicode,
                    ));
                }
            },
        }
        k = k + 1;
        proof {
            assert(lines_view(out@) =~= lines_view(pre_out) + spec_render_node(
                sortedm[k as int - 1],
                *sort,
                unicode,
            ));
            assert(sortedm.skip(k as int - 1)[0] == sortedm[k as int - 1]);
            assert(sortedm.skip(k as int - 1).drop_first() =~= sortedm.skip(k as int));
            assert(lines_view(old(out)@) + spec_render_files(
                sortedm,
                level as int,
                *sort,
                unicode,
            ) =~= lines_view(out@) + spec_render_files(
                sortedm.skip(k as int),
                level as int,
                *sort,
                unicode,
            ));
        }
    }
    proof {
        assert(sortedm.skip(sorted_v@.len() as int) =~= Seq::<FiModel>::empty());
        assert(lines_view(out@) =~= lines_view(old(out)@) + spec_render_files(
            sortedm,
            level as int,
            *sort,
            unicode,
        ));
    }
}


/// Every outcome the walk materializes is well formed: an entry's children
/// sit one level below it, recursively.
pub proof fn lemma_walk_wf(t: FsTree, cur: u8, levels: u8, show_hidden: bool)
    requires
        1 <= cur,
    ensures
        wf_gf(
            crate::file::spec_get_files(t, cur, levels, show_hidden),
            cur as int - 1,
        ),
    decreases t, 0int, 0int,
{
    match t {
        FsTree::Dir { listing: Some(entries), .. } => {
            lemma_walk_wf_children(
                entries@,
                entries@.len() as int,
                cur,
                levels,
                show_hidden,
            );
            let s = crate::file::spec_children(
                entries@,
                entries@.len() as int,
                cur,
                levels,
                show_hidden,
            );
            assert forall|j: int| 0 <= j < s.len() implies wf_gf(
                #[trigger] s[j],
                ((cur - 1) as u8) as int + 1,
            ) by {
                assert(wf_gf(s[j], cur as int));
            }
        },
        _ => {},
    }
}

/// Every outcome the walk contributes for a listing is well formed at the
/// children's level.
proof fn lemma_walk_wf_children(es: Seq<FsTree>, i: int, cur: u8, levels: u8, show_hidden: bool)
    requires
        1 <= cur,
        i <= es.len(),
    ensures
        forall|j: int|
            0 <= j < crate::file::spec_children(es, i, cur, levels, show_hidden).len()
                ==> wf_gf(
                #[trigger] crate::file::spec_children(es, i, cur, levels, show_hidden)[j],
                cur as int,
            ),
    decreases es, 1int, i,
{
    if i > 0 {
        lemma_walk_wf_children(es, i - 1, cur, levels, show_hidden);
        let prev = crate::file::spec_children(es, i - 1, cur, levels, show_hidden);
        let last = crate::file::spec_child(es[i - 1], cur, levels, show_hidden);
        let whole = crate::file::spec_children(es, i, cur, levels, show_hidden);
        assert(whole == prev + last);
        if es[i - 1] matches FsTree::Dir { hidden, .. } && !(hidden && !show_hidden) && cur
            < levels {
            lemma_walk_wf(es[i - 1], (cur + 1) as u8, levels, show_hidden);
        }
        assert forall|j: int| 0 <= j < whole.len() implies wf_gf(
            #[trigger] whole[j],
            cur as int,
        ) by {
            if j < prev.len() {
                assert(whole[j] == prev[j]);
            } else {
                assert(whole[j] == last[j - prev.len()]);
                match es[i - 1] {
                    FsTree::MetaError { .. } => {},
                    FsTree::Leaf { .. } => {},
                    FsTree::Dir { .. } => {},
                }
            }
        }
    }
}

/// Walks a snapshot and renders the result in one step: the sorted,
/// indented lines for the root's children, or no lines at all when the
/// root could not be walked as a directory.
pub fn render_tree(t: &FsTree, levels: u8, show_hidden: bool, sort: &Sort, unicode: bool) -> (lines:
    Vec<String>)
    ensures
        match crate::file::spec_get_files(*t, 1, levels, show_hidden) {
            GfModel::File(f) => f.subs matches Some(s) && lines_view(lines@)
                == spec_render_files(
                sort_by(*sort, files_of(s, s.len() as int)),
                1int,
                *sort,
                unicode,
            ),
            GfModel::Size(_) => lines@.len() == 0,
        },
{
    let walked = crate::file::get_files(t, 1, levels, show_hidden);
    proof {
        lemma_walk_wf(*t, 1, levels, show_hidden);
    }
    match walked {
        GetFile::File(f) => {
            match f.sub_files {
                Some(subs) => {
                    proof {
                        crate::file::lemma_gfs_view_len(subs@, subs@.len() as int);
                        assert(wf_fi(fi_view(f)));
                        assert forall|j: int| 0 <= j < subs@.len() implies wf_gf(
                            #[trigger] gf_view(subs@[j]),
                            1int,
                        ) by {
                            crate::file::lemma_gfs_view_index(subs@, subs@.len() as int, j);
                            assert(wf_gf(((fi_view(f).subs)->0)[j], fi_view(f).level + 1));
                            assert(((fi_view(f).subs)->0)[j] == gf_view(subs@[j]));
                        }
                    }
                    let mut out: Vec<String> = Vec::new();
                    render_sub_files(&subs, sort, unicode, 1, &mut out);
                    proof {
                        assert(lines_view(Seq::<String>::empty()) =~= Seq::<Seq<char>>::empty());
                    }
                    out
                },
                None => {
                    proof {
                        assert(false);
                    }
                    Vec::new()
                },
            }
        },
        GetFile::Size(_) => Vec::new(),
    }
}


/// The same sort key in the other direction.
pub open spec fn opposite(sort: Sort) -> Sort {
    match sort {
        Sort::NameASC => Sort::NameDEC,
        Sort::NameDEC => Sort::NameASC,
        Sort::SizeASC => Sort::SizeDEC,
        Sort::SizeDEC => Sort::SizeASC,
        Sort::DateASC => Sort::DateDEC,
        Sort::DateDEC => Sort::DateASC,
    }
}

/// Two entries tie under a sort when each may come before the other: their
/// keys are equal.
pub open spec fn tie(sort: Sort, a: FiModel, b: FiModel) -> bool {
    le_by(sort, a, b) && le_by(sort, b, a)
}

/// A sibling list ordered under a sort: every earlier entry may come
/// before every later one.
pub open spec fn sorted_under(sort: Sort, l: Seq<FiModel>) -> bool {
    forall|i: int, j: int| 0 <= i < j < l.len() ==> le_by(sort, #[trigger] l[i], #[trigger] l[j])
}

/// Lexicographic order is total.
proof fn lemma_lex_total(a: Seq<char>, b: Seq<char>)
    ensures
        lex_le(a, b) || lex_le(b, a),
    decreases a.len(),
{
    if a.len() > 0 && b.len() > 0 {
        if a[0] == b[0] {
            lemma_lex_total(a.drop_first(), b.drop_first());
        } else {
            vstd::utf8::char_u32_cast(a[0], a[0] as u32);
            vstd::utf8::char_u32_cast(b[0], b[0] as u32);
            assert((a[0] as u32) != (b[0] as u32));
        }
    }
}

/// Lexicographic order is transitive.
proof fn lemma_lex_trans(a: Seq<char>, b: Seq<char>, c: Seq<char>)
    requires
        lex_le(a, b),
        lex_le(b, c),
    ensures
        lex_le(a, c),
    decreases a.len(),
{
    if a.len() > 0 {
        if a[0] == b[0] && b[0] == c[0] {
            lemma_lex_trans(a.drop_first(), b.drop_first(), c.drop_first());
        }
    }
}

/// The order of every sort is total.
proof fn lemma_le_by_total(sort: Sort, a: FiModel, b: FiModel)
    ensures
        le_by(sort, a, b) || le_by(sort, b, a),
{
    match sort {
        Sort::NameASC => lemma_lex_total(a.name, b.name),
        Sort::NameDEC => lemma_lex_total(b.name, a.name),
        _ => {},
    }
}

/// The order of every sort is transitive.
proof fn lemma_le_by_trans(sort: Sort, a: FiModel, b: FiModel, c: FiModel)
    requires
        le_by(sort, a, b),
        le_by(sort, b, c),
    ensures
        le_by(sort, a, c),
{
    match sort {
        Sort::NameASC => lemma_lex_trans(a.name, b.name, c.name),
        Sort::NameDEC => lemma_lex_trans(c.name, b.name, a.name),
        _ => {},
    }
}

/// Reversing the direction of a sort swaps the two sides of its order.
proof fn lemma_opposite(sort: Sort, a: FiModel, b: FiModel)
    ensures
        le_by(opposite(sort), a, b) == le_by(sort, b, a),
{
}

/// Where the insertion step puts the new entry.
spec fn insert_pos(sort: Sort, x: FiModel, l: Seq<FiModel>) -> int
    decreases l.len(),
{
    if l.len() == 0 {
        0
    } else if le_by(sort, l[0], x) {
        1 + insert_pos(sort, x, l.drop_first())
    } else {
        0
    }
}

/// The insertion position splits the list at the longest prefix of entries
/// that may come before the new one.
proof fn lemma_insert_pos_props(sort: Sort, x: FiModel, l: Seq<FiModel>)
    ensures
        0 <= insert_pos(sort, x, l) <= l.len(),
        forall|j: int| 0 <= j < insert_pos(sort, x, l) ==> le_by(sort, #[trigger] l[j], x),
        insert_pos(sort, x, l) < l.len() ==> !le_by(sort, l[insert_pos(sort, x, l)], x),
        insert_by(sort, x, l) == l.subrange(0, insert_pos(sort, x, l)) + seq![x] + l.subrange(
            insert_pos(sort, x, l),
            l.len() as int,
        ),
    decreases l.len(),
{
    let p = insert_pos(sort, x, l);
    if l.len() == 0 {
        assert(insert_by(sort, x, l) =~= l.subrange(0, 0) + seq![x] + l.subrange(0, 0));
    } else if le_by(sort, l[0], x) {
        let d = l.drop_first();
        lemma_insert_pos_props(sort, x, d);
        assert(forall|j: int| 0 <= j < d.len() ==> #[trigger] d[j] == l[j + 1]);
        assert forall|j: int| 0 <= j < p implies le_by(sort, #[trigger] l[j], x) by {
            if j > 0 {
                assert(d[j - 1] == l[j]);
                assert(le_by(sort, d[j - 1], x));
            }
        }
        assert(insert_by(sort, x, l) =~= l.subrange(0, p) + seq![x] + l.subrange(
            p,
            l.len() as int,
        ));
    } else {
        assert(insert_by(sort, x, l) =~= l.subrange(0, 0) + seq![x] + l.subrange(
            0,
            l.len() as int,
        ));
    }
}

/// The insertion step keeps a sibling list ordered.
proof fn lemma_insert_by_sorted(sort: Sort, x: FiModel, l: Seq<FiModel>)
    requires
        sorted_under(sort, l),
    ensures
        sorted_under(sort, insert_by(sort, x, l)),
{
    lemma_insert_pos_props(sort, x, l);
    let p = insert_pos(sort, x, l);
    let r = insert_by(sort, x, l);
    assert forall|i: int, j: int| 0 <= i < j < r.len() implies le_by(
        sort,
        #[trigger] r[i],
        #[trigger] r[j],
    ) by {
        if i < p {
            assert(r[i] == l[i]);
        } else if i == p {
            assert(r[i] == x);
        } else {
            assert(r[i] == l[i - 1]);
        }
        if j < p {
            assert(r[j] == l[j]);
        } else if j == p {
            assert(r[j] == x);
        } else {
            assert(r[j] == l[j - 1]);
        }
        if j == p {
            // r[i] is l[i] with i < p, so it may come before x
        } else if i == p {
            // r[j] is l[j - 1] with j - 1 >= p: x may come before it
            lemma_le_by_total(sort, x, l[j - 1]);
            if j - 1 > p && le_by(sort, l[j - 1], x) {
                lemma_le_by_trans(sort, l[p], l[j - 1], x);
            }
        } else if i < p && j > p {
        } else {
        }
    }
}

/// Stable sorting orders every sibling group.
pub proof fn lemma_sort_by_sorted(sort: Sort, l: Seq<FiModel>)
    ensures
        sorted_under(sort, sort_by(sort, l)),
    decreases l.len(),
{
    if l.len() > 0 {
        lemma_sort_by_sorted(sort, l.drop_last());
        lemma_insert_by_sorted(sort, l.last(), sort_by(sort, l.drop_last()));
    }
}

/// Every entry the insertion step hands back is the new one or came from
/// the list.
proof fn lemma_insert_by_elems(sort: Sort, x: FiModel, l: Seq<FiModel>)
    ensures
        insert_by(sort, x, l).len() == l.len() + 1,
        forall|j: int|
            0 <= j < insert_by(sort, x, l).len() ==> #[trigger] insert_by(sort, x, l)[j] == x
                || l.contains(insert_by(sort, x, l)[j]),
{
    lemma_insert_pos_props(sort, x, l);
    let p = insert_pos(sort, x, l);
    let r = insert_by(sort, x, l);
    assert forall|j: int| 0 <= j < r.len() implies #[trigger] r[j] == x || l.contains(r[j]) by {
        if j < p {
            assert(r[j] == l[j]);
        } else if j > p {
            assert(r[j] == l[j - 1]);
        }
    }
}

/// Every entry a sorted sibling group holds came from the input group.
proof fn lemma_sort_by_elems(sort: Sort, l: Seq<FiModel>)
    ensures
        sort_by(sort, l).len() == l.len(),
        forall|j: int|
            0 <= j < sort_by(sort, l).len() ==> l.contains(#[trigger] sort_by(sort, l)[j]),
    decreases l.len(),
{
    if l.len() > 0 {
        let dl = l.drop_last();
        lemma_sort_by_elems(sort, dl);
        lemma_insert_by_elems(sort, l.last(), sort_by(sort, dl));
        assert forall|j: int| 0 <= j < sort_by(sort, l).len() implies l.contains(
            #[trigger] sort_by(sort, l)[j],
        ) by {
            let e = sort_by(sort, l)[j];
            if e == l.last() {
                assert(l[l.len() - 1] == e);
            } else {
                assert(sort_by(sort, dl).contains(e));
                let k = choose|k: int| 0 <= k < dl.len() && dl[k] == e;
                assert(l[k] == e);
            }
        }
    }
}

/// Inserting into the reversed list under the opposite direction reverses
/// inserting into the list, as long as the list is ordered and the new
/// entry ties with none of its entries.
proof fn lemma_insert_by_reverse(sort: Sort, x: FiModel, m: Seq<FiModel>)
    requires
        sorted_under(sort, m),
        forall|j: int| 0 <= j < m.len() ==> !tie(sort, #[trigger] m[j], x),
    ensures
        insert_by(opposite(sort), x, m.reverse()) == insert_by(sort, x, m).reverse(),
{
    lemma_insert_pos_props(sort, x, m);
    let p = insert_pos(sort, x, m);
    let len = m.len() as int;
    // past the insertion point no entry may come before x, and x may come
    // before each of them
    assert forall|j: int| p <= j < len implies !le_by(sort, #[trigger] m[j], x) && le_by(
        sort,
        x,
        m[j],
    ) by {
        if j > p && le_by(sort, m[j], x) {
            lemma_le_by_trans(sort, m[p], m[j], x);
        }
        lemma_le_by_total(sort, m[j], x);
    }
    assert forall|j: int| 0 <= j < p implies le_by(sort, #[trigger] m[j], x) && !le_by(
        sort,
        x,
        m[j],
    ) by {
    }
    let rm = m.reverse();
    assert forall|k: int| 0 <= k < len - p implies le_by(
        opposite(sort),
        #[trigger] rm[k],
        x,
    ) by {
        assert(rm[k] == m[len - 1 - k]);
        lemma_opposite(sort, m[len - 1 - k], x);
    }
    if p > 0 {
        assert(rm[len - p] == m[p - 1]);
        lemma_opposite(sort, m[p - 1], x);
    }
    lemma_insert_pos_is(opposite(sort), x, rm, len - p);
    lemma_insert_pos_props(opposite(sort), x, rm);
    let lhs = insert_by(opposite(sort), x, rm);
    let rhs = insert_by(sort, x, m).reverse();
    assert(lhs =~= rhs) by {
        assert(lhs == rm.subrange(0, len - p) + seq![x] + rm.subrange(len - p, len));
        assert(insert_by(sort, x, m) == m.subrange(0, p) + seq![x] + m.subrange(p, len));
        assert forall|k: int| 0 <= k < len + 1 implies lhs[k] == rhs[k] by {
            assert(rhs[k] == insert_by(sort, x, m)[len - k]);
            if k < len - p {
                assert(lhs[k] == rm[k]);
                assert(rm[k] == m[len - 1 - k]);
                assert(insert_by(sort, x, m)[len - k] == m.subrange(p, len)[len - k - p - 1]);
            } else if k == len - p {
                assert(lhs[k] == x);
                assert(insert_by(sort, x, m)[len - k] == x);
            } else {
                assert(lhs[k] == rm.subrange(len - p, len)[k - (len - p) - 1]);
                assert(rm[k - 1] == m[len - k]);
                assert(insert_by(sort, x, m)[len - k] == m.subrange(0, p)[len - k]);
            }
        }
    };
}

/// The insertion position is the unique split whose prefix may come before
/// the new entry and whose next entry may not.
proof fn lemma_insert_pos_is(sort: Sort, x: FiModel, l: Seq<FiModel>, n: int)
    requires
        0 <= n <= l.len(),
        forall|k: int| 0 <= k < n ==> le_by(sort, #[trigger] l[k], x),
        n < l.len() ==> !le_by(sort, l[n], x),
    ensures
        insert_pos(sort, x, l) == n,
    decreases l.len(),
{
    if l.len() > 0 {
        if n == 0 {
        } else {
            let d = l.drop_first();
            assert(forall|j: int| 0 <= j < d.len() ==> #[trigger] d[j] == l[j + 1]);
            lemma_insert_pos_is(sort, x, d, n - 1);
        }
    }
}

/// Sorting under one direction and reading the result backwards is sorting
/// under the other direction, for a sibling group without ties: flipping
/// Ascending and Descending exactly reverses the rendered order.
pub proof fn lemma_sort_by_reverse(sort: Sort, l: Seq<FiModel>)
    requires
        forall|i: int, j: int|
            0 <= i < l.len() && 0 <= j < l.len() && i != j ==> !tie(
                sort,
                #[trigger] l[i],
                #[trigger] l[j],
            ),
    ensures
        sort_by(opposite(sort), l) == sort_by(sort, l).reverse(),
    decreases l.len(),
{
    if l.len() == 0 {
        assert(sort_by(opposite(sort), l) =~= sort_by(sort, l).reverse());
    } else {
        let x = l.last();
        let dl = l.drop_last();
        assert(forall|j: int| 0 <= j < dl.len() ==> #[trigger] dl[j] == l[j]);
        lemma_sort_by_reverse(sort, dl);
        lemma_sort_by_sorted(sort, dl);
        lemma_sort_by_elems(sort, dl);
        let m = sort_by(sort, dl);
        assert forall|j: int| 0 <= j < m.len() implies !tie(sort, #[trigger] m[j], x) by {
            assert(dl.contains(m[j]));
            let k = choose|k: int| 0 <= k < dl.len() && dl[k] == m[j];
            assert(l[k] == m[j]);
            assert(l[l.len() - 1] == x);
        }
        lemma_insert_by_reverse(sort, x, m);
        assert(sort_by(opposite(sort), l) == insert_by(opposite(sort), x, sort_by(
            opposite(sort),
            dl,
        )));
        assert(sort_by(opposite(sort), dl) == m.reverse());
        assert(sort_by(sort, l) == insert_by(sort, x, m));
    }
}

} // verus!
