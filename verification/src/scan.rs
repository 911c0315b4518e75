//! The directory scanner: turns a walked subtree into a normalized set of
//! relative member paths, honoring a case-insensitive extension ignore-list,
//! and the host-facing entry point that scans, detects and reports.

use vstd::prelude::*;
use vstd::hash_map::StringHashMap;
use vstd::string::StrSliceExecFns;
use crate::strutil::lower_of;
use crate::strutil::lowercase;
use crate::strutil::str_eq;
use crate::strutil::last_index_of;
use crate::strutil::index_of_from;
use crate::conflicts::Group;
use crate::conflicts::GroupModel;
use crate::conflicts::ConflictError;
use crate::conflicts::distinct_seqs;
use crate::conflicts::groups_wf;
use crate::conflicts::detect_post;
use crate::conflicts::entries_sorted;
use crate::conflicts::render_message;
use crate::conflicts::conflicts;
use crate::conflicts::distinct_names;

verus! {

/// One filesystem entry seen during a walk: its full path and whether it is
/// a directory.
#[derive(Debug)]
pub struct FsEntry {
    pub path: String,
    pub is_dir: bool,
}

/// The mathematical content of an `FsEntry`.
pub ghost struct FsEntryModel {
    pub path: Seq<char>,
    pub is_dir: bool,
}

impl View for FsEntry {
    type V = FsEntryModel;

    open spec fn view(&self) -> FsEntryModel {
        FsEntryModel { path: self.path@, is_dir: self.is_dir }
    }
}

impl DeepView for FsEntry {
    type V = FsEntryModel;

    open spec fn deep_view(&self) -> FsEntryModel {
        self@
    }
}

/// A computed relative path escaped its root: an internal invariant
/// violation, distinct from a recoverable scan failure.
#[derive(Debug)]
pub struct ScanError {
    pub path: String,
    pub root: String,
}

/// Everything the host-facing entry point can signal: a caller error
/// (duplicate group names), an internal invariant violation, or the expected
/// business outcome that conflicts exist.
#[derive(Debug)]
pub enum DetectError {
    DuplicateGroupName,
    OutsideRoot(ScanError),
    Conflicts(ConflictError),
}

/// The file name of a path: the text after the last separator.
pub open spec fn file_name_of(p: Seq<char>) -> Seq<char>
    decreases p.len(),
{
    if p.len() == 0 {
        Seq::empty()
    } else if p.last() == '/' {
        Seq::empty()
    } else {
        file_name_of(p.drop_last()).push(p.last())
    }
}

/// The extension of a file name: the text after the last `.`, provided that
/// dot is not the leading character; `None` otherwise.
pub open spec fn ext_of(f: Seq<char>) -> Option<Seq<char>>
    decreases f.len(),
{
    if f.len() <= 1 {
        None
    } else if f.last() == '.' {
        Some(Seq::empty())
    } else {
        match ext_of(f.drop_last()) {
            Some(e) => Some(e.push(f.last())),
            None => None,
        }
    }
}

/// Whether a non-directory entry at path `p` survives the extension filter:
/// entries with no extension are always kept, and an extension is compared
/// case-insensitively against the (already lower-cased) ignore list.
pub open spec fn kept(p: Seq<char>, igs: Seq<Seq<char>>) -> bool {
    match ext_of(file_name_of(p)) {
        None => true,
        Some(e) => !igs.contains(lower_of(e)),
    }
}

/// The path `p` expressed relative to `root`, or `None` when it cannot be.
pub open spec fn rel_of(p: Seq<char>, root: Seq<char>) -> Option<Seq<char>> {
    if root.len() <= p.len() && p.take(root.len() as int) == root {
        if p.len() == root.len() {
            Some(Seq::empty())
        } else if root.len() == 0 {
            Some(p)
        } else if root.last() == '/' {
            Some(p.skip(root.len() as int))
        } else if p[root.len() as int] == '/' {
            Some(p.skip(root.len() as int + 1))
        } else {
            None
        }
    } else {
        None
    }
}

/// Whether every kept file among the walked entries can be expressed
/// relative to the root.
pub open spec fn scan_ok(entries: Seq<FsEntryModel>, root: Seq<char>, igs: Seq<Seq<char>>) -> bool {
    forall|i: int| 0 <= i < entries.len() ==> ((!(#[trigger] entries[i]).is_dir && kept(
        entries[i].path,
        igs,
    )) ==> rel_of(entries[i].path, root) is Some)
}

/// Whether `m` is the relative path of some kept file among the first `k`
/// walked entries.
pub open spec fn is_scan_member_upto(
    entries: Seq<FsEntryModel>,
    k: int,
    root: Seq<char>,
    igs: Seq<Seq<char>>,
    m: Seq<char>,
) -> bool {
    exists|i: int| 0 <= i < k && i < entries.len() && !(#[trigger] entries[i]).is_dir && kept(
        entries[i].path,
        igs,
    ) && rel_of(entries[i].path, root) == Some(m)
}

/// Whether `m` is the relative path of some kept file among the walked
/// entries.
pub open spec fn is_scan_member(
    entries: Seq<FsEntryModel>,
    root: Seq<char>,
    igs: Seq<Seq<char>>,
    m: Seq<char>,
) -> bool {
    is_scan_member_upto(entries, entries.len() as int, root, igs, m)
}

/// A path with no separator is its own file name.
proof fn lemma_file_name_no_slash(p: Seq<char>)
    requires
        forall|j: int| 0 <= j < p.len() ==> p[j] != '/',
    ensures
        file_name_of(p) == p,
    decreases p.len(),
{
    if p.len() > 0 {
        lemma_file_name_no_slash(p.drop_last());
        assert(p.drop_last().push(p.last()) =~= p);
    }
}

/// With the last separator at `i`, the file name is the text after it.
proof fn lemma_file_name_slash(p: Seq<char>, i: int)
    requires
        0 <= i < p.len(),
        p[i] == '/',
        forall|j: int| i < j < p.len() ==> p[j] != '/',
    ensures
        file_name_of(p) == p.skip(i + 1),
    decreases p.len(),
{
    if i == p.len() - 1 {
        assert(p.skip(i + 1) =~= Seq::<char>::empty());
    } else {
        lemma_file_name_slash(p.drop_last(), i);
        assert(p.drop_last().skip(i + 1).push(p.last()) =~= p.skip(i + 1));
    }
}

/// A file name with no dot has no extension.
proof fn lemma_ext_no_dot(f: Seq<char>)
    requires
        forall|j: int| 0 <= j < f.len() ==> f[j] != '.',
    ensures
        ext_of(f) is None,
    decreases f.len(),
{
    if f.len() > 1 {
        lemma_ext_no_dot(f.drop_last());
    }
}

/// With the last dot at `k`, the extension is the text after it, except that
/// a leading dot marks no extension.
proof fn lemma_ext_dot(f: Seq<char>, k: int)
    requires
        0 <= k < f.len(),
        f[k] == '.',
        forall|j: int| k < j < f.len() ==> f[j] != '.',
    ensures
        k == 0 ==> ext_of(f) is None,
        k > 0 ==> ext_of(f) == Some(f.skip(k + 1)),
    decreases f.len(),
{
    if k == f.len() - 1 {
        if k > 0 {
            assert(f.skip(k + 1) =~= Seq::<char>::empty());
        }
    } else {
        lemma_ext_dot(f.drop_last(), k);
        if k > 0 {
            assert(f.drop_last().skip(k + 1).push(f.last()) =~= f.skip(k + 1));
        }
    }
}

/// Whether the list holds a string with exactly the characters of `s`.
fn list_contains(list: &Vec<String>, s: &str) -> (r: bool)
    ensures
        r == list.deep_view().contains(s@),
{
    let ghost ldv = list.deep_view();
    let mut i: usize = 0;
    while i < list.len()
        invariant
            ldv == list.deep_view(),
            i <= ldv.len(),
            ldv.len() == list@.len(),
            forall|t: int| 0 <= t < i ==> ldv[t] != s@,
        decreases list@.len() - i,
    {
        if str_eq(list[i].as_str(), s) {
            proof {
                assert(ldv[i as int] == s@);
            }
            return true;
        }
        i += 1;
    }
    proof {
        if ldv.contains(s@) {
            let t = choose|t: int| 0 <= t < ldv.len() && ldv[t] == s@;
        }
    }
    false
}

/// Whether the entry at `path` survives the extension filter.
pub fn entry_kept(path: &str, ignore: &Vec<String>) -> (r: bool)
    ensures
        r == kept(path@, ignore.deep_view()),
{
    let len = path.unicode_len();
    let fstart: usize = match last_index_of(path, '/') {
        Some(i) => {
            proof {
                lemma_file_name_slash(path@, i as int);
            }
            i + 1
        },
        None => {
            proof {
                lemma_file_name_no_slash(path@);
                assert(path@.skip(0) =~= path@);
            }
            0
        },
    };
    let fname = path.substring_char(fstart, len);
    proof {
        assert(fname@ =~= path@.skip(fstart as int));
        assert(fname@ == file_name_of(path@));
    }
    match last_index_of(fname, '.') {
        None => {
            proof {
                lemma_ext_no_dot(fname@);
            }
            true
        },
        Some(k) => {
            if k == 0 {
                proof {
                    lemma_ext_dot(fname@, 0);
                }
                true
            } else {
                let flen = fname.unicode_len();
                let ext = fname.substring_char(k + 1, flen);
                proof {
                    lemma_ext_dot(fname@, k as int);
                    assert(ext@ =~= fname@.skip(k as int + 1));
                }
                let low = lowercase(ext);
                let inlist = list_contains(ignore, low.as_str());
                !inlist
            }
        },
    }
}

/// The path at `path` expressed relative to `root`, or `None`.
pub fn rel_of_exec(path: &str, root: &str) -> (r: Option<String>)
    ensures
        r.deep_view() == rel_of(path@, root@),
{
    let lp = path.unicode_len();
    let lr = root.unicode_len();
    if lr > lp {
        return None;
    }
    let mut i: usize = 0;
    while i < lr
        invariant
            lp == path@.len(),
            lr == root@.len(),
            lr <= lp,
            i <= lr,
            forall|j: int| 0 <= j < i ==> path@[j] == root@[j],
        decreases lr - i,
    {
        if path.get_char(i) != root.get_char(i) {
            proof {
                assert(path@.take(lr as int)[i as int] != root@[i as int]);
            }
            return None;
        }
        i += 1;
    }
    proof {
        assert(path@.take(lr as int) =~= root@);
    }
    if lp == lr {
        let empty = String::new();
        return Some(empty);
    }
    if lr == 0 {
        return Some(path.to_owned());
    }
    if root.get_char(lr - 1) == '/' {
        let sub = path.substring_char(lr, lp);
        proof {
            assert(sub@ =~= path@.skip(lr as int));
        }
        return Some(sub.to_owned());
    }
    if path.get_char(lr) == '/' {
        let sub = path.substring_char(lr + 1, lp);
        proof {
            assert(sub@ =~= path@.skip(lr as int + 1));
        }
        return Some(sub.to_owned());
    }
    None
}

/// Relies on walkdir's `WalkDir`: yields every entry of the subtree under
/// `root` (the root itself included), each with the full path that walkdir
/// reports (the root joined with the entry's relative path) and whether it
/// is a directory; entries that could not be read are skipped.
#[verifier::external_body]
fn walk_dir(root: &str) -> Vec<FsEntry> {
    walkdir::WalkDir::new(root)
        .into_iter()
        .filter_map(Result::ok)
        .map(|e| FsEntry { is_dir: e.file_type().is_dir(), path: e.path().display().to_string() })
        .collect()
}

/// Filters the walked entries and collects the relative paths of the kept
/// files, without duplicates; fails when a kept file's path cannot be
/// expressed relative to the root.
pub fn collect_members(entries: &Vec<FsEntry>, root: &str, ignore: &Vec<String>) -> (r: Result<
    Vec<String>,
    ScanError,
>)
    ensures
        match r {
            Ok(v) => scan_ok(entries.deep_view(), root@, ignore.deep_view()) && distinct_seqs(
                v.deep_view(),
            ) && forall|m: Seq<char>| #[trigger] v.deep_view().contains(m) <==> is_scan_member(
                entries.deep_view(),
                root@,
                ignore.deep_view(),
                m,
            ),
            Err(e) => !scan_ok(entries.deep_view(), root@, ignore.deep_view()) && e.root@ == root@
                && exists|i: int| 0 <= i < entries.deep_view().len()
                && !(#[trigger] entries.deep_view()[i]).is_dir
                && kept(entries.deep_view()[i].path, ignore.deep_view())
                && rel_of(entries.deep_view()[i].path, root@) is None
                && entries.deep_view()[i].path == e.path@,
        },
{
    let ghost edv = entries.deep_view();
    let ghost igs = ignore.deep_view();
    let mut seen: StringHashMap<bool> = StringHashMap::new();
    let mut out: Vec<String> = Vec::new();
    let mut i: usize = 0;
    while i < entries.len()
        invariant
            edv == entries.deep_view(),
            igs == ignore.deep_view(),
            i <= edv.len(),
            edv.len() == entries@.len(),
            forall|m: Seq<char>| #[trigger] seen@.contains_key(m) <==> out.deep_view().contains(m),
            distinct_seqs(out.deep_view()),
            forall|m: Seq<char>| #[trigger] out.deep_view().contains(m) <==> is_scan_member_upto(
                edv,
                i as int,
                root@,
                igs,
                m,
            ),
            forall|t: int| 0 <= t < i ==> ((!(#[trigger] edv[t]).is_dir && kept(edv[t].path, igs))
                ==> rel_of(edv[t].path, root@) is Some),
        decreases entries@.len() - i,
    {
        let ent = &entries[i];
        proof {
            assert(ent@ == edv[i as int]);
        }
        if !ent.is_dir && entry_kept(ent.path.as_str(), ignore) {
            match rel_of_exec(ent.path.as_str(), root) {
                None => {
                    proof {
                        assert(rel_of(edv[i as int].path, root@) is None);
                        assert(!scan_ok(edv, root@, igs));
                    }
                    return Err(ScanError { path: ent.path.clone(), root: root.to_owned() });
                },
                Some(m) => {
                    let ghost odv = out.deep_view();
                    if !seen.contains_key(m.as_str()) {
                        seen.insert(m.clone(), true);
                        out.push(m);
                        proof {
                            let ndv = out.deep_view();
                            assert(ndv.len() == odv.len() + 1);
                            assert forall|t: int| 0 <= t < odv.len() implies #[trigger] ndv[t]
                                == odv[t] by {}
                            assert(ndv[odv.len() as int] == rel_of(
                                edv[i as int].path,
                                root@,
                            )->Some_0);
                            assert forall|w: Seq<char>| #[trigger] ndv.contains(w) <==> (
                            odv.contains(w) || w == ndv[odv.len() as int]) by {
                                if ndv.contains(w) {
                                    let t = choose|t: int| 0 <= t < ndv.len() && ndv[t] == w;
                                    if t < odv.len() {
                                        assert(odv[t] == w);
                                    }
                                }
                                if odv.contains(w) {
                                    let t = choose|t: int| 0 <= t < odv.len() && odv[t] == w;
                                    assert(ndv[t] == w);
                                }
                            }
                        }
                    } else {
                        proof {
                            assert(out.deep_view().contains(m@));
                        }
                    }
                    proof {
                        let ndv = out.deep_view();
                        assert forall|w: Seq<char>| #[trigger] ndv.contains(w)
                            <==> is_scan_member_upto(edv, i as int + 1, root@, igs, w) by {
                            if ndv.contains(w) {
                                if odv.contains(w) {
                                    let t = choose|t: int| 0 <= t < i && t < edv.len()
                                        && !(#[trigger] edv[t]).is_dir && kept(edv[t].path, igs)
                                        && rel_of(edv[t].path, root@) == Some(w);
                                } else {
                                    assert(w == m@);
                                    assert(rel_of(edv[i as int].path, root@) == Some(w));
                                }
                            }
                            if is_scan_member_upto(edv, i as int + 1, root@, igs, w) {
                                let t = choose|t: int| 0 <= t < i + 1 && t < edv.len()
                                    && !(#[trigger] edv[t]).is_dir && kept(edv[t].path, igs)
                                    && rel_of(edv[t].path, root@) == Some(w);
                                if t < i {
                                    assert(is_scan_member_upto(edv, i as int, root@, igs, w));
                                } else {
                                    assert(w == m@);
                                    assert(ndv.contains(w));
                                }
                            }
                        }
                    }
                },
            }
        } else {
            proof {
                assert forall|w: Seq<char>| is_scan_member_upto(edv, i as int + 1, root@, igs, w)
                    implies #[trigger] out.deep_view().contains(w) by {
                    let t = choose|t: int| 0 <= t < i + 1 && t < edv.len()
                        && !(#[trigger] edv[t]).is_dir && kept(edv[t].path, igs) && rel_of(
                        edv[t].path,
                        root@,
                    ) == Some(w);
                    assert(t < i);
                    assert(is_scan_member_upto(edv, i as int, root@, igs, w));
                }
            }
        }
        i += 1;
    }
    Ok(out)
}

/// Walks the subtree under `root` and collects the relative paths of the
/// kept files. Whatever the walk returned, the result holds no duplicates;
/// an error means a walked path escaped the root.
pub fn scan(root: &str, ignore: &Vec<String>) -> (r: Result<Vec<String>, ScanError>)
    ensures
        match r {
            Ok(v) => distinct_seqs(v.deep_view()),
            Err(e) => e.root@ == root@ && kept(e.path@, ignore.deep_view()) && rel_of(
                e.path@,
                root@,
            ) is None,
        },
{
    let entries = walk_dir(root);
    match collect_members(&entries, root, ignore) {
        Ok(v) => Ok(v),
        Err(e) => {
            proof {
                let edv = entries.deep_view();
                let i = choose|i: int| 0 <= i < edv.len() && !(#[trigger] edv[i]).is_dir && kept(
                    edv[i].path,
                    ignore.deep_view(),
                ) && rel_of(edv[i].path, root@) is None && edv[i].path == e.path@;
            }
            Err(e)
        },
    }
}

/// The pieces of `s` between commas, as `str::split(',')` yields them.
pub open spec fn split_commas(s: Seq<char>) -> Seq<Seq<char>>
    decreases s.len(),
{
    if s.len() == 0 {
        seq![Seq::<char>::empty()]
    } else if s[0] == ',' {
        seq![Seq::<char>::empty()] + split_commas(s.drop_first())
    } else {
        let rest = split_commas(s.drop_first());
        seq![seq![s[0]] + rest[0]] + rest.drop_first()
    }
}

/// `split_commas` yields at least one piece.
proof fn lemma_split_nonempty(s: Seq<char>)
    ensures
        split_commas(s).len() >= 1,
    decreases s.len(),
{
    if s.len() > 0 {
        lemma_split_nonempty(s.drop_first());
    }
}

/// A comma-free string is its own single piece.
proof fn lemma_split_no_comma(s: Seq<char>)
    requires
        forall|j: int| 0 <= j < s.len() ==> s[j] != ',',
    ensures
        split_commas(s) == seq![s],
    decreases s.len(),
{
    if s.len() == 0 {
        assert(s =~= Seq::<char>::empty());
        assert(split_commas(s) =~= seq![s]);
    } else {
        lemma_split_no_comma(s.drop_first());
        let rest = split_commas(s.drop_first());
        assert(rest[0] == s.drop_first());
        assert(seq![s[0]] + s.drop_first() =~= s);
        assert(rest.drop_first() =~= Seq::<Seq<char>>::empty());
        assert(seq![seq![s[0]] + rest[0]] + rest.drop_first() =~= seq![s]);
    }
}

/// With the first comma at `k`, splitting takes the text before it as the
/// first piece and splits the rest.
proof fn lemma_split_comma(s: Seq<char>, k: int)
    requires
        0 <= k < s.len(),
        s[k] == ',',
        forall|j: int| 0 <= j < k ==> s[j] != ',',
    ensures
        split_commas(s) == seq![s.take(k)] + split_commas(s.skip(k + 1)),
    decreases s.len(),
{
    if k == 0 {
        assert(s.take(0) =~= Seq::<char>::empty());
        assert(s.drop_first() =~= s.skip(1));
        assert(seq![Seq::<char>::empty()] + split_commas(s.drop_first()) =~= seq![s.take(0)]
            + split_commas(s.skip(1)));
    } else {
        let d = s.drop_first();
        assert(d[k - 1] == ',');
        assert(forall|j: int| 0 <= j < k - 1 ==> d[j] == s[j + 1] && d[j] != ',');
        lemma_split_comma(d, k - 1);
        lemma_split_nonempty(d.skip(k));
        let rest = split_commas(d);
        assert(rest == seq![d.take(k - 1)] + split_commas(d.skip(k)));
        assert(rest[0] == d.take(k - 1));
        assert(seq![s[0]] + d.take(k - 1) =~= s.take(k));
        assert(rest.drop_first() =~= split_commas(d.skip(k)));
        assert(d.skip(k) =~= s.skip(k + 1));
        assert(seq![seq![s[0]] + rest[0]] + rest.drop_first() =~= seq![s.take(k)] + split_commas(
            s.skip(k + 1),
        ));
    }
}

/// Splits `s` at commas, as `str::split(',')` does.
fn split_commas_exec(s: &str) -> (r: Vec<String>)
    ensures
        r.deep_view() == split_commas(s@),
{
    let len = s.unicode_len();
    let mut out: Vec<String> = Vec::new();
    let mut start: usize = 0;
    proof {
        assert(s@.skip(0) =~= s@);
        assert(out.deep_view() + split_commas(s@) =~= split_commas(s@));
    }
    loop
        invariant_except_break
            len == s@.len(),
            start <= len,
            split_commas(s@) == out.deep_view() + split_commas(s@.skip(start as int)),
        ensures
            out.deep_view() == split_commas(s@),
        decreases len - start,
    {
        let ghost odv = out.deep_view();
        match index_of_from(s, ',', start) {
            Some(ci) => {
                let piece = s.substring_char(start, ci).to_owned();
                out.push(piece);
                proof {
                    let suf = s@.skip(start as int);
                    assert(suf[ci - start] == ',');
                    assert(forall|j: int| 0 <= j < ci - start ==> suf[j] == s@[j + start]
                        && suf[j] != ',');
                    lemma_split_comma(suf, ci - start);
                    assert(suf.take(ci - start) =~= s@.subrange(start as int, ci as int));
                    assert(suf.skip(ci - start + 1) =~= s@.skip(ci as int + 1));
                    assert(out.deep_view() =~= odv.push(suf.take(ci - start)));
                    assert(odv + split_commas(suf) =~= out.deep_view() + split_commas(
                        s@.skip(ci as int + 1),
                    ));
                }
                start = ci + 1;
            },
            None => {
                let piece = s.substring_char(start, len).to_owned();
                out.push(piece);
                proof {
                    let suf = s@.skip(start as int);
                    assert(forall|j: int| 0 <= j < suf.len() ==> suf[j] == s@[j + start]
                        && suf[j] != ',');
                    lemma_split_no_comma(suf);
                    assert(suf =~= s@.subrange(start as int, len as int));
                    assert(out.deep_view() =~= odv.push(suf));
                    assert(odv + split_commas(suf) =~= out.deep_view());
                }
                break;
            },
        }
    }
    out
}

/// The lower-cased pieces of every ignore specification, in order: each
/// specification is split at commas and each piece lower-cased.
pub open spec fn ignore_models(specs: Seq<Seq<char>>) -> Seq<Seq<char>>
    decreases specs.len(),
{
    if specs.len() == 0 {
        Seq::empty()
    } else {
        ignore_models(specs.drop_last()) + split_commas(specs.last()).map_values(
            |p: Seq<char>| lower_of(p),
        )
    }
}

/// Builds the ignore list: splits each specification at commas and
/// lower-cases each piece, so the extension filter can compare
/// case-insensitively.
pub fn build_ignore_set(specs: &Vec<String>) -> (r: Vec<String>)
    ensures
        r.deep_view() == ignore_models(specs.deep_view()),
{
    let ghost sdv = specs.deep_view();
    let mut out: Vec<String> = Vec::new();
    proof {
        assert(sdv.take(0) =~= Seq::<Seq<char>>::empty());
        assert(out.deep_view() =~= ignore_models(sdv.take(0)));
    }
    let mut i: usize = 0;
    while i < specs.len()
        invariant
            sdv == specs.deep_view(),
            i <= sdv.len(),
            sdv.len() == specs@.len(),
            out.deep_view() == ignore_models(sdv.take(i as int)),
        decreases specs@.len() - i,
    {
        let pieces = split_commas_exec(specs[i].as_str());
        let ghost pdv = pieces.deep_view();
        proof {
            assert(specs@[i as int]@ == sdv[i as int]);
            assert(pdv == split_commas(sdv[i as int]));
        }
        let ghost base = out.deep_view();
        let mut j: usize = 0;
        while j < pieces.len()
            invariant
                pdv == pieces.deep_view(),
                j <= pdv.len(),
                pdv.len() == pieces@.len(),
                out.deep_view() == base + pdv.take(j as int).map_values(
                    |p: Seq<char>| lower_of(p),
                ),
            decreases pieces@.len() - j,
        {
            let ghost before = out.deep_view();
            let low = lowercase(pieces[j].as_str());
            out.push(low);
            proof {
                assert(pieces@[j as int]@ == pdv[j as int]);
                assert(out.deep_view() =~= before.push(lower_of(pdv[j as int])));
                assert(pdv.take(j as int + 1).map_values(|p: Seq<char>| lower_of(p)) =~= pdv.take(
                    j as int,
                ).map_values(|p: Seq<char>| lower_of(p)).push(lower_of(pdv[j as int])));
                assert(out.deep_view() =~= base + pdv.take(j as int + 1).map_values(
                    |p: Seq<char>| lower_of(p),
                ));
            }
            j += 1;
        }
        proof {
            assert(pdv.take(pdv.len() as int) =~= pdv);
            assert(sdv.take(i as int + 1).drop_last() =~= sdv.take(i as int));
            assert(sdv.take(i as int + 1).last() == sdv[i as int]);
            assert(ignore_models(sdv.take(i as int + 1)) == ignore_models(sdv.take(i as int))
                + split_commas(sdv[i as int]).map_values(|p: Seq<char>| lower_of(p)));
            assert(out.deep_view() =~= ignore_models(sdv.take(i as int + 1)));
        }
        i += 1;
    }
    proof {
        assert(sdv.take(sdv.len() as int) =~= sdv);
    }
    out
}

/// A group described to the host-facing entry point: a reporting name and
/// the root of the subtree whose files it claims.
#[derive(Debug)]
pub struct GroupRoot {
    pub name: String,
    pub root: String,
}

/// Scans every group's subtree, detects members claimed by two or more
/// groups, and reports them. Duplicate group names are rejected as a caller
/// error; a walked path escaping its root aborts the call.
pub fn detect_conflicts(
    groups: &Vec<GroupRoot>,
    ignore_extensions: &Vec<String>,
    group_label: &str,
    member_label: &str,
) -> (r: Result<(), DetectError>)
    ensures
        groups@.len() == 0 ==> r is Ok,
        match r {
            Ok(()) => forall|i: int, j: int| 0 <= i < j < groups@.len()
                ==> (#[trigger] groups@[i]).name@ != (#[trigger] groups@[j]).name@,
            Err(err) => match err {
                DetectError::DuplicateGroupName => exists|i: int, j: int| 0 <= i < j
                    < groups@.len() && (#[trigger] groups@[i]).name@
                    == (#[trigger] groups@[j]).name@,
                DetectError::OutsideRoot(se) => exists|i: int| 0 <= i < groups@.len()
                    && (#[trigger] groups@[i]).root@ == se.root@,
                DetectError::Conflicts(e) => e.entries.deep_view().len() > 0 && entries_sorted(
                    e.entries.deep_view(),
                ) && e.group_label@ == group_label@ && e.member_label@ == member_label@
                    && e.message@ == render_message(member_label@, e.entries.deep_view())
                    && exists|gs: Seq<GroupModel>| (#[trigger] detect_post(
                    gs,
                    e.entries.deep_view(),
                )) && gs.len() == groups@.len() && groups_wf(gs) && forall|t: int|
                    0 <= t < gs.len() ==> (#[trigger] gs[t]).name == groups@[t].name@,
            },
        },
{
    let igs = build_ignore_set(ignore_extensions);
    let mut scanned: Vec<Group> = Vec::new();
    let mut i: usize = 0;
    while i < groups.len()
        invariant
            i <= groups@.len(),
            scanned@.len() == i,
            forall|t: int| 0 <= t < i ==> (#[trigger] scanned.deep_view()[t]).name
                == groups@[t].name@,
            forall|t: int| 0 <= t < i ==> distinct_seqs(
                (#[trigger] scanned.deep_view()[t]).members,
            ),
        decreases groups@.len() - i,
    {
        match scan(groups[i].root.as_str(), &igs) {
            Ok(members) => {
                let ghost so = scanned@;
                let ghost sdvo = scanned.deep_view();
                scanned.push(Group { name: groups[i].name.clone(), members });
                proof {
                    assert forall|t: int| 0 <= t < i + 1 implies
                        (#[trigger] scanned.deep_view()[t]).name == groups@[t].name@
                        && distinct_seqs(scanned.deep_view()[t].members) by {
                        if t < i {
                            assert(scanned@[t] == so[t]);
                            assert(scanned.deep_view()[t] == sdvo[t]);
                        } else {
                            assert(scanned.deep_view()[t] == scanned@[t]@);
                        }
                    }
                }
            },
            Err(se) => {
                proof {
                    assert(groups@[i as int].root@ == se.root@);
                }
                return Err(DetectError::OutsideRoot(se));
            },
        }
        i += 1;
    }
    if !distinct_names(&scanned) {
        proof {
            let (a, b) = choose|a: int, b: int| 0 <= a < b < scanned.deep_view().len()
                && (#[trigger] scanned.deep_view()[a]).name
                == (#[trigger] scanned.deep_view()[b]).name;
            assert(groups@[a].name@ == groups@[b].name@);
        }
        return Err(DetectError::DuplicateGroupName);
    }
    match conflicts(group_label, member_label, &scanned) {
        Ok(()) => {
            proof {
                assert forall|a: int, b: int| 0 <= a < b < groups@.len() implies
                    (#[trigger] groups@[a]).name@ != (#[trigger] groups@[b]).name@ by {
                    assert(scanned.deep_view()[a].name == groups@[a].name@);
                    assert(scanned.deep_view()[b].name == groups@[b].name@);
                }
            }
            Ok(())
        },
        Err(e) => {
            proof {
                let gsw = scanned.deep_view();
                assert(gsw.len() == groups@.len());
                if groups@.len() == 0 {
                    let m = choose|m: Seq<char>| crate::conflicts::conflicting(gsw, m);
                    assert(crate::conflicts::owners(gsw, m).len() == 0);
                }
                assert(detect_post(gsw, e.entries.deep_view()));
                assert(groups_wf(gsw));
                assert(forall|t: int| 0 <= t < gsw.len() ==> (#[trigger] gsw[t]).name
                    == groups@[t].name@);
            }
            Err(DetectError::Conflicts(e))
        },
    }
}

} // verus!
