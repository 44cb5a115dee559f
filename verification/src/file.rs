//! Discovery of candidate source documents: given a walk of the directory
//! tree below a root, keep the regular files whose extension matches, drop
//! everything below an excluded directory name, and return their metadata in
//! a deterministic order, sorted by full path.

use crate::base::lemma_lex_le_total;
use crate::base::lemma_lex_le_trans;
use crate::base::lex_le;
use crate::base::str_eq;
use crate::base::str_le;
use crate::base::views_of;
use vstd::prelude::*;

verus! {

/// Metadata of one discovered file.
#[derive(Debug)]
pub struct FileMeta {
    /// Base name of the file, extension included.
    pub file_name: String,
    /// Containing directory, relative to however the root was supplied.
    pub dir: String,
    /// `dir` joined with `file_name`.
    pub full_path: String,
}

/// The mathematical content of a `FileMeta`: its three path texts.
pub struct FileMetaModel {
    pub file_name: Seq<char>,
    pub dir: Seq<char>,
    pub full_path: Seq<char>,
}

impl View for FileMeta {
    type V = FileMetaModel;

    open spec fn view(&self) -> FileMetaModel {
        FileMetaModel {
            file_name: self.file_name@,
            dir: self.dir@,
            full_path: self.full_path@,
        }
    }
}

/// One regular file as a walk of the tree below the root reports it: the
/// names of the directories on the way down from the root, outermost first,
/// and the file's base name.
pub struct FsEntry {
    pub dirs: Vec<String>,
    pub file_name: String,
}

/// The mathematical content of an `FsEntry`.
pub struct FsEntryModel {
    pub dirs: Seq<Seq<char>>,
    pub file_name: Seq<char>,
}

impl View for FsEntry {
    type V = FsEntryModel;

    open spec fn view(&self) -> FsEntryModel {
        FsEntryModel { dirs: views_of(self.dirs@), file_name: self.file_name@ }
    }
}

/// Discovers candidate source documents below a root directory, filtered by
/// extension and by excluded directory names.
pub struct FileOperator {
    /// The root directory as it was supplied.
    pub root: String,
    /// Extension to keep, without the leading dot.
    pub extension: String,
    /// Directory names (not paths) whose whole subtree is dropped, at every
    /// nesting level.
    pub ignore_dirs: Vec<String>,
}

/// The mathematical content of a `FileOperator`.
pub struct FileOperatorModel {
    pub root: Seq<char>,
    pub extension: Seq<char>,
    pub ignore_dirs: Seq<Seq<char>>,
}

impl View for FileOperator {
    type V = FileOperatorModel;

    open spec fn view(&self) -> FileOperatorModel {
        FileOperatorModel {
            root: self.root@,
            extension: self.extension@,
            ignore_dirs: views_of(self.ignore_dirs@),
        }
    }
}

/// The root as it stands at the front of every produced path: trailing
/// separators removed.
pub open spec fn norm_root(s: Seq<char>) -> Seq<char>
    decreases s.len(),
{
    if s.len() > 0 && s.last() == '/' {
        norm_root(s.drop_last())
    } else {
        s
    }
}

/// The directory path of an entry: the normalized root with each directory
/// name of the entry appended behind a separator.
pub open spec fn joined_dir(root: Seq<char>, dirs: Seq<Seq<char>>) -> Seq<char>
    decreases dirs.len(),
{
    if dirs.len() == 0 {
        norm_root(root)
    } else {
        joined_dir(root, dirs.drop_last()) + seq!['/'] + dirs.last()
    }
}

/// `k` marks the extension of `name`: the last dot, with at least one
/// character before it, and exactly `ext` after it.
pub open spec fn is_ext_at(name: Seq<char>, ext: Seq<char>, k: int) -> bool {
    &&& 0 < k < name.len()
    &&& name[k] == '.'
    &&& forall|j: int| k < j < name.len() ==> name[j] != '.'
    &&& name.subrange(k + 1, name.len() as int) == ext
}

/// The name's extension — what stands after its last dot, provided something
/// stands before that dot — is exactly `ext` (case-sensitive).
pub open spec fn ext_matches(name: Seq<char>, ext: Seq<char>) -> bool {
    exists|k: int| is_ext_at(name, ext, k)
}

/// The directory name is one of the excluded names.
pub open spec fn name_ignored(ignore_dirs: Seq<Seq<char>>, name: Seq<char>) -> bool {
    exists|i: int| 0 <= i < ignore_dirs.len() && ignore_dirs[i] == name
}

/// The entry is kept: its file name has the configured extension, and no
/// directory on its way down from the root is excluded.
pub open spec fn entry_included(op: FileOperatorModel, e: FsEntryModel) -> bool {
    &&& ext_matches(e.file_name, op.extension)
    &&& forall|i: int|
        0 <= i < e.dirs.len() ==> !name_ignored(op.ignore_dirs, #[trigger] e.dirs[i])
}

/// The metadata produced for one kept entry.
pub open spec fn meta_of(op: FileOperatorModel, e: FsEntryModel) -> FileMetaModel {
    let dir = joined_dir(op.root, e.dirs);
    FileMetaModel {
        file_name: e.file_name,
        dir: dir,
        full_path: dir + seq!['/'] + e.file_name,
    }
}

/// Everything a listing keeps of a walk, before ordering: the metadata of
/// the included entries, in walk order.
pub open spec fn discovered(op: FileOperatorModel, entries: Seq<FsEntryModel>) -> Seq<
    FileMetaModel,
> {
    entries.filter(|e: FsEntryModel| entry_included(op, e)).map_values(
        |e: FsEntryModel| meta_of(op, e),
    )
}

/// The metadata sequence is ordered by full path, in code-point order.
pub open spec fn sorted_by_path(s: Seq<FileMeta>) -> bool {
    forall|i: int, j: int| 0 <= i < j < s.len() ==> lex_le(s[i].full_path@, s[j].full_path@)
}

/// The views of a sequence of produced metadata.
pub open spec fn meta_models(s: Seq<FileMeta>) -> Seq<FileMetaModel> {
    s.map_values(|m: FileMeta| m@)
}

impl FileOperator {
    /// Builds a discoverer for `root`: keep files whose extension (without
    /// the leading dot) is `extension`, and drop every directory whose name
    /// stands in `ignore_dirs`, wherever it sits in the tree.
    pub fn create(root: &str, extension: &str, ignore_dirs: &[String]) -> (r: FileOperator)
        ensures
            r@.root == root@,
            r@.extension == extension@,
            r@.ignore_dirs == views_of(ignore_dirs@),
    {
        let mut names: Vec<String> = Vec::new();
        let mut i: usize = 0;
        while i < ignore_dirs.len()
            invariant
                i <= ignore_dirs@.len(),
                views_of(names@) == views_of(ignore_dirs@.take(i as int)),
            decreases ignore_dirs@.len() - i,
        {
            let d = ignore_dirs[i].clone();
            let ghost prev = names@;
            names.push(d);
            proof {
                assert(d == ignore_dirs@[i as int]);
                assert(views_of(prev).len() == prev.len());
                assert(views_of(ignore_dirs@.take(i as int)).len() == i as int);
                assert(prev.len() == i as int);
                assert forall|j: int| 0 <= j < names@.len() implies views_of(names@)[j]
                    == views_of(ignore_dirs@.take(i as int + 1))[j] by {
                    if j < i as int {
                        assert(names@[j] == prev[j]);
                        assert(views_of(prev)[j] == views_of(ignore_dirs@.take(i as int))[j]);
                        assert(ignore_dirs@.take(i as int)[j] == ignore_dirs@.take(i as int + 1)[j]);
                    } else {
                        assert(names@[j] == d);
                        assert(ignore_dirs@.take(i as int + 1)[j] == ignore_dirs@[i as int]);
                    }
                }
                assert(views_of(names@) =~= views_of(ignore_dirs@.take(i as int + 1)));
            }
            i = i + 1;
        }
        proof {
            assert(ignore_dirs@.take(ignore_dirs@.len() as int) =~= ignore_dirs@);
        }
        FileOperator {
            root: root.to_owned(),
            extension: extension.to_owned(),
            ignore_dirs: names,
        }
    }

    /// Whether a directory of this name is excluded from the walk; exclusion
    /// is by exact name, at every nesting level.
    pub fn is_ignored_dir(&self, name: &str) -> (r: bool)
        ensures
            r == name_ignored(self@.ignore_dirs, name@),
    {
        let mut i: usize = 0;
        while i < self.ignore_dirs.len()
            invariant
                i <= self.ignore_dirs@.len(),
                forall|j: int| 0 <= j < i ==> self@.ignore_dirs[j] != name@,
            decreases self.ignore_dirs@.len() - i,
        {
            if str_eq(self.ignore_dirs[i].as_str(), name) {
                proof {
                    assert(self@.ignore_dirs[i as int] == name@);
                }
                return true;
            }
            i = i + 1;
        }
        false
    }
}

/// The models of a sequence of walked entries.
pub open spec fn entry_models(s: Seq<FsEntry>) -> Seq<FsEntryModel> {
    s.map_values(|e: FsEntry| e@)
}

/// Strips trailing separators off the supplied root, so that joining it
/// with a file name never doubles the separator.
fn trim_root(root: &str) -> (r: String)
    ensures
        r@ == norm_root(root@),
{
    let n = root.unicode_len();
    let mut k: usize = n;
    proof {
        assert(root@.take(n as int) =~= root@);
    }
    while k > 0 && root.get_char(k - 1) == '/'
        invariant
            k <= n,
            n == root@.len(),
            norm_root(root@) == norm_root(root@.take(k as int)),
        decreases k,
    {
        proof {
            assert(root@.take(k as int).last() == root@[k as int - 1]);
            assert(root@.take(k as int).drop_last() =~= root@.take(k as int - 1));
        }
        k = k - 1;
    }
    proof {
        if k > 0 {
            assert(root@.take(k as int).last() == root@[k as int - 1]);
        }
        assert(norm_root(root@.take(k as int)) == root@.take(k as int));
    }
    let r = root.substring_char(0, k).to_owned();
    proof {
        assert(root@.subrange(0, k as int) =~= root@.take(k as int));
    }
    r
}

impl FileOperator {
    /// The metadata this discoverer produces for one walked entry: the
    /// containing directory is the normalized root joined with the entry's
    /// directory names, and the full path is that directory joined with the
    /// file name.
    pub fn meta_for(&self, e: &FsEntry) -> (m: FileMeta)
        ensures
            m@ == meta_of(self@, e@),
    {
        let mut dir = trim_root(self.root.as_str());
        let mut k: usize = 0;
        proof {
            assert(e@.dirs.len() == e.dirs@.len());
            assert(e@.dirs.take(0) =~= Seq::<Seq<char>>::empty());
        }
        while k < e.dirs.len()
            invariant
                k <= e.dirs@.len(),
                e@.dirs.len() == e.dirs@.len(),
                dir@ == joined_dir(self@.root, e@.dirs.take(k as int)),
            decreases e.dirs@.len() - k,
        {
            let ghost prev = dir@;
            dir.push('/');
            dir.append(e.dirs[k].as_str());
            proof {
                let t1 = e@.dirs.take(k as int + 1);
                assert(t1.drop_last() =~= e@.dirs.take(k as int));
                assert(t1.last() == e@.dirs[k as int]);
                assert(e@.dirs[k as int] == e.dirs@[k as int]@);
                assert(dir@ =~= joined_dir(self@.root, t1));
            }
            k = k + 1;
        }
        proof {
            assert(e@.dirs.take(e@.dirs.len() as int) =~= e@.dirs);
        }
        let mut full = dir.clone();
        full.push('/');
        full.append(e.file_name.as_str());
        let m = FileMeta { file_name: e.file_name.clone(), dir, full_path: full };
        proof {
            assert(m@.full_path =~= joined_dir(self@.root, e@.dirs) + seq!['/'] + e@.file_name);
        }
        m
    }

    /// Whether the walk keeps this entry: the file name has the configured
    /// extension and none of the directories on its way down is excluded.
    pub fn entry_ok(&self, e: &FsEntry) -> (r: bool)
        ensures
            r == entry_included(self@, e@),
    {
        if !matches_extension(e.file_name.as_str(), self.extension.as_str()) {
            return false;
        }
        let mut k: usize = 0;
        proof {
            assert(e@.dirs.len() == e.dirs@.len());
        }
        while k < e.dirs.len()
            invariant
                k <= e.dirs@.len(),
                e@.dirs.len() == e.dirs@.len(),
                forall|j: int| 0 <= j < k ==> !name_ignored(self@.ignore_dirs, #[trigger] e@.dirs[j]),
            decreases e.dirs@.len() - k,
        {
            if self.is_ignored_dir(e.dirs[k].as_str()) {
                proof {
                    assert(e@.dirs[k as int] == e.dirs@[k as int]@);
                }
                return false;
            }
            proof {
                assert(e@.dirs[k as int] == e.dirs@[k as int]@);
            }
            k = k + 1;
        }
        true
    }
}

/// Mapping a sequence of metadata to models commutes with inserting one.
proof fn lemma_meta_models_insert(s: Seq<FileMeta>, i: int, m: FileMeta)
    requires
        0 <= i <= s.len(),
    ensures
        meta_models(s.insert(i, m)) == meta_models(s).insert(i, m@),
{
    s.insert_ensures(i, m);
    meta_models(s).insert_ensures(i, m@);
    assert(meta_models(s.insert(i, m)) =~= meta_models(s).insert(i, m@));
}

/// Mapping a sequence of metadata to models commutes with removing the head.
proof fn lemma_meta_models_remove0(s: Seq<FileMeta>)
    requires
        s.len() > 0,
    ensures
        meta_models(s.remove(0)) == meta_models(s).remove(0),
{
    s.remove_ensures(0);
    meta_models(s).remove_ensures(0);
    assert(meta_models(s.remove(0)) =~= meta_models(s).remove(0));
}

/// Puts one item into an already ordered vector, in front of the first item
/// whose full path does not come before the new one.
fn insert_sorted(out: &mut Vec<FileMeta>, m: FileMeta)
    requires
        sorted_by_path(old(out)@),
    ensures
        sorted_by_path(final(out)@),
        meta_models(final(out)@).to_multiset() == meta_models(old(out)@).to_multiset().insert(m@),
{
    let mut j: usize = 0;
    while j < out.len() && str_le(out[j].full_path.as_str(), m.full_path.as_str())
        invariant
            j <= out@.len(),
            forall|k: int| 0 <= k < j ==> lex_le(out@[k].full_path@, m.full_path@),
        decreases out@.len() - j,
    {
        j = j + 1;
    }
    proof {
        if (j as int) < out@.len() {
            lemma_lex_le_total(out@[j as int].full_path@, m.full_path@);
        }
        assert forall|k: int| j <= k < out@.len() implies lex_le(
            m.full_path@,
            out@[k].full_path@,
        ) by {
            if k > j {
                lemma_lex_le_trans(
                    m.full_path@,
                    out@[j as int].full_path@,
                    out@[k].full_path@,
                );
            }
        }
    }
    let ghost pre = out@;
    out.insert(j, m);
    proof {
        broadcast use vstd::seq_lib::group_to_multiset_ensures;

        pre.insert_ensures(j as int, m);
        lemma_meta_models_insert(pre, j as int, m);
        assert(meta_models(out@).to_multiset() == meta_models(pre).to_multiset().insert(m@));
        assert forall|p: int, q: int| 0 <= p < q < out@.len() implies lex_le(
            out@[p].full_path@,
            out@[q].full_path@,
        ) by {
            if q < j as int {
                assert(out@[p] == pre[p] && out@[q] == pre[q]);
            } else if p < j as int && q == j as int {
                assert(out@[p] == pre[p] && out@[q] == m);
            } else if p < j as int && q > j as int {
                assert(out@[p] == pre[p] && out@[q] == pre[q - 1]);
            } else if p == j as int {
                assert(out@[p] == m && out@[q] == pre[q - 1]);
            } else {
                assert(out@[p] == pre[p - 1] && out@[q] == pre[q - 1]);
            }
        }
    }
}

/// Orders discovered metadata by full path, in code-point order, keeping
/// exactly the same items.
fn sort_by_full_path(v: Vec<FileMeta>) -> (r: Vec<FileMeta>)
    ensures
        sorted_by_path(r@),
        meta_models(r@).to_multiset() == meta_models(v@).to_multiset(),
{
    let mut input = v;
    let mut out: Vec<FileMeta> = Vec::new();
    proof {
        broadcast use vstd::seq_lib::group_to_multiset_ensures;
        broadcast use vstd::multiset::group_multiset_axioms;

        assert(meta_models(out@).to_multiset().add(meta_models(input@).to_multiset())
            =~= meta_models(v@).to_multiset());
    }
    while input.len() > 0
        invariant
            sorted_by_path(out@),
            meta_models(out@).to_multiset().add(meta_models(input@).to_multiset())
                =~= meta_models(v@).to_multiset(),
        decreases input@.len(),
    {
        let ghost pre_in = input@;
        let ghost pre_out = out@;
        let m = input.remove(0);
        insert_sorted(&mut out, m);
        proof {
            broadcast use vstd::seq_lib::group_to_multiset_ensures;
            broadcast use vstd::multiset::group_multiset_axioms;

            lemma_meta_models_remove0(pre_in);
            assert(meta_models(pre_in)[0] == m@);
            assert(meta_models(pre_in).to_multiset().count(m@) >= 1) by {
                assert(meta_models(pre_in).contains(m@));
            }
            assert(meta_models(out@).to_multiset().add(meta_models(input@).to_multiset())
                =~= meta_models(v@).to_multiset());
        }
    }
    proof {
        broadcast use vstd::seq_lib::group_to_multiset_ensures;
        broadcast use vstd::multiset::group_multiset_axioms;

        assert(meta_models(input@).len() == 0);
        assert(meta_models(out@).to_multiset() =~= meta_models(v@).to_multiset());
    }
    out
}

/// Filtering one entry more keeps the filtered front and decides the last.
proof fn lemma_filter_take_step<A>(s: Seq<A>, pred: spec_fn(A) -> bool, i: int)
    requires
        0 <= i < s.len(),
    ensures
        s.take(i + 1).filter(pred) == if pred(s[i]) {
            s.take(i).filter(pred).push(s[i])
        } else {
            s.take(i).filter(pred)
        },
{
    reveal(Seq::filter);
    assert(s.take(i + 1).drop_last() =~= s.take(i));
    assert(s.take(i + 1).last() == s[i]);
    if pred(s[i]) {
        assert(s.take(i + 1).filter(pred) =~= s.take(i).filter(pred).push(s[i]));
    }
}

/// Each item of a filtered sequence stands somewhere in the source.
proof fn lemma_filter_in_source<A>(s: Seq<A>, pred: spec_fn(A) -> bool, j: int)
    requires
        0 <= j < s.filter(pred).len(),
    ensures
        s.contains(s.filter(pred)[j]),
    decreases s.len(),
{
    reveal(Seq::filter);
    if s.len() > 0 {
        let f = s.filter(pred);
        let fd = s.drop_last().filter(pred);
        if pred(s.last()) && j == fd.len() {
            assert(f[j] == s.last());
            assert(s[s.len() - 1] == s.last());
        } else {
            lemma_filter_in_source(s.drop_last(), pred, j);
            let i = choose|i: int| 0 <= i < s.drop_last().len() && s.drop_last()[i] == fd[j];
            assert(s[i] == f[j]);
        }
    }
}

/// Two filters with pointwise equal predicates keep the same items.
proof fn lemma_filter_congruence<A>(s: Seq<A>, p: spec_fn(A) -> bool, q: spec_fn(A) -> bool)
    requires
        forall|x: A| #[trigger] p(x) == q(x),
    ensures
        s.filter(p) == s.filter(q),
    decreases s.len(),
{
    reveal(Seq::filter);
    if s.len() == 0 {
        assert(s.filter(p) =~= s.filter(q));
    } else {
        lemma_filter_congruence(s.drop_last(), p, q);
        assert(p(s.last()) == q(s.last()));
        assert(s.filter(p) =~= s.filter(q));
    }
}

impl FileOperator {
    /// The listing a walk of the tree gives: of all walked regular files,
    /// those whose extension matches and which lie below no excluded
    /// directory name, as metadata, sorted by full path. The walk order of
    /// `entries` leaves no trace in the result, which makes the listing
    /// deterministic and reproducible on the same filesystem state.
    pub fn list_from_entries(&self, entries: &Vec<FsEntry>) -> (r: Vec<FileMeta>)
        ensures
            sorted_by_path(r@),
            meta_models(r@).to_multiset() == discovered(self@, entry_models(entries@)).to_multiset(),
    {
        let ghost all = entry_models(entries@);
        let ghost pred = |e: FsEntryModel| entry_included(self@, e);
        let ghost f = |e: FsEntryModel| meta_of(self@, e);
        let mut kept: Vec<FileMeta> = Vec::new();
        let mut i: usize = 0;
        proof {
            assert(all.take(0) =~= Seq::<FsEntryModel>::empty());
            reveal(Seq::filter);
            assert(meta_models(kept@) =~= all.take(0).filter(pred).map_values(f));
        }
        while i < entries.len()
            invariant
                i <= entries@.len(),
                all == entry_models(entries@),
                all.len() == entries@.len(),
                pred == (|e: FsEntryModel| entry_included(self@, e)),
                f == (|e: FsEntryModel| meta_of(self@, e)),
                meta_models(kept@) == all.take(i as int).filter(pred).map_values(f),
            decreases entries@.len() - i,
        {
            let e = &entries[i];
            proof {
                assert(all[i as int] == e@);
            }
            let ghost pre = kept@;
            if self.entry_ok(e) {
                let m = self.meta_for(e);
                kept.push(m);
                proof {
                    assert(pred(all[i as int]));
                    lemma_filter_take_step(all, pred, i as int);
                    assert(meta_models(kept@) =~= pre.map_values(|x: FileMeta| x@).push(m@));
                    assert(all.take(i as int + 1).filter(pred).map_values(f) =~= all.take(
                        i as int,
                    ).filter(pred).map_values(f).push(f(all[i as int])));
                    assert(meta_models(kept@) =~= all.take(i as int + 1).filter(pred).map_values(
                        f,
                    ));
                }
            } else {
                proof {
                    assert(!pred(all[i as int]));
                    lemma_filter_take_step(all, pred, i as int);
                    assert(meta_models(kept@) =~= all.take(i as int + 1).filter(pred).map_values(
                        f,
                    ));
                }
            }
            i = i + 1;
        }
        proof {
            assert(all.take(entries@.len() as int) =~= all);
        }
        let r = sort_by_full_path(kept);
        r
    }
}

/// With no excluded directory names, a listing returns exactly one item per
/// walked file whose name has the configured extension; nothing else thins
/// the result.
pub proof fn lemma_no_ignores_keeps_all_matching(op: FileOperatorModel, entries: Seq<FsEntryModel>)
    requires
        op.ignore_dirs.len() == 0,
    ensures
        discovered(op, entries).len() == entries.filter(
            |e: FsEntryModel| ext_matches(e.file_name, op.extension),
        ).len(),
{
    let p = |e: FsEntryModel| entry_included(op, e);
    let q = |e: FsEntryModel| ext_matches(e.file_name, op.extension);
    assert forall|e: FsEntryModel| #[trigger] p(e) == q(e) by {
        assert(forall|i: int| 0 <= i < e.dirs.len() ==> !name_ignored(
            op.ignore_dirs,
            #[trigger] e.dirs[i],
        ));
    }
    lemma_filter_congruence(entries, p, q);
}

/// Whatever a listing returns came from an entry that the exclusion rules
/// keep: no file below an excluded directory name, at any nesting depth, is
/// ever listed.
pub proof fn lemma_listed_entry_not_ignored(
    op: FileOperatorModel,
    entries: Seq<FsEntryModel>,
    j: int,
)
    requires
        0 <= j < discovered(op, entries).len(),
    ensures
        exists|i: int|
            0 <= i < entries.len() && entry_included(op, #[trigger] entries[i]) && discovered(
                op,
                entries,
            )[j] == meta_of(op, entries[i]),
{
    let p = |e: FsEntryModel| entry_included(op, e);
    let fs = entries.filter(p);
    lemma_filter_in_source(entries, p, j);
    entries.lemma_filter_pred(p, j);
    let i = choose|i: int| 0 <= i < entries.len() && entries[i] == fs[j];
    assert(entry_included(op, entries[i]));
    assert(discovered(op, entries)[j] == meta_of(op, entries[i]));
}

/// Whether `name`'s extension — the part after its last dot, provided the
/// dot is not its first character — is exactly `ext`.
pub fn matches_extension(name: &str, ext: &str) -> (r: bool)
    ensures
        r == ext_matches(name@, ext@),
{
    let n = name.unicode_len();
    let mut i: usize = 0;
    let mut dot: usize = n;
    while i < n
        invariant
            i <= n,
            n == name@.len(),
            dot <= n,
            dot == n ==> forall|j: int| 0 <= j < i ==> name@[j] != '.',
            dot < n ==> dot < i && name@[dot as int] == '.' && forall|j: int|
                dot < j < i ==> name@[j] != '.',
        decreases n - i,
    {
        if name.get_char(i) == '.' {
            dot = i;
        }
        i = i + 1;
    }
    if dot == n || dot == 0 {
        proof {
            assert(!ext_matches(name@, ext@)) by {
                if ext_matches(name@, ext@) {
                    let k = choose|k: int| is_ext_at(name@, ext@, k);
                    assert(name@[k] == '.');
                }
            }
        }
        false
    } else {
        let suffix = name.substring_char(dot + 1, n);
        let r = str_eq(suffix, ext);
        proof {
            if r {
                assert(is_ext_at(name@, ext@, dot as int));
            } else {
                assert(!ext_matches(name@, ext@)) by {
                    if ext_matches(name@, ext@) {
                        let k = choose|k: int| is_ext_at(name@, ext@, k);
                        if k < dot {
                            assert(name@[dot as int] == '.');
                        } else if k > dot {
                            assert(name@[k] == '.');
                        }
                        assert(k == dot);
                    }
                }
            }
        }
        r
    }
}

} // verus!
