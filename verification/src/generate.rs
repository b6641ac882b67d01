//! Assembly of the final document: fold-processing every collected
//! file, ordering the results by relative path, and rendering them as
//! one joined document.

use vstd::multiset::Multiset;
use vstd::prelude::*;
use vstd::string::*;
use crate::folds::{has_fold, process_folds, process_from};
use crate::render::{
    format_file_entry, lemma_render_snoc, render_files, ContextFile, ContextFileView,
};
use crate::text::{lex_le, str_le};

verus! {

/// Views of the files a vector holds.
pub open spec fn views_of(s: Seq<ContextFile>) -> Seq<ContextFileView> {
    s.map_values(|f: ContextFile| f@)
}

/// The processed image of one collected file.
pub open spec fn process_file_spec(path: Seq<char>, content: Seq<char>) -> ContextFileView {
    ContextFileView {
        path: path,
        content: process_from(content, path, 0),
        has_folds: has_fold(content),
    }
}

/// The processed images of all collected files, in collection order.
pub open spec fn processed_views(inputs: Seq<(Seq<char>, Seq<char>)>) -> Seq<ContextFileView> {
    inputs.map_values(|p: (Seq<char>, Seq<char>)| process_file_spec(p.0, p.1))
}

/// Insertion of `f` into `files` behind every element whose path does
/// not exceed `f`'s.
pub open spec fn insert_by_path(files: Seq<ContextFileView>, f: ContextFileView) -> Seq<
    ContextFileView,
>
    decreases files.len(),
{
    if files.len() == 0 {
        seq![f]
    } else if lex_le(files[0].path, f.path) {
        seq![files[0]] + insert_by_path(files.drop_first(), f)
    } else {
        seq![f] + files
    }
}

/// Insertion sort of the files by ascending relative path.
pub open spec fn sort_by_path(files: Seq<ContextFileView>) -> Seq<ContextFileView>
    decreases files.len(),
{
    if files.len() == 0 {
        files
    } else {
        insert_by_path(sort_by_path(files.drop_last()), files.last())
    }
}

/// The whole document produced for the given (path, content) pairs.
pub open spec fn generate_spec(inputs: Seq<(Seq<char>, Seq<char>)>) -> Seq<char> {
    render_files(sort_by_path(processed_views(inputs)))
}

/// The view pairs of collected (path, content) strings.
pub open spec fn input_views(inputs: Seq<(String, String)>) -> Seq<(Seq<char>, Seq<char>)> {
    inputs.map_values(|p: (String, String)| (p.0@, p.1@))
}

/// Files arranged in ascending path order.
pub open spec fn sorted_by_path(files: Seq<ContextFileView>) -> bool {
    forall|i: int, j: int|
        0 <= i < j < files.len() ==> #[trigger] lex_le(files[i].path, files[j].path)
}

/// No two files carry the same relative path.
pub open spec fn paths_distinct(files: Seq<ContextFileView>) -> bool {
    forall|i: int, j: int|
        0 <= i < j < files.len() ==> (#[trigger] files[i].path) != (#[trigger] files[j].path)
}

/// Recursive insertion keeps the order, adds exactly the new file to
/// the contents, and invents no file.
pub proof fn lemma_insert_by_path_ensures(s: Seq<ContextFileView>, f: ContextFileView)
    requires
        sorted_by_path(s),
    ensures
        sorted_by_path(insert_by_path(s, f)),
        insert_by_path(s, f).to_multiset() == s.to_multiset().insert(f),
        insert_by_path(s, f).len() == s.len() + 1,
        forall|k: int|
            0 <= k < insert_by_path(s, f).len() ==> (#[trigger] insert_by_path(s, f)[k] == f
                || s.contains(insert_by_path(s, f)[k])),
    decreases s.len(),
{
    broadcast use vstd::seq_lib::group_to_multiset_ensures;
    broadcast use vstd::multiset::group_multiset_axioms;

    let r = insert_by_path(s, f);
    if s.len() == 0 {
        assert(r =~= Seq::empty().push(f));
        assert(Seq::<ContextFileView>::empty().to_multiset().len() == 0);
        assert(Seq::<ContextFileView>::empty().to_multiset() =~= Multiset::empty());
        assert(r.to_multiset() =~= s.to_multiset().insert(f));
    } else if lex_le(s[0].path, f.path) {
        let tail = s.drop_first();
        assert(forall|i: int, j: int|
            0 <= i < j < tail.len() ==> #[trigger] lex_le(tail[i].path, tail[j].path)) by {
            assert(forall|i: int| 0 <= i < tail.len() ==> tail[i] == s[i + 1]);
        }
        lemma_insert_by_path_ensures(tail, f);
        let rest = insert_by_path(tail, f);
        assert(r =~= seq![s[0]] + rest);
        // order: the head is below everything that follows it
        assert forall|i: int, j: int| 0 <= i < j < r.len() implies #[trigger] lex_le(
            r[i].path,
            r[j].path,
        ) by {
            if i == 0 {
                assert(r[j] == rest[j - 1]);
                if rest[j - 1] == f {
                } else {
                    let m = choose|m: int| 0 <= m < tail.len() && tail[m] == rest[j - 1];
                    assert(tail[m] == s[m + 1]);
                    assert(lex_le(s[0].path, s[m + 1].path));
                }
            } else {
                assert(r[i] == rest[i - 1]);
                assert(r[j] == rest[j - 1]);
            }
        }
        // contents: removing the head relates r to rest
        assert(r.remove(0) =~= rest);
        assert(r.remove(0).to_multiset() =~= r.to_multiset().remove(r[0]));
        assert(s.remove(0) =~= tail);
        assert(s.remove(0).to_multiset() =~= s.to_multiset().remove(s[0]));
        assert(r.to_multiset() =~= s.to_multiset().insert(f)) by {
            assert forall|e: ContextFileView| #[trigger]
                r.to_multiset().count(e) == s.to_multiset().insert(f).count(e) by {
                assert(r.contains(r[0]));
                assert(r.to_multiset().count(r[0]) > 0);
                assert(s.contains(s[0]));
                assert(s.to_multiset().count(s[0]) > 0);
                assert(rest.to_multiset().count(e) == tail.to_multiset().insert(f).count(e));
            }
        }
        assert forall|k: int| 0 <= k < r.len() implies (#[trigger] r[k] == f || s.contains(
            r[k],
        )) by {
            if k == 0 {
                assert(s.contains(s[0]));
            } else {
                assert(r[k] == rest[k - 1]);
                if rest[k - 1] != f {
                    let m = choose|m: int| 0 <= m < tail.len() && tail[m] == rest[k - 1];
                    assert(tail[m] == s[m + 1]);
                    assert(s.contains(s[m + 1]));
                }
            }
        }
    } else {
        assert(r =~= seq![f] + s);
        crate::text::lemma_lex_le_total(s[0].path, f.path);
        assert(lex_le(f.path, s[0].path));
        assert forall|i: int, j: int| 0 <= i < j < r.len() implies #[trigger] lex_le(
            r[i].path,
            r[j].path,
        ) by {
            if i == 0 {
                assert(r[j] == s[j - 1]);
                if j - 1 > 0 {
                    assert(lex_le(s[0].path, s[j - 1].path));
                    crate::text::lemma_lex_le_trans(f.path, s[0].path, s[j - 1].path);
                }
            } else {
                assert(r[i] == s[i - 1]);
                assert(r[j] == s[j - 1]);
            }
        }
        assert(r.remove(0) =~= s);
        assert(r.remove(0).to_multiset() =~= r.to_multiset().remove(r[0]));
        assert(r.to_multiset() =~= s.to_multiset().insert(f)) by {
            assert forall|e: ContextFileView| #[trigger]
                r.to_multiset().count(e) == s.to_multiset().insert(f).count(e) by {
                assert(r.contains(r[0]));
                assert(r.to_multiset().count(r[0]) > 0);
            }
        }
        assert forall|k: int| 0 <= k < r.len() implies (#[trigger] r[k] == f || s.contains(
            r[k],
        )) by {
            if k > 0 {
                assert(r[k] == s[k - 1]);
                assert(s.contains(s[k - 1]));
            }
        }
    }
}

/// The sort orders the files by path and neither loses, invents nor
/// duplicates a file.
pub proof fn lemma_sort_by_path_ensures(s: Seq<ContextFileView>)
    ensures
        sorted_by_path(sort_by_path(s)),
        sort_by_path(s).to_multiset() == s.to_multiset(),
        sort_by_path(s).len() == s.len(),
    decreases s.len(),
{
    broadcast use vstd::seq_lib::group_to_multiset_ensures;
    broadcast use vstd::multiset::group_multiset_axioms;

    if s.len() > 0 {
        let prefix = s.drop_last();
        lemma_sort_by_path_ensures(prefix);
        lemma_insert_by_path_ensures(sort_by_path(prefix), s.last());
        assert(prefix.push(s.last()).to_multiset() =~= prefix.to_multiset().insert(s.last()));
        assert(prefix.push(s.last()) =~= s);
    }
}

/// Two sequences with the same contents are either both free of
/// repeated paths or neither is.
pub proof fn lemma_paths_distinct_transfer(x: Seq<ContextFileView>, y: Seq<ContextFileView>)
    requires
        x.to_multiset() == y.to_multiset(),
        paths_distinct(x),
    ensures
        paths_distinct(y),
{
    broadcast use vstd::seq_lib::group_to_multiset_ensures;
    broadcast use vstd::multiset::group_multiset_axioms;

    assert forall|i: int, j: int| 0 <= i < j < y.len() implies (#[trigger] y[i].path)
        != (#[trigger] y[j].path) by {
        if y[i].path == y[j].path {
            if y[i] == y[j] {
                // the same file twice in y means a count of two, so x
                // holds it at two indices as well
                let yr = y.remove(i);
                assert(yr.to_multiset() =~= y.to_multiset().remove(y[i]));
                assert(yr[j - 1] == y[j]);
                assert(yr.contains(y[i]));
                assert(yr.to_multiset().count(y[i]) > 0);
                assert(y.to_multiset().count(y[i]) >= 2);
                assert(x.to_multiset().count(y[i]) >= 2);
                assert(x.to_multiset().count(y[i]) > 0);
                assert(x.contains(y[i]));
                let p = choose|p: int| 0 <= p < x.len() && x[p] == y[i];
                let xr = x.remove(p);
                assert(xr.to_multiset() =~= x.to_multiset().remove(x[p]));
                assert(xr.to_multiset().count(y[i]) >= 1);
                assert(xr.contains(y[i]));
                let q0 = choose|q0: int| 0 <= q0 < xr.len() && xr[q0] == y[i];
                let q = if q0 < p {
                    q0
                } else {
                    q0 + 1
                };
                assert(x[q] == y[i]);
                assert(p != q);
                assert(x[p].path == x[q].path);
            } else {
                // two different files with one path both occur in x
                assert(y.contains(y[i]));
                assert(y.contains(y[j]));
                assert(x.to_multiset().count(y[i]) > 0);
                assert(x.to_multiset().count(y[j]) > 0);
                assert(x.contains(y[i]));
                assert(x.contains(y[j]));
                let p = choose|p: int| 0 <= p < x.len() && x[p] == y[i];
                let q = choose|q: int| 0 <= q < x.len() && x[q] == y[j];
                assert(p != q);
                assert(x[p].path == x[q].path);
            }
        }
    }
}

/// Two orderings of the same files, each arranged by ascending path,
/// are identical when no path repeats: there is exactly one sorted
/// arrangement.
pub proof fn lemma_sorted_unique(a: Seq<ContextFileView>, b: Seq<ContextFileView>)
    requires
        sorted_by_path(a),
        sorted_by_path(b),
        paths_distinct(a),
        a.to_multiset() == b.to_multiset(),
    ensures
        a == b,
    decreases a.len(),
{
    broadcast use vstd::seq_lib::group_to_multiset_ensures;
    broadcast use vstd::multiset::group_multiset_axioms;

    if a.len() == 0 {
        assert(a.to_multiset().len() == 0);
        assert(b.len() == 0);
        assert(a =~= b);
    } else {
        assert(b.len() == b.to_multiset().len());
        assert(b.len() > 0);
        // the head of each sequence occurs in the other
        assert(a.contains(a[0]));
        assert(b.to_multiset().count(a[0]) > 0);
        assert(b.contains(a[0]));
        let k = choose|k: int| 0 <= k < b.len() && b[k] == a[0];
        assert(b.contains(b[0]));
        assert(a.to_multiset().count(b[0]) > 0);
        assert(a.contains(b[0]));
        let m = choose|m: int| 0 <= m < a.len() && a[m] == b[0];
        // each head is at or below the other's path, so the paths agree
        crate::text::lemma_lex_le_total(a[0].path, a[0].path);
        crate::text::lemma_lex_le_total(b[0].path, b[0].path);
        if m > 0 {
            assert(lex_le(a[0].path, a[m].path));
        }
        if k > 0 {
            assert(lex_le(b[0].path, b[k].path));
        }
        crate::text::lemma_lex_le_antisym(a[0].path, b[0].path);
        // a repeats no path, so the heads are the same file
        assert(a[m].path == a[0].path);
        assert(m == 0);
        assert(b[0] == a[0]);
        // the tails repeat the argument
        let at = a.remove(0);
        let bt = b.remove(0);
        assert(at.to_multiset() =~= a.to_multiset().remove(a[0]));
        assert(bt.to_multiset() =~= b.to_multiset().remove(b[0]));
        assert(forall|i: int| 0 <= i < at.len() ==> at[i] == a[i + 1]);
        assert(forall|i: int| 0 <= i < bt.len() ==> bt[i] == b[i + 1]);
        lemma_sorted_unique(at, bt);
        assert forall|i: int| 0 <= i < a.len() implies a[i] == b[i] by {
            if i > 0 {
                assert(at[i - 1] == bt[i - 1]);
            }
        }
        assert(a =~= b);
    }
}

/// Inserting at the position found by a linear scan is the same as the
/// recursive insertion.
proof fn lemma_insert_at(v: Seq<ContextFileView>, f: ContextFileView, pos: int)
    requires
        0 <= pos <= v.len(),
        forall|i: int| 0 <= i < pos ==> lex_le(#[trigger] v[i].path, f.path),
        pos < v.len() ==> !lex_le(v[pos].path, f.path),
    ensures
        insert_by_path(v, f) == v.subrange(0, pos) + seq![f] + v.subrange(pos, v.len() as int),
    decreases v.len(),
{
    if v.len() == 0 {
        assert(insert_by_path(v, f) =~= v.subrange(0, pos) + seq![f] + v.subrange(
            pos,
            v.len() as int,
        ));
    } else if lex_le(v[0].path, f.path) {
        assert(pos > 0) by {
            if pos == 0 {
                assert(!lex_le(v[0].path, f.path));
            }
        }
        let rest = v.drop_first();
        assert(forall|i: int|
            0 <= i < pos - 1 ==> lex_le(#[trigger] rest[i].path, f.path)) by {
            assert(forall|i: int| 0 <= i < pos - 1 ==> rest[i] == v[i + 1]);
        }
        lemma_insert_at(rest, f, pos - 1);
        assert(seq![v[0]] + (rest.subrange(0, pos - 1) + seq![f] + rest.subrange(
            pos - 1,
            rest.len() as int,
        )) =~= v.subrange(0, pos) + seq![f] + v.subrange(pos, v.len() as int));
    } else {
        assert(pos == 0) by {
            if pos > 0 {
                assert(lex_le(v[0].path, f.path));
            }
        }
        assert(seq![f] + v =~= v.subrange(0, pos) + seq![f] + v.subrange(pos, v.len() as int));
    }
}

/// Inserts `f` into the vector, which is sorted by path, keeping the
/// order of the recursive insertion.
fn insert_file(r: &mut Vec<ContextFile>, f: ContextFile)
    ensures
        views_of(final(r)@) == insert_by_path(views_of(old(r)@), f@),
{
    let len = r.len();
    let mut pos: usize = 0;
    while pos < len && str_le(r[pos].path.as_str(), f.path.as_str())
        invariant
            r@ == old(r)@,
            len == r@.len(),
            0 <= pos <= len,
            forall|i: int| 0 <= i < pos ==> lex_le(#[trigger] views_of(r@)[i].path, f@.path),
        decreases len - pos,
    {
        pos = pos + 1;
    }
    proof {
        lemma_insert_at(views_of(r@), f@, pos as int);
    }
    r.insert(pos, f);
    proof {
        assert(views_of(r@) =~= views_of(old(r)@).subrange(0, pos as int) + seq![f@] + views_of(
            old(r)@,
        ).subrange(pos as int, old(r)@.len() as int));
    }
}

/// Generates the whole context document for the collected files.
///
/// Each pair holds a file's relative path and its raw text.  Every
/// fold region is replaced by its placeholder, the files are ordered
/// by ascending relative path whatever order they were collected in,
/// and the rendered blocks are joined with one blank line between
/// consecutive blocks.
pub fn generate_context_markdown(inputs: &Vec<(String, String)>) -> (r: String)
    ensures
        r@ == generate_spec(input_views(inputs@)),
{
    let mut sorted: Vec<ContextFile> = Vec::new();
    let mut idx: usize = 0;
    while idx < inputs.len()
        invariant
            0 <= idx <= inputs@.len(),
            views_of(sorted@) == sort_by_path(
                processed_views(input_views(inputs@).subrange(0, idx as int)),
            ),
        decreases inputs@.len() - idx,
    {
        let pair = &inputs[idx];
        let (content, has_folds) = process_folds(pair.1.as_str(), pair.0.as_str());
        let f = ContextFile { path: pair.0.clone(), content: content, has_folds: has_folds };
        proof {
            let prefix = processed_views(input_views(inputs@).subrange(0, idx as int));
            let next = processed_views(input_views(inputs@).subrange(0, idx + 1));
            assert(next.drop_last() =~= prefix);
            assert(next.last() == f@);
            assert(sort_by_path(next) == insert_by_path(sort_by_path(prefix), f@));
        }
        insert_file(&mut sorted, f);
        idx = idx + 1;
    }
    proof {
        assert(input_views(inputs@).subrange(0, inputs@.len() as int) =~= input_views(inputs@));
    }
    let mut out = String::new();
    let n = sorted.len();
    let mut i: usize = 0;
    while i < n
        invariant
            n == sorted@.len(),
            0 <= i <= n,
            views_of(sorted@) == sort_by_path(processed_views(input_views(inputs@))),
            out@ == render_files(views_of(sorted@).subrange(0, i as int)),
        decreases n - i,
    {
        if i > 0 {
            out.append("\n\n");
        }
        let entry = format_file_entry(&sorted[i]);
        out.append(entry.as_str());
        proof {
            let pre = views_of(sorted@).subrange(0, i as int);
            lemma_render_snoc(pre, views_of(sorted@)[i as int]);
            assert(views_of(sorted@).subrange(0, i + 1) =~= pre.push(views_of(sorted@)[i as int]));
            if i == 0 {
                assert(out@ =~= render_files(views_of(sorted@).subrange(0, i + 1)));
            }
        }
        i = i + 1;
    }
    proof {
        assert(views_of(sorted@).subrange(0, n as int) =~= views_of(sorted@));
    }
    out
}

} // verus!
