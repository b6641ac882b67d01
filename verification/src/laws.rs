//! The guarantees the library states about itself, proved from the
//! specifications of its functions.

use vstd::multiset::Multiset;
use vstd::prelude::*;
use crate::folds::{close_tag, has_fold, lemma_tag_lens, open_tag, placeholder, process_from};
use crate::generate::{
    generate_spec, lemma_paths_distinct_transfer, lemma_sort_by_path_ensures, lemma_sorted_unique,
    paths_distinct, process_file_spec, processed_views, sort_by_path,
};
use crate::render::{render_entry, render_files, ContextFileView};
use crate::folds::count_regions;
use crate::numerals::{dec_digits, lemma_dec_digits_are_digits};
use crate::text::{
    contains_seq, count_occ, find_from, lemma_count_occ_shift, lemma_find_from_advance,
    lemma_find_from_bounds, lemma_find_from_first, lemma_find_from_none, lemma_match_in_subrange,
    match_at, trim,
};

verus! {

/// Text without a complete fold region is returned unchanged by fold
/// processing.
pub proof fn lemma_no_folds_identity(content: Seq<char>, path: Seq<char>)
    requires
        !has_fold(content),
    ensures
        process_from(content, path, 0) == content,
{
    lemma_tag_lens();
    match find_from(content, open_tag(), 0) {
        None => {
            assert(content.subrange(0, content.len() as int) =~= content);
        },
        Some(open_at) => {
            assert(find_from(content, close_tag(), open_at + open_tag().len()) is None);
            assert(content.subrange(0, content.len() as int) =~= content);
        },
    }
}

/// Text with a fold region is replaced by output that carries the
/// placeholder marker and the file's path label.
pub proof fn lemma_fold_marker_present(content: Seq<char>, path: Seq<char>)
    requires
        has_fold(content),
    ensures
        contains_seq(process_from(content, path, 0), "[Folded content: "@),
        contains_seq(process_from(content, path, 0), path),
{
    lemma_tag_lens();
    let open_at = find_from(content, open_tag(), 0)->Some_0;
    lemma_find_from_bounds(content, open_tag(), 0, open_at);
    let inner_start = open_at + open_tag().len();
    let close_at = find_from(content, close_tag(), inner_start)->Some_0;
    lemma_find_from_bounds(content, close_tag(), inner_start, close_at);
    let out = process_from(content, path, 0);
    let pre = content.subrange(0, open_at);
    let ph = placeholder(
        crate::text::lines_count(content.subrange(inner_start, close_at)),
        crate::text::lines_count(content.subrange(0, inner_start)) + 1,
        crate::text::lines_count(content.subrange(0, close_at)),
        path,
    );
    let rest = process_from(content, path, close_at + close_tag().len());
    assert(out == pre + ph + rest);
    let marker = "[Folded content: "@;
    assert(out.subrange(pre.len() as int, pre.len() + marker.len() as int) =~= marker);
    assert(match_at(out, marker, pre.len() as int));
    let before_path: int = ph.len() - path.len() - "' for full content.]"@.len();
    assert(out.subrange(
        pre.len() + before_path,
        pre.len() + before_path + path.len() as int,
    ) =~= path);
    assert(match_at(out, path, pre.len() + before_path));
}

/// A suffix of text that nowhere holds the placeholder marker counts
/// zero markers.
proof fn lemma_tail_no_marker(content: Seq<char>, cursor: int)
    requires
        0 <= cursor <= content.len(),
        !contains_seq(content, "[Folded content: "@),
    ensures
        count_occ(content.subrange(cursor, content.len() as int), "[Folded content: "@, 0) == 0,
{
    reveal_strlit("[Folded content: ");
    let marker = "[Folded content: "@;
    let out = content.subrange(cursor, content.len() as int);
    assert forall|k: int| 0 <= k implies !match_at(out, marker, k) by {
        if match_at(out, marker, k) {
            lemma_match_in_subrange(content, cursor, content.len() as int, marker, k);
            assert(contains_seq(content, marker));
        }
    }
    lemma_find_from_none(out, marker, 0);
}

/// Each fold region contributes exactly one placeholder marker to the
/// processed output, provided the marker text occurs neither in the
/// original text nor in the path label.
pub proof fn lemma_placeholder_count(content: Seq<char>, path: Seq<char>, cursor: int)
    requires
        0 <= cursor <= content.len(),
        !contains_seq(content, "[Folded content: "@),
        !contains_seq(path, "[Folded content: "@),
    ensures
        count_occ(process_from(content, path, cursor), "[Folded content: "@, 0) == count_regions(
            content,
            cursor,
        ),
    decreases content.len() - cursor,
{
    lemma_tag_lens();
    reveal_strlit("[Folded content: ");
    reveal_strlit(" line");
    reveal_strlit(" lines");
    reveal_strlit(" (lines ");
    reveal_strlit("-");
    reveal_strlit("). Read '");
    reveal_strlit("' for full content.]");
    let marker = "[Folded content: "@;
    assert(marker.len() == 17);
    match find_from(content, open_tag(), cursor) {
        None => {
            lemma_tail_no_marker(content, cursor);
        },
        Some(open_at) => {
            lemma_find_from_bounds(content, open_tag(), cursor, open_at);
            let inner_start = open_at + open_tag().len();
            match find_from(content, close_tag(), inner_start) {
                None => {
                    lemma_tail_no_marker(content, cursor);
                },
                Some(close_at) => {
                    lemma_find_from_bounds(content, close_tag(), inner_start, close_at);
                    let next = close_at + close_tag().len();
                    lemma_placeholder_count(content, path, next);
                    let out = process_from(content, path, cursor);
                    let pre = content.subrange(cursor, open_at);
                    let n1 = crate::text::lines_count(content.subrange(inner_start, close_at));
                    let n2 = crate::text::lines_count(content.subrange(0, inner_start)) + 1;
                    let n3 = crate::text::lines_count(content.subrange(0, close_at));
                    let ph = placeholder(n1, n2, n3, path);
                    let rest = process_from(content, path, next);
                    assert(out == pre + ph + rest);
                    // lay the placeholder out as marker, middle text,
                    // path, closing text
                    let w = if n1 == 1 {
                        " line"@
                    } else {
                        " lines"@
                    };
                    let mid = dec_digits(n1) + w + " (lines "@ + dec_digits(n2) + "-"@
                        + dec_digits(n3) + "). Read '"@;
                    let tail = "' for full content.]"@;
                    assert(ph =~= marker + mid + path + tail);
                    lemma_dec_digits_are_digits(n1);
                    lemma_dec_digits_are_digits(n2);
                    lemma_dec_digits_are_digits(n3);
                    assert(forall|k: int| 0 <= k < mid.len() ==> #[trigger] mid[k] != '[');
                    assert(forall|k: int| 0 <= k < tail.len() ==> #[trigger] tail[k] != '[');
                    assert(forall|j: int| 1 <= j < 17 ==> #[trigger] marker[j] != '[');
                    assert(forall|j: int| 0 <= j < 17 ==> #[trigger] marker[j] != '\'');
                    assert(marker[0] == '[');
                    // the first marker of the output stands exactly
                    // where the placeholder begins
                    let after: int = pre.len() as int + 17;
                    assert(out.subrange(pre.len() as int, after) =~= marker);
                    assert(match_at(out, marker, pre.len() as int));
                    assert forall|k: int| 0 <= k < pre.len() implies !match_at(out, marker, k) by {
                        if match_at(out, marker, k) {
                            if k + 17 <= pre.len() {
                                assert(out.subrange(k, k + 17) =~= pre.subrange(k, k + 17));
                                assert(match_at(pre, marker, k));
                                lemma_match_in_subrange(content, cursor, open_at, marker, k);
                                assert(contains_seq(content, marker));
                            } else {
                                let j = pre.len() - k;
                                assert(out.subrange(k, k + 17)[j] == out[pre.len() as int]);
                                assert(out[pre.len() as int] == ph[0]);
                                assert(marker[j] == '[');
                            }
                        }
                    }
                    lemma_find_from_first(out, marker, 0, pre.len() as int);
                    assert(count_occ(out, marker, 0) == 1 + count_occ(out, marker, after));
                    // no further marker begins inside the placeholder
                    let a = pre + ph;
                    let path_end: int = pre.len() + 17 + mid.len() + path.len() as int;
                    assert forall|k: int| after <= k < a.len() implies !match_at(
                        out,
                        marker,
                        k,
                    ) by {
                        if match_at(out, marker, k) {
                            let t = k - pre.len();
                            assert(out[k] == ph[t]);
                            assert(out.subrange(k, k + 17)[0] == out[k]);
                            assert(out[k] == marker[0]);
                            if t < 17 + mid.len() {
                                assert(ph[t] == mid[t - 17]);
                            } else if t < 17 + mid.len() + path.len() {
                                let p = t - 17 - mid.len();
                                if k + 17 <= path_end {
                                    assert(out.subrange(k, k + 17) =~= path.subrange(p, p + 17));
                                    assert(match_at(path, marker, p));
                                    assert(contains_seq(path, marker));
                                } else {
                                    let e = path_end - k;
                                    assert(0 < e < 17);
                                    assert(out.subrange(k, k + 17)[e] == out[k + e]);
                                    assert(out[k + e] == ph[t + e]);
                                    assert(ph[t + e] == tail[0]);
                                    assert(marker[e] == '\'');
                                }
                            } else {
                                assert(ph[t] == tail[t - 17 - mid.len() - path.len()]);
                            }
                        }
                    }
                    lemma_find_from_advance(out, marker, after, a.len() as int);
                    assert(count_occ(out, marker, after) == count_occ(out, marker, a.len() as int));
                    lemma_count_occ_shift(a, rest, marker, a.len() as int);
                    assert(out == a + rest);
                    assert(count_occ(out, marker, a.len() as int) == count_occ(rest, marker, 0));
                    assert(count_regions(content, cursor) == 1 + count_regions(content, next));
                },
            }
        },
    }
}

/// A rendered block carries the fold attribute exactly when the file
/// had folds, and omits it entirely otherwise.
pub proof fn lemma_fold_attribute(f: ContextFileView)
    ensures
        f.has_folds ==> render_entry(f) == "<file path=\""@ + f.path + "\""@
            + " has_folds=\"true\""@ + ">\n"@ + trim(f.content) + "\n</file>"@,
        !f.has_folds ==> render_entry(f) == "<file path=\""@ + f.path + "\""@ + ">\n"@ + trim(
            f.content,
        ) + "\n</file>"@,
{
    if f.has_folds {
        assert(render_entry(f) =~= "<file path=\""@ + f.path + "\""@ + " has_folds=\"true\""@
            + ">\n"@ + trim(f.content) + "\n</file>"@);
    } else {
        assert(render_entry(f) =~= "<file path=\""@ + f.path + "\""@ + ">\n"@ + trim(f.content)
            + "\n</file>"@);
    }
}

/// The collected files of two runs over the same directory contents
/// may arrive in any enumeration order; as long as they are the same
/// files under the same distinct relative paths, the generated
/// documents are identical.
pub proof fn lemma_generate_order_independent(
    a: Seq<(Seq<char>, Seq<char>)>,
    b: Seq<(Seq<char>, Seq<char>)>,
)
    requires
        a.to_multiset() == b.to_multiset(),
        forall|i: int, j: int| 0 <= i < j < a.len() ==> (#[trigger] a[i].0) != (#[trigger] a[j].0),
    ensures
        generate_spec(a) == generate_spec(b),
{
    let pa = processed_views(a);
    let pb = processed_views(b);
    assert(paths_distinct(pa)) by {
        assert(forall|i: int| 0 <= i < a.len() ==> pa[i] == process_file_spec(a[i].0, a[i].1));
    }
    lemma_processed_multiset(a, b);
    lemma_sort_by_path_ensures(pa);
    lemma_sort_by_path_ensures(pb);
    lemma_paths_distinct_transfer(pa, sort_by_path(pa));
    lemma_sorted_unique(sort_by_path(pa), sort_by_path(pb));
}

/// Processing the collected files one by one keeps the contents: equal
/// collections give equal processed collections.
proof fn lemma_processed_multiset(a: Seq<(Seq<char>, Seq<char>)>, b: Seq<(Seq<char>, Seq<char>)>)
    requires
        a.to_multiset() == b.to_multiset(),
    ensures
        processed_views(a).to_multiset() == processed_views(b).to_multiset(),
    decreases a.len(),
{
    broadcast use vstd::seq_lib::group_to_multiset_ensures;
    broadcast use vstd::multiset::group_multiset_axioms;

    if a.len() == 0 {
        assert(a.to_multiset().len() == 0);
        assert(b.len() == 0);
        assert(processed_views(a) =~= processed_views(b));
    } else {
        let e = a.last();
        assert(a.contains(e));
        assert(b.to_multiset().count(e) > 0);
        assert(b.contains(e));
        let k = choose|k: int| 0 <= k < b.len() && b[k] == e;
        let a1 = a.drop_last();
        let b1 = b.remove(k);
        assert(a.remove(a.len() - 1) =~= a1);
        assert(a.remove(a.len() - 1).to_multiset() =~= a.to_multiset().remove(e));
        assert(b1.to_multiset() =~= b.to_multiset().remove(e));
        lemma_processed_multiset(a1, b1);
        let pa = processed_views(a);
        let pb = processed_views(b);
        assert(processed_views(a1) =~= pa.drop_last());
        assert(pa.drop_last().push(pa.last()) =~= pa);
        assert(pa.last() == process_file_spec(e.0, e.1));
        assert(pa.to_multiset() =~= processed_views(a1).to_multiset().insert(
            process_file_spec(e.0, e.1),
        ));
        assert(processed_views(b1) =~= pb.remove(k));
        assert(pb.remove(k).to_multiset() =~= pb.to_multiset().remove(pb[k]));
        assert(pb[k] == process_file_spec(e.0, e.1));
        assert(pb.contains(pb[k]));
        assert(pb.to_multiset().count(pb[k]) > 0);
        assert(pa.to_multiset() =~= pb.to_multiset()) by {
            assert forall|v: ContextFileView| #[trigger]
                pa.to_multiset().count(v) == pb.to_multiset().count(v) by {
                assert(processed_views(a1).to_multiset().count(v) == processed_views(
                    b1,
                ).to_multiset().count(v));
            }
        }
    }
}

} // verus!
