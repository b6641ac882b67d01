//! Fold-region substitution: the scanner that replaces each region
//! delimited by the literal fold markers with a descriptive
//! placeholder, leaving all surrounding text verbatim.

use vstd::prelude::*;
use vstd::string::*;
use crate::numerals::{dec_digits, usize_to_string};
use crate::text::{count_lines_range, find_from, find_in_str, lemma_find_from_bounds, lines_count};

verus! {

/// The literal marker that opens a fold region.
pub open spec fn open_tag() -> Seq<char> {
    "<ctxgen:fold>"@
}

/// The literal marker that closes a fold region.
pub open spec fn close_tag() -> Seq<char> {
    "</ctxgen:fold>"@
}

/// Establishes the lengths of the two markers.
pub proof fn lemma_tag_lens()
    ensures
        open_tag().len() == 13,
        close_tag().len() == 14,
{
    reveal_strlit("<ctxgen:fold>");
    reveal_strlit("</ctxgen:fold>");
}

/// The placeholder emitted in place of one fold region: it reports the
/// number of lines hidden, the line range they occupied in the original
/// document, and the path under which the full content can be read.
pub open spec fn placeholder(
    inner_lines: nat,
    start_line: nat,
    end_line: nat,
    path: Seq<char>,
) -> Seq<char> {
    "[Folded content: "@ + dec_digits(inner_lines) + (if inner_lines == 1 {
        " line"@
    } else {
        " lines"@
    }) + " (lines "@ + dec_digits(start_line) + "-"@ + dec_digits(end_line) + "). Read '"@ + path
        + "' for full content.]"@
}

/// True when `s` holds at least one complete fold region: an opening
/// marker with a closing marker somewhere after it.
pub open spec fn has_fold(s: Seq<char>) -> bool {
    match find_from(s, open_tag(), 0) {
        None => false,
        Some(open_at) => find_from(s, close_tag(), open_at + open_tag().len()) is Some,
    }
}

/// The processed text of `s` from position `cursor` on: each complete
/// fold region is replaced by its placeholder, and everything between
/// and after the regions is kept verbatim.  Line numbers are counted
/// against the whole original document `s`, not against the suffix.
pub open spec fn process_from(s: Seq<char>, path: Seq<char>, cursor: int) -> Seq<char>
    decreases s.len() - cursor,
    when 0 <= cursor <= s.len() via process_from_decreases
{
    match find_from(s, open_tag(), cursor) {
        None => s.subrange(cursor, s.len() as int),
        Some(open_at) => {
            let inner_start = open_at + open_tag().len();
            match find_from(s, close_tag(), inner_start) {
                None => s.subrange(cursor, s.len() as int),
                Some(close_at) => s.subrange(cursor, open_at) + placeholder(
                    lines_count(s.subrange(inner_start, close_at)),
                    lines_count(s.subrange(0, inner_start)) + 1,
                    lines_count(s.subrange(0, close_at)),
                    path,
                ) + process_from(s, path, close_at + close_tag().len()),
            }
        },
    }
}

#[via_fn]
proof fn process_from_decreases(s: Seq<char>, path: Seq<char>, cursor: int) {
    lemma_tag_lens();
    if 0 <= cursor <= s.len() {
        if let Some(open_at) = find_from(s, open_tag(), cursor) {
            lemma_find_from_bounds(s, open_tag(), cursor, open_at);
            let inner_start = open_at + open_tag().len();
            if let Some(close_at) = find_from(s, close_tag(), inner_start) {
                lemma_find_from_bounds(s, close_tag(), inner_start, close_at);
            }
        }
    }
}

/// Number of complete fold regions in `s` at or after `cursor`, in
/// the order the scanner meets them.
pub open spec fn count_regions(s: Seq<char>, cursor: int) -> nat
    decreases s.len() - cursor,
    when 0 <= cursor <= s.len() via count_regions_decreases
{
    match find_from(s, open_tag(), cursor) {
        None => 0,
        Some(open_at) => {
            match find_from(s, close_tag(), open_at + open_tag().len()) {
                None => 0,
                Some(close_at) => 1 + count_regions(s, close_at + close_tag().len()),
            }
        },
    }
}

#[via_fn]
proof fn count_regions_decreases(s: Seq<char>, cursor: int) {
    lemma_tag_lens();
    if 0 <= cursor <= s.len() {
        if let Some(open_at) = find_from(s, open_tag(), cursor) {
            lemma_find_from_bounds(s, open_tag(), cursor, open_at);
            if let Some(close_at) = find_from(s, close_tag(), open_at + open_tag().len()) {
                lemma_find_from_bounds(s, close_tag(), open_at + open_tag().len(), close_at);
            }
        }
    }
}

/// Builds one placeholder string.
fn build_placeholder(n_lines: usize, start_line: usize, end_line: usize, file_path: &str) -> (r:
    String)
    ensures
        r@ == placeholder(n_lines as nat, start_line as nat, end_line as nat, file_path@),
{
    let mut r = String::from_str("[Folded content: ");
    r.append(usize_to_string(n_lines).as_str());
    if n_lines == 1 {
        r.append(" line");
    } else {
        r.append(" lines");
    }
    r.append(" (lines ");
    r.append(usize_to_string(start_line).as_str());
    r.append("-");
    r.append(usize_to_string(end_line).as_str());
    r.append("). Read '");
    r.append(file_path);
    r.append("' for full content.]");
    proof {
        assert(r@ =~= placeholder(n_lines as nat, start_line as nat, end_line as nat, file_path@));
    }
    r
}

/// Processes `content` from `cursor` to the end, in document order.
fn process_from_exec(content: &str, file_path: &str, cursor: usize) -> (r: String)
    requires
        cursor <= content@.len(),
    ensures
        r@ == process_from(content@, file_path@, cursor as int),
    decreases content@.len() - cursor,
{
    proof {
        lemma_tag_lens();
    }
    let len = content.unicode_len();
    match find_in_str(content, "<ctxgen:fold>", cursor) {
        None => String::from_str(content.substring_char(cursor, len)),
        Some(open_at) => {
            proof {
                lemma_find_from_bounds(content@, open_tag(), cursor as int, open_at as int);
            }
            let inner_start = open_at + 13;
            match find_in_str(content, "</ctxgen:fold>", inner_start) {
                None => String::from_str(content.substring_char(cursor, len)),
                Some(close_at) => {
                    proof {
                        lemma_find_from_bounds(
                            content@,
                            close_tag(),
                            inner_start as int,
                            close_at as int,
                        );
                    }
                    let mut r = String::from_str(content.substring_char(cursor, open_at));
                    let n_lines = count_lines_range(content, len, inner_start, close_at);
                    let start_line = count_lines_range(content, len, 0, inner_start) + 1;
                    let end_line = count_lines_range(content, len, 0, close_at);
                    let ph = build_placeholder(n_lines, start_line, end_line, file_path);
                    r.append(ph.as_str());
                    let rest = process_from_exec(content, file_path, close_at + 14);
                    r.append(rest.as_str());
                    r
                },
            }
        },
    }
}

/// Replaces every fold region of `content` with its placeholder and
/// reports whether any region was found.  When no complete region is
/// present the text comes back unchanged.
///
/// Line counts follow `lines_count`: text between the markers counts
/// its newline-delimited segments, so an empty region reports zero
/// lines, and a region that ends on a newline does not start a new
/// line after it.
pub fn process_folds(content: &str, file_path: &str) -> (r: (String, bool))
    ensures
        r.0@ == process_from(content@, file_path@, 0),
        r.1 == has_fold(content@),
{
    proof {
        lemma_tag_lens();
    }
    let processed = process_from_exec(content, file_path, 0);
    // binds the character count so the tag-offset arithmetic below is
    // known to stay within `usize`
    let _content_len = content.unicode_len();
    let has_folds = match find_in_str(content, "<ctxgen:fold>", 0) {
        None => false,
        Some(open_at) => {
            proof {
                lemma_find_from_bounds(content@, open_tag(), 0, open_at as int);
            }
            match find_in_str(content, "</ctxgen:fold>", open_at + 13) {
                None => false,
                Some(_) => true,
            }
        },
    };
    (processed, has_folds)
}

} // verus!
