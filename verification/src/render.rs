//! Rendering of processed files into tagged blocks and the final
//! joined document.

use vstd::prelude::*;
use vstd::string::*;
use crate::text::{trim, trim_str};

verus! {

/// One source file after fold substitution.
pub struct ContextFile {
    /// Path of the file relative to the scanned root.
    pub path: String,
    /// The file's text with fold regions replaced by placeholders.
    pub content: String,
    /// Whether at least one fold region was found in the file.
    pub has_folds: bool,
}

/// Mathematical image of a `ContextFile`.
pub struct ContextFileView {
    pub path: Seq<char>,
    pub content: Seq<char>,
    pub has_folds: bool,
}

impl View for ContextFile {
    type V = ContextFileView;

    open spec fn view(&self) -> ContextFileView {
        ContextFileView { path: self.path@, content: self.content@, has_folds: self.has_folds }
    }
}

/// The block rendered for one file: an opening tag carrying the path,
/// the fold attribute only when folds were present, the trimmed
/// content, and a closing tag.
pub open spec fn render_entry(f: ContextFileView) -> Seq<char> {
    "<file path=\""@ + f.path + "\""@ + (if f.has_folds {
        " has_folds=\"true\""@
    } else {
        Seq::<char>::empty()
    }) + ">\n"@ + trim(f.content) + "\n</file>"@
}

/// All blocks joined with one blank line between consecutive blocks
/// and nothing after the last.
pub open spec fn render_files(files: Seq<ContextFileView>) -> Seq<char>
    decreases files.len(),
{
    if files.len() == 0 {
        Seq::<char>::empty()
    } else if files.len() == 1 {
        render_entry(files[0])
    } else {
        render_entry(files[0]) + "\n\n"@ + render_files(files.drop_first())
    }
}

/// Renders one file as its tagged block.
pub fn format_file_entry(file: &ContextFile) -> (r: String)
    ensures
        r@ == render_entry(file@),
{
    let mut r = String::from_str("<file path=\"");
    r.append(file.path.as_str());
    r.append("\"");
    if file.has_folds {
        r.append(" has_folds=\"true\"");
    }
    r.append(">\n");
    r.append(trim_str(file.content.as_str()));
    r.append("\n</file>");
    proof {
        assert(r@ =~= render_entry(file@));
    }
    r
}

/// Appending one more file to the rendered whole adds a blank-line
/// separator exactly when the rendered part was nonempty.
pub proof fn lemma_render_snoc(files: Seq<ContextFileView>, f: ContextFileView)
    ensures
        render_files(files.push(f)) == if files.len() == 0 {
            render_entry(f)
        } else {
            render_files(files) + "\n\n"@ + render_entry(f)
        },
    decreases files.len(),
{
    if files.len() == 0 {
        assert(files.push(f)[0] == f);
        assert(render_files(files.push(f)) == render_entry(f));
    } else {
        lemma_render_snoc(files.drop_first(), f);
        assert(files.push(f).drop_first() =~= files.drop_first().push(f));
        assert(files.push(f)[0] == files[0]);
        if files.len() == 1 {
            assert(render_files(files) == render_entry(files[0]));
            assert(render_files(files.push(f)) == render_entry(files[0]) + "\n\n"@ + render_entry(
                f,
            ));
        } else {
            assert(render_files(files) == render_entry(files[0]) + "\n\n"@ + render_files(
                files.drop_first(),
            ));
            assert(render_files(files.push(f)) == render_entry(files[0]) + "\n\n"@ + (render_files(
                files.drop_first(),
            ) + "\n\n"@ + render_entry(f)));
            assert(render_entry(files[0]) + "\n\n"@ + (render_files(files.drop_first()) + "\n\n"@
                + render_entry(f)) =~= (render_entry(files[0]) + "\n\n"@ + render_files(
                files.drop_first(),
            )) + "\n\n"@ + render_entry(f));
        }
    }
}

} // verus!
