use crate::paths::{extension, file_name, file_stem, parent, path_extension, path_file_name, path_parent, path_stem};
use crate::text::{chars_of, text_eq};
use vstd::prelude::*;

verus! {

/// What the watcher of the node directory reports.
pub enum FileEvent {
    /// The Scheme file of node `label` on canvas `canvas` now holds `code`.
    NodeChanged { canvas: String, label: String, code: String },
}

/// Whether a changed file is a Scheme node file: its extension is `scm`.
pub fn is_node_file(path: &str) -> (r: bool)
    ensures
        r == (path_extension(path@) == Some("scm"@)),
{
    match extension(path) {
        Some(e) => text_eq(e.as_str(), "scm"),
        None => false,
    }
}

/// The canvas of a node file `.../{canvas}/{label}.scm`: the name of its directory.
pub open spec fn canvas_of(path: Seq<char>) -> Option<Seq<char>> {
    match path_parent(path) {
        Some(d) => path_file_name(d),
        None => None,
    }
}

/// The event for a node file at `path` that now holds `code`: its label is
/// the file's stem and its canvas the name of its directory; none where the
/// path has either missing.
pub fn node_event(path: &str, code: String) -> (r: Option<FileEvent>)
    ensures
        match r {
            Some(FileEvent::NodeChanged { canvas, label, code: c }) => path_stem(path@) == Some(label@)
                && canvas_of(path@) == Some(canvas@) && c == code,
            None => path_stem(path@) is None || canvas_of(path@) is None,
        },
{
    let label = match file_stem(path) {
        Some(l) => l,
        None => {
            return None;
        },
    };
    let dir = match parent(path) {
        Some(d) => d,
        None => {
            return None;
        },
    };
    let canvas = match file_name(dir.as_str()) {
        Some(c) => c,
        None => {
            return None;
        },
    };
    Some(FileEvent::NodeChanged { canvas, label, code })
}

/// A node's label as its file names it: spaces become dashes.
pub open spec fn dashed(s: Seq<char>) -> Seq<char> {
    Seq::new(s.len(), |i: int| if s[i] == ' ' { '-' } else { s[i] })
}

/// Whether the node with `node_label` is the one a file labelled
/// `file_label` belongs to; a phantom node never is.
pub fn label_matches(node_label: &str, phantom: bool, file_label: &str) -> (r: bool)
    ensures
        r == (!phantom && dashed(node_label@) == file_label@),
{
    if phantom {
        return false;
    }
    let a = chars_of(node_label);
    let b = chars_of(file_label);
    if a.len() != b.len() {
        assert(dashed(node_label@).len() != file_label@.len());
        return false;
    }
    let mut i: usize = 0;
    while i < a.len()
        invariant
            i <= a@.len(),
            a@ == node_label@,
            b@ == file_label@,
            a@.len() == b@.len(),
            forall|j: int| 0 <= j < i ==> #[trigger] dashed(a@)[j] == b@[j],
        decreases a@.len() - i,
    {
        let c = if a[i] == ' ' { '-' } else { a[i] };
        if c != b[i] {
            assert(dashed(a@)[i as int] != b@[i as int]);
            return false;
        }
        i = i + 1;
    }
    assert(dashed(a@) =~= b@);
    true
}

} // verus!
