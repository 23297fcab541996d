//! Which entries a markdown file tree shows.
use vstd::prelude::*;

verus! {

/// A markdown file or a folder that holds some, as the file tree lists it.
#[derive(Debug)]
pub struct FileEntry {
    pub name: String,
    pub path: String,
    pub is_dir: bool,
    pub children: Option<Vec<FileEntry>>,
}

/// Deepest folder level that the file tree descends into.
pub const MAX_TREE_DEPTH: u32 = 5;

/// An entry shows in the tree when its name does not start with `.`, and it
/// is either a folder with something to show or a file named `*.md`.
pub open spec fn shown(name: Seq<char>, is_dir: bool, n_children: nat) -> bool {
    &&& !hidden(name)
    &&& if is_dir {
        n_children > 0
    } else {
        name.len() >= 3 && name.subrange(name.len() - 3, name.len() as int) == seq!['.', 'm', 'd']
    }
}

/// A name that starts with `.`.
pub open spec fn hidden(name: Seq<char>) -> bool {
    name.len() > 0 && name[0] == '.'
}

/// Whether a name is hidden: it starts with `.`.
pub fn is_hidden_name(name: &str) -> (r: bool)
    ensures
        r == hidden(name@),
{
    name.unicode_len() > 0 && name.get_char(0) == '.'
}

/// Whether the tree goes on into a folder at this depth.
pub fn within_depth(depth: u32) -> (r: bool)
    ensures
        r == (depth <= MAX_TREE_DEPTH),
{
    depth <= MAX_TREE_DEPTH
}

/// Whether an entry shows in the tree, given its name, whether it is a folder
/// and how many of its own entries show.
pub fn keep_entry(name: &str, is_dir: bool, n_children: usize) -> (r: bool)
    ensures
        r == shown(name@, is_dir, n_children as nat),
{
    if is_hidden_name(name) {
        return false;
    }
    let n = name.unicode_len();
    if is_dir {
        n_children > 0
    } else if n >= 3 {
        let r = name.get_char(n - 3) == '.' && name.get_char(n - 2) == 'm' && name.get_char(n - 1)
            == 'd';
        assert(r == (name@.subrange(n - 3, n as int) =~= seq!['.', 'm', 'd']));
        r
    } else {
        false
    }
}

} // verus!
