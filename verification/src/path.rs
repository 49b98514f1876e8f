//! Paths of extracts and datasets.

use vstd::prelude::*;
use vstd::string::{StrSliceExecFns, StringExecFns};

verus! {

/// The path ends in `.osm.pbf`.
pub open spec fn is_extract_path(path: Seq<char>) -> bool {
    path.len() >= 8 && path.subrange(path.len() - 8, path.len() as int) == ".osm.pbf"@
}

/// Tests whether the path ends in `.osm.pbf`, as the path of an extract must.
pub fn has_extract_suffix(path: &str) -> (r: bool)
    ensures
        r == is_extract_path(path@),
{
    let suffix = ".osm.pbf";
    proof {
        reveal_strlit(".osm.pbf");
    }
    let len = path.unicode_len();
    if len < 8 {
        return false;
    }
    let start = len - 8;
    let ghost tail = path@.subrange(path@.len() - 8, path@.len() as int);
    let mut k: usize = 0;
    while k < 8
        invariant
            k <= 8,
            len == path@.len(),
            start == len - 8,
            suffix@ == ".osm.pbf"@,
            suffix@.len() == 8,
            tail == path@.subrange(path@.len() - 8, path@.len() as int),
            forall|m: int| 0 <= m < k ==> tail[m] == suffix@[m],
        decreases 8 - k,
    {
        if path.get_char(start + k) != suffix.get_char(k) {
            return false;
        }
        k += 1;
    }
    assert(tail =~= suffix@);
    true
}

/// The URL under which SQLite drivers open the dataset at `path`.
pub fn sqlite_url_from_path(path: &str) -> (url: String)
    ensures
        url@ == "sqlite:///"@ + path@,
{
    String::from_str("sqlite:///").concat(path)
}

} // verus!
