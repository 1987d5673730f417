//! The binary name cargo builds from a Rust source file, read from the
//! components of the file's absolute path.
use vstd::prelude::*;
use crate::ffbm::db::texts;
use crate::save_context::file_stem;
use crate::text::{chars_of, str_is, string_of};

verus! {

/// Whether the path ends with `tail`.
pub open spec fn ends_in(parts: Seq<Seq<char>>, tail: Seq<Seq<char>>) -> bool {
    tail.len() <= parts.len() && parts.skip(parts.len() - tail.len()) == tail
}

/// The name of the binary directory a path lies in: the component right
/// after the last `src`, `bin` pair that leaves at least one more component
/// after it, searching from the end (cutting one component at a time while
/// more than three are left).
pub open spec fn src_bin_dir(parts: Seq<Seq<char>>) -> Option<Seq<char>>
    decreases parts.len(),
{
    if parts.len() <= 3 {
        None
    } else {
        let cut = parts.drop_last();
        if cut.len() >= 3 && cut[cut.len() - 3] == "src"@ && cut[cut.len() - 2] == "bin"@ {
            Some(cut.last())
        } else {
            src_bin_dir(cut)
        }
    }
}

/// Find the name of the directory under `src/bin` that a path lies in.
pub fn find_src_bin_dir_name(parts: &Vec<String>) -> (r: Option<String>)
    ensures
        match src_bin_dir(texts(parts@)) {
            Some(n) => r matches Some(s) && s@ == n,
            None => r is None,
        },
{
    let ghost ps = texts(parts@);
    let mut len: usize = parts.len();
    assert(ps.take(len as int) =~= ps);
    while len > 3
        invariant
            len <= parts@.len(),
            ps == texts(parts@),
            src_bin_dir(ps) == src_bin_dir(ps.take(len as int)),
        decreases len,
    {
        let ghost t = ps.take(len as int);
        assert(t.drop_last() =~= ps.take(len - 1));
        len = len - 1;
        if len >= 3 && str_is(parts[len - 3].as_str(), "src") && str_is(parts[len - 2].as_str(), "bin") {
            return Some(parts[len - 1].clone());
        }
    }
    None
}

/// The binary name of the source file at the path with components `parts`:
/// the crate directory for `name/src/main.rs` or `name/src/bin/main.rs`; the
/// file's stem for `src/bin/file`; else the directory under `src/bin` that it
/// lies in.
pub open spec fn bin_name_of(parts: Seq<Seq<char>>) -> Option<Seq<char>> {
    let n = parts.len();
    if n >= 3 && parts[n - 2] == "src"@ && parts[n - 1] == "main.rs"@ {
        Some(parts[n - 3])
    } else if n >= 4 && parts[n - 3] == "src"@ && parts[n - 2] == "bin"@ && parts[n - 1]
        == "main.rs"@ {
        Some(parts[n - 4])
    } else if n >= 3 && parts[n - 3] == "src"@ && parts[n - 2] == "bin"@ {
        Some(file_stem(parts[n - 1]))
    } else {
        src_bin_dir(parts)
    }
}

/// Convert the components of a source file's absolute path to the name of
/// the binary it belongs to.
pub fn bin_name(parts: &Vec<String>) -> (r: Option<String>)
    ensures
        match bin_name_of(texts(parts@)) {
            Some(n) => r matches Some(s) && s@ == n,
            None => r is None,
        },
{
    let n = parts.len();
    if n >= 3 && str_is(parts[n - 2].as_str(), "src") && str_is(parts[n - 1].as_str(), "main.rs") {
        return Some(parts[n - 3].clone());
    }
    if n >= 4 && str_is(parts[n - 3].as_str(), "src") && str_is(parts[n - 2].as_str(), "bin")
        && str_is(parts[n - 1].as_str(), "main.rs") {
        return Some(parts[n - 4].clone());
    }
    if n >= 3 && str_is(parts[n - 3].as_str(), "src") && str_is(parts[n - 2].as_str(), "bin") {
        return Some(crate::save_context::stem_of(parts[n - 1].as_str()));
    }
    find_src_bin_dir_name(parts)
}

} // verus!
