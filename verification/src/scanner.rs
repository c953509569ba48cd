//! Deciding which paths are MKV containers and whether a target can be scanned.
//!
//! Walking directories is left to the caller.
use vstd::prelude::*;
use vstd::string::StringExecFns;

use crate::mkv::opt_view;
use crate::text::{chars_eq_ignore_ascii_case, eq_ignore_ascii_case, str_to_chars};

verus! {

/// The final component of `path`, as `Path::file_name` returns it.
pub uninterp spec fn path_file_name(path: Seq<char>) -> Option<Seq<char>>;

/// `std::path::Path::file_name` on a path given as text.
///
/// The contract only names the result, a function of the path (its final component,
/// none when the path ends in `..`); the component rules are left unstated here.
#[verifier::external_body]
fn file_name_of(path: &str) -> (r: Option<String>)
    ensures
        opt_view(r) == path_file_name(path@),
{
    match std::path::Path::new(path).file_name() {
        Some(name) => Some(name.to_string_lossy().into_owned()),
        None => None,
    }
}

/// Index of the last `.` in `s`, or -1.
pub open spec fn last_dot(s: Seq<char>) -> int
    decreases s.len(),
{
    if s.len() == 0 {
        -1
    } else if s.last() == '.' {
        s.len() - 1
    } else {
        last_dot(s.drop_last())
    }
}

/// The extension of a file name, as `Path::extension` documents it: none without a `.`,
/// none when the only `.` starts the name, else the part after the final `.`.
pub open spec fn file_extension(name: Seq<char>) -> Option<Seq<char>> {
    let i = last_dot(name);
    if name == seq!['.', '.'] || i <= 0 {
        None
    } else {
        Some(name.skip(i + 1))
    }
}

/// The file name's extension is `mkv` in any letter case.
pub open spec fn has_mkv_extension_spec(name: Seq<char>) -> bool {
    &&& file_extension(name) matches Some(ext)
    &&& eq_ignore_ascii_case(ext, seq!['m', 'k', 'v'])
}

/// The path's file name has the `mkv` extension in any letter case.
pub open spec fn is_mkv_path(path: Seq<char>) -> bool {
    &&& path_file_name(path) matches Some(name)
    &&& has_mkv_extension_spec(name)
}

proof fn lemma_last_dot_at(s: Seq<char>, k: int)
    requires
        -1 <= k < s.len(),
        k >= 0 ==> s[k] == '.',
        forall|j: int| k < j < s.len() ==> s[j] != '.',
    ensures
        last_dot(s) == k,
    decreases s.len(),
{
    if s.len() > 0 && s.last() != '.' {
        lemma_last_dot_at(s.drop_last(), k);
    }
}

/// Whether a file name ends in `.mkv`, in any letter case, as `Path::extension` splits
/// it.
pub fn has_mkv_extension(name: &str) -> (r: bool)
    ensures
        r == has_mkv_extension_spec(name@),
{
    let cs = str_to_chars(name);
    let n = cs.len();
    let mut i = n;
    while i > 0 && cs[i - 1] != '.'
        invariant
            i <= n == cs.len(),
            forall|j: int| i <= j < n ==> cs@[j] != '.',
        decreases i,
    {
        i = i - 1;
    }
    proof {
        lemma_last_dot_at(cs@, i - 1);
    }
    if i <= 1 || (n == 2 && cs[0] == '.' && cs[1] == '.') {
        proof {
            if !(i <= 1) {
                assert(cs@ =~= seq!['.', '.']);
            }
        }
        return false;
    }
    proof {
        if cs@ == seq!['.', '.'] {
            assert(cs@[0] == '.' && cs@[1] == '.');
        }
    }
    let mut ext: Vec<char> = Vec::new();
    let mut k = i;
    while k < n
        invariant
            i <= k <= n == cs.len(),
            ext@ == cs@.subrange(i as int, k as int),
        decreases n - k,
    {
        ext.push(cs[k]);
        k = k + 1;
        assert(ext@ =~= cs@.subrange(i as int, k as int));
    }
    assert(ext@ =~= cs@.skip(i as int));
    let mkv = vec!['m', 'k', 'v'];
    assert(mkv@ =~= seq!['m', 'k', 'v']);
    chars_eq_ignore_ascii_case(&ext, &mkv)
}

/// Case-insensitive check for the `.mkv` extension of a path.
pub fn is_mkv_file(path: &str) -> (r: bool)
    ensures
        r == is_mkv_path(path@),
{
    match file_name_of(path) {
        Some(name) => has_mkv_extension(name.as_str()),
        None => false,
    }
}

/// Entry `k` of a directory walk is kept: a regular file with the `mkv` extension.
pub open spec fn keeps_entry(paths: Seq<String>, is_file: Seq<bool>, k: int) -> bool {
    k < is_file.len() && is_file[k] && is_mkv_path(paths[k]@)
}

/// Positions, in walk order, of the kept entries among the first `n`.
pub open spec fn kept_positions(paths: Seq<String>, is_file: Seq<bool>, n: int) -> Seq<usize>
    decreases n,
{
    if n <= 0 {
        seq![]
    } else if keeps_entry(paths, is_file, n - 1) {
        kept_positions(paths, is_file, n - 1).push((n - 1) as usize)
    } else {
        kept_positions(paths, is_file, n - 1)
    }
}

/// Of the entries a directory walk found (`is_file[k]` tells whether entry `k` is a
/// regular file), the positions of the MKV files, in walk order.
pub fn mkv_entries(paths: &Vec<String>, is_file: &Vec<bool>) -> (r: Vec<usize>)
    ensures
        r@ == kept_positions(paths@, is_file@, paths.len() as int),
{
    let mut r: Vec<usize> = Vec::new();
    let mut k: usize = 0;
    while k < paths.len()
        invariant
            k <= paths.len(),
            r@ == kept_positions(paths@, is_file@, k as int),
        decreases paths.len() - k,
    {
        if k < is_file.len() && is_file[k] && is_mkv_file(paths[k].as_str()) {
            r.push(k);
        }
        k = k + 1;
    }
    r
}

/// What a scan target turned out to be.
#[derive(Debug, Clone, Copy, PartialEq, Eq)]
pub enum TargetKind {
    /// A single MKV file.
    SingleFile,
    /// A directory to walk.
    Directory,
}

pub const MISSING_TARGET: &'static str = "Target path does not exist: ";

pub const NOT_MKV: &'static str = "The specified file is not an MKV container: ";

pub const NOT_FILE_OR_DIR: &'static str = "Path is neither a regular file nor a directory: ";

/// Decides what to do with the scan target `path`, given what the file system says of
/// it: a missing path, or a file without the MKV extension, or anything that is neither
/// file nor directory, is refused with a message that names it.
pub fn check_target(path: &str, exists: bool, is_file: bool, is_dir: bool) -> (r: Result<
    TargetKind,
    String,
>)
    ensures
        !exists ==> (r matches Err(m) && m@ == MISSING_TARGET@ + path@),
        exists && is_file && is_mkv_path(path@) ==> r == Ok::<TargetKind, String>(
            TargetKind::SingleFile,
        ),
        exists && is_file && !is_mkv_path(path@) ==> (r matches Err(m) && m@ == NOT_MKV@ + path@),
        exists && !is_file && is_dir ==> r == Ok::<TargetKind, String>(TargetKind::Directory),
        exists && !is_file && !is_dir ==> (r matches Err(m) && m@ == NOT_FILE_OR_DIR@ + path@),
{
    if !exists {
        let mut m = String::from_str(MISSING_TARGET);
        m.append(path);
        return Err(m);
    }
    if is_file {
        if is_mkv_file(path) {
            Ok(TargetKind::SingleFile)
        } else {
            let mut m = String::from_str(NOT_MKV);
            m.append(path);
            Err(m)
        }
    } else if is_dir {
        Ok(TargetKind::Directory)
    } else {
        let mut m = String::from_str(NOT_FILE_OR_DIR);
        m.append(path);
        Err(m)
    }
}

} // verus!
