//! Extension labels of file names and paths.

use std::path::Path;
use vstd::prelude::*;
use vstd::string::*;

verus! {

/// The label given to a file whose name yields no extension.
pub open spec fn unknown_label() -> Seq<char> {
    seq!['u', 'n', 'k', 'n', 'o', 'w', 'n']
}

/// Position of the last `.` in `n`, or -1 when `n` holds no dot.
pub open spec fn last_dot(n: Seq<char>) -> int
    decreases n.len(),
{
    if n.len() == 0 {
        -1
    } else if n.last() == '.' {
        n.len() - 1
    } else {
        last_dot(n.drop_last())
    }
}

/// The extension label of a file name:
/// - the text after the last dot, when that dot is not the first character
///   and at least one character follows it (`archive.tar.gz` gives `gz`);
/// - otherwise, for a name of two or more characters whose only dot is
///   the leading one, the name without that dot (`.gitignore` gives `gitignore`);
/// - otherwise `unknown`.
pub open spec fn label_of(name: Seq<char>) -> Seq<char> {
    let d = last_dot(name);
    if 0 < d && d + 1 < name.len() {
        name.subrange(d + 1, name.len() as int)
    } else if d == 0 && name.len() > 1 {
        name.subrange(1, name.len() as int)
    } else {
        unknown_label()
    }
}

/// The label of a path: that of its final component, or `unknown` where the
/// path has no final component (it is empty, `/`, or ends in `..`).
pub open spec fn ext_of(path: Seq<char>) -> Seq<char> {
    match file_name_of(path) {
        Some(n) => label_of(n),
        None => unknown_label(),
    }
}

/// The final component of a path, as `std::path::Path::file_name` finds it.
pub uninterp spec fn file_name_of(path: Seq<char>) -> Option<Seq<char>>;

/// Relies on `std::path::Path::file_name`: the final component of the path,
/// which depends on the path's text alone. The component of a `&str` path is
/// valid text, so the lossy conversion keeps it as it is.
#[verifier::external_body]
fn file_name(path: &str) -> (r: Option<String>)
    ensures
        match r {
            Some(s) => file_name_of(path@) == Some(s@),
            None => file_name_of(path@) is None,
        },
{
    Path::new(path).file_name().map(|n| n.to_string_lossy().into_owned())
}

proof fn lemma_last_dot(n: Seq<char>, d: int)
    requires
        -1 <= d < n.len(),
        d >= 0 ==> n[d] == '.',
        forall|j: int| d < j < n.len() ==> n[j] != '.',
    ensures
        last_dot(n) == d,
    decreases n.len(),
{
    if n.len() > 0 && n.last() != '.' {
        lemma_last_dot(n.drop_last(), d);
    }
}

/// A name with a dot past its first character, followed by at least one
/// character and by no other dot, is labelled by the text after that dot.
pub proof fn law_text_after_last_dot(name: Seq<char>, d: int)
    requires
        0 < d,
        d + 1 < name.len(),
        name[d] == '.',
        forall|j: int| d < j < name.len() ==> name[j] != '.',
    ensures
        label_of(name) == name.subrange(d + 1, name.len() as int),
{
    lemma_last_dot(name, d);
}

/// A name of two or more characters whose only dot is the leading one is
/// labelled by the name without that dot.
pub proof fn law_leading_dot_only(name: Seq<char>)
    requires
        name.len() > 1,
        name[0] == '.',
        forall|j: int| 0 < j < name.len() ==> name[j] != '.',
    ensures
        label_of(name) == name.subrange(1, name.len() as int),
{
    lemma_last_dot(name, 0);
}

/// A name without any dot is labelled `unknown`.
pub proof fn law_no_dot_unknown(name: Seq<char>)
    requires
        forall|j: int| 0 <= j < name.len() ==> name[j] != '.',
    ensures
        label_of(name) == unknown_label(),
{
    lemma_last_dot(name, -1);
}

/// The extension label of a bare file name.
pub fn label_of_name(name: &str) -> (r: String)
    ensures
        r@ == label_of(name@),
        r@.len() > 0,
{
    let n = name.unicode_len();
    let mut i: usize = n;
    let mut found = false;
    while i > 0 && !found
        invariant
            i <= n,
            n == name@.len(),
            found ==> i > 0 && name@[i - 1] == '.',
            forall|j: int| i <= j < n ==> name@[j] != '.',
        decreases i + if found { 0int } else { 1int },
    {
        if name.get_char(i - 1) == '.' {
            found = true;
        } else {
            i = i - 1;
        }
    }
    proof {
        if found {
            lemma_last_dot(name@, i - 1);
        } else {
            lemma_last_dot(name@, -1);
        }
    }
    if found && i > 1 && i < n {
        name.substring_char(i, n).to_owned()
    } else if found && i == 1 && n > 1 {
        name.substring_char(1, n).to_owned()
    } else {
        unknown()
    }
}

fn unknown() -> (r: String)
    ensures
        r@ == unknown_label(),
{
    proof {
        reveal_strlit("unknown");
    }
    "unknown".to_owned()
}

/// The extension label of the file that `path` names.
pub fn get_file_ext(path: &str) -> (r: String)
    ensures
        r@ == ext_of(path@),
        r@.len() > 0,
{
    match file_name(path) {
        Some(n) => label_of_name(n.as_str()),
        None => unknown(),
    }
}

} // verus!
