use vstd::prelude::*;
use crate::text::{chars_of, string_of};

verus! {

/// Whether `std::path::Path` finds the components of the two paths equal.
/// Texts that differ only in, say, a doubled separator have equal components.
pub uninterp spec fn components_equal(a: Seq<char>, b: Seq<char>) -> bool;

/// Whether `Path`'s `==` takes the two texts for the same path: equal texts
/// always are, other texts when their components are equal.
pub open spec fn same_path(a: Seq<char>, b: Seq<char>) -> bool {
    a == b || components_equal(a, b)
}

/// `Path::file_name` of the path written as the text.
pub uninterp spec fn path_file_name(path: Seq<char>) -> Option<Seq<char>>;

/// The index of the last `'.'` in a file name, or `-1` when it holds none.
pub open spec fn last_dot(name: Seq<char>) -> int
    decreases name.len(),
{
    if name.len() == 0 {
        -1
    } else if name.last() == '.' {
        name.len() - 1
    } else {
        last_dot(name.drop_last())
    }
}

/// The stem of a file name, as `Path::file_stem` documents it: the whole name
/// when it holds no `'.'` or only a leading one, else the part before the
/// last `'.'`.
pub open spec fn stem_of_name(name: Seq<char>) -> Seq<char> {
    let d = last_dot(name);
    if d <= 0 {
        name
    } else {
        name.take(d)
    }
}

/// The extension of a file name, as `Path::extension` documents it: none when
/// the name holds no `'.'` or only a leading one, else the part after the
/// last `'.'`.
pub open spec fn extension_of_name(name: Seq<char>) -> Option<Seq<char>> {
    let d = last_dot(name);
    if d <= 0 {
        None
    } else {
        Some(name.skip(d + 1))
    }
}

/// `Path::file_stem` of the path written as the text.
pub open spec fn path_file_stem(path: Seq<char>) -> Option<Seq<char>> {
    match path_file_name(path) {
        Some(name) => Some(stem_of_name(name)),
        None => None,
    }
}

/// `Path::extension` of the path written as the text.
pub open spec fn path_extension(path: Seq<char>) -> Option<Seq<char>> {
    match path_file_name(path) {
        Some(name) => extension_of_name(name),
        None => None,
    }
}

/// `str::to_lowercase`: the Unicode lowercase mapping of the text.
pub uninterp spec fn lowercase(s: Seq<char>) -> Seq<char>;

/// Compares two paths with `Path`'s `==`, which compares their components.
/// Claimed: the answer is `same_path` of the two texts, so two equal texts are
/// always the same path. Nothing more is said of how components are compared.
#[verifier::external_body]
pub(crate) fn paths_equal(a: &str, b: &str) -> (equal: bool)
    ensures
        equal == (a@ == b@ || components_equal(a@, b@)),
{
    std::path::Path::new(a) == std::path::Path::new(b)
}

/// Calls `Path::file_name` on the path written as `path`. Claimed: the result,
/// as text, is `path_file_name` of the text. A file name of a path given as
/// UTF-8 is itself UTF-8.
#[verifier::external_body]
pub(crate) fn file_name_of(path: &str) -> (name: Option<String>)
    ensures
        match name {
            Some(s) => path_file_name(path@) == Some(s@),
            None => path_file_name(path@) is None,
        },
{
    let name = std::path::Path::new(path).file_name()?;
    Some(name.to_str()?.to_string())
}

/// Calls `str::to_lowercase`. Claimed: the result is `lowercase` of the text;
/// the Unicode mapping itself is not written out.
#[verifier::external_body]
pub(crate) fn to_lower(s: &str) -> (lower: String)
    ensures
        lower@ == lowercase(s@),
{
    s.to_lowercase()
}


pub proof fn lemma_last_dot(name: Seq<char>)
    ensures
        -1 <= last_dot(name) < name.len(),
        last_dot(name) >= 0 ==> name[last_dot(name)] == '.',
        forall|j: int| last_dot(name) < j < name.len() ==> name[j] != '.',
    decreases name.len(),
{
    if name.len() > 0 && name.last() != '.' {
        let d = name.drop_last();
        lemma_last_dot(d);
        assert forall|j: int| last_dot(name) < j < name.len() implies name[j] != '.' by {
            if j < d.len() {
                assert(name[j] == d[j]);
            }
        }
        if last_dot(d) >= 0 {
            assert(name[last_dot(name)] == d[last_dot(d)]);
        }
    }
}

/// A file name with an extension is its stem, a `'.'` and the extension; the
/// extension holds no `'.'` and the stem is not empty. A file name without an
/// extension is its own stem; it then holds no `'.'` past its first character.
pub proof fn lemma_stem_and_extension(name: Seq<char>)
    ensures
        extension_of_name(name) matches Some(ext) ==> {
            &&& name == stem_of_name(name).push('.') + ext
            &&& !ext.contains('.')
            &&& stem_of_name(name).len() > 0
        },
        extension_of_name(name) is None ==> {
            &&& stem_of_name(name) == name
            &&& forall|j: int| 0 < j < name.len() ==> name[j] != '.'
        },
{
    lemma_last_dot(name);
    let d = last_dot(name);
    if d > 0 {
        let ext = name.skip(d + 1);
        assert(name =~= name.take(d).push('.') + ext);
        if ext.contains('.') {
            let j = choose|j: int| 0 <= j < ext.len() && ext[j] == '.';
            assert(name[d + 1 + j] == '.');
        }
    }
}

/// The index of the last `'.'` in `name`, if it holds one.
fn find_last_dot(name: &Vec<char>) -> (d: Option<usize>)
    ensures
        match d {
            Some(i) => i == last_dot(name@) && i < name.len(),
            None => last_dot(name@) == -1,
        },
{
    let mut i = name.len();
    assert(name@.take(i as int) =~= name@);
    while i > 0
        invariant
            i <= name.len(),
            last_dot(name@) == last_dot(name@.take(i as int)),
        decreases i,
    {
        let ghost prefix = name@.take(i as int);
        assert(prefix.last() == name@[i - 1]);
        assert(prefix.drop_last() =~= name@.take(i - 1));
        if name[i - 1] == '.' {
            return Some(i - 1);
        }
        i -= 1;
    }
    None
}

/// The file stem of the path written as `path`, from its file name as
/// `Path::file_stem` documents it.
pub(crate) fn file_stem_of(path: &str) -> (stem: Option<String>)
    ensures
        match stem {
            Some(s) => path_file_stem(path@) == Some(s@),
            None => path_file_stem(path@) is None,
        },
{
    let name = file_name_of(path)?;
    let chars = chars_of(name.as_str());
    match find_last_dot(&chars) {
        Some(d) if d > 0 => {
            let s = string_of(&chars, 0, d);
            assert(s@ =~= name@.take(d as int));
            Some(s)
        },
        _ => Some(name),
    }
}

/// The extension of the path written as `path`, from its file name as
/// `Path::extension` documents it.
pub(crate) fn extension_of(path: &str) -> (ext: Option<String>)
    ensures
        match ext {
            Some(s) => path_extension(path@) == Some(s@),
            None => path_extension(path@) is None,
        },
{
    let name = file_name_of(path)?;
    let chars = chars_of(name.as_str());
    match find_last_dot(&chars) {
        Some(d) if d > 0 => {
            let s = string_of(&chars, d + 1, chars.len());
            assert(s@ =~= name@.skip(d + 1));
            Some(s)
        },
        _ => None,
    }
}

} // verus!
