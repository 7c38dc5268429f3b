//! File names in paths, and what stands before and after their last dot.

use vstd::prelude::*;

use crate::text;

verus! {

/// The name of the file that a path leads to; `None` where it leads to no file name.
pub uninterp spec fn name_in_path(path: Seq<char>) -> Option<Seq<char>>;

/// A name that stands for itself in a path: it is not empty, holds no separator and no
/// colon, and is neither the directory itself nor its parent.
pub open spec fn is_plain_name(name: Seq<char>) -> bool {
    &&& name.len() > 0
    &&& name != "."@
    &&& name != ".."@
    &&& forall|i: int|
        0 <= i < name.len() ==> (#[trigger] name[i]) != '/' && name[i] != '\\' && name[i] != ':'
}

/// A directory that is given relative to another, without a backslash.
pub open spec fn is_relative_dir(dir: Seq<char>) -> bool {
    dir.len() > 0 && dir[0] != '/' && !dir.contains('\\')
}

/// The path is a plain name, or a plain name after a relative directory and a slash.
pub open spec fn leads_to(path: Seq<char>, name: Seq<char>) -> bool {
    &&& is_plain_name(name)
    &&& {
        ||| path == name
        ||| exists|dir: Seq<char>| #[trigger] is_relative_dir(dir) && path == dir + "/"@ + name
    }
}

/// `std::path::Path::file_name`. The name of the last component is given by the path
/// alone. It is the plain name that the path leads to, where it leads to one; of other
/// paths nothing is said.
#[verifier::external_body]
pub(crate) fn file_name(path: &str) -> (out: Option<String>)
    ensures
        text::opt_text(out) == name_in_path(path@),
        forall|name: Seq<char>| #[trigger] leads_to(path@, name) ==> text::opt_text(out) == Some(name),
{
    let name = std::path::Path::new(path).file_name()?;
    name.to_str().map(|n| n.to_owned())
}

/// Where the last dot stands, unless it is the first character.
pub open spec fn last_dot(name: Seq<char>) -> Option<int>
    decreases name.len(),
{
    if name.len() <= 1 {
        None
    } else if name.last() == '.' {
        Some(name.len() - 1)
    } else {
        last_dot(name.drop_last())
    }
}

/// What follows the last dot of a file name.
pub open spec fn extension_of(name: Seq<char>) -> Option<Seq<char>> {
    match last_dot(name) {
        Some(i) => Some(name.skip(i + 1)),
        None => None,
    }
}

/// A file name up to its last dot.
pub open spec fn stem_of(name: Seq<char>) -> Seq<char> {
    match last_dot(name) {
        Some(i) => name.take(i),
        None => name,
    }
}

fn find_last_dot(name: &Vec<char>) -> (at: Option<usize>)
    ensures
        match at {
            Some(i) => last_dot(name@) == Some(i as int) && 0 < i < name.len(),
            None => last_dot(name@) is None,
        },
{
    let mut n: usize = name.len();
    assert(name@.take(n as int) =~= name@);
    while n > 1
        invariant
            n <= name.len(),
            last_dot(name@) == last_dot(name@.take(n as int)),
        decreases n,
    {
        if name[n - 1] == '.' {
            assert(name@.take(n as int).last() == '.');
            return Some(n - 1);
        }
        assert(name@.take(n as int).drop_last() =~= name@.take(n - 1));
        n -= 1;
    }
    None
}

/// What follows the last dot of a file name.
pub fn extension(name: &str) -> (out: Option<String>)
    ensures
        text::opt_text(out) == extension_of(name@),
{
    let v = text::chars_of(name);
    match find_last_dot(&v) {
        Some(i) => {
            assert(v@.subrange(i + 1, v@.len() as int) =~= v@.skip(i + 1));
            Some(text::string_between(&v, i + 1, v.len()))
        },
        None => None,
    }
}

/// A file name up to its last dot.
pub fn stem(name: &str) -> (out: String)
    ensures
        out@ == stem_of(name@),
{
    let v = text::chars_of(name);
    match find_last_dot(&v) {
        Some(i) => {
            assert(v@.subrange(0, i as int) =~= v@.take(i as int));
            text::string_between(&v, 0, i)
        },
        None => name.to_owned(),
    }
}

/// A file name is its stem, a dot and its extension, which holds no dot; a name without an
/// extension is its own stem.
pub proof fn a_name_is_stem_and_extension(name: Seq<char>)
    ensures
        match extension_of(name) {
            Some(ext) => name == stem_of(name) + seq!['.'] + ext,
            None => stem_of(name) == name,
        },
        extension_of(name) matches Some(ext) ==> !ext.contains('.'),
    decreases name.len(),
{
    if name.len() > 1 {
        if name.last() == '.' {
            assert(name.skip(name.len() as int) =~= Seq::empty());
            assert(name =~= name.take(name.len() - 1) + seq!['.'] + name.skip(name.len() as int));
        } else {
            let front = name.drop_last();
            a_name_is_stem_and_extension(front);
            if let Some(i) = last_dot(front) {
                lemma_last_dot(front);
                assert(name.take(i) =~= front.take(i));
                assert(name.skip(i + 1) =~= front.skip(i + 1).push(name.last()));
                assert(name =~= front.push(name.last()));
                let ext = name.skip(i + 1);
                assert forall|k: int| 0 <= k < ext.len() implies ext[k] != '.' by {
                    if k < ext.len() - 1 {
                        assert(front.skip(i + 1)[k] == ext[k]);
                        assert(front.skip(i + 1).contains(ext[k]));
                    }
                }
            }
        }
    }
}

proof fn lemma_last_dot(name: Seq<char>)
    ensures
        last_dot(name) matches Some(i) ==> 0 < i < name.len() && name[i] == '.',
    decreases name.len(),
{
    if name.len() > 1 && name.last() != '.' {
        lemma_last_dot(name.drop_last());
    }
}

/// The lower-case form of a text.
pub uninterp spec fn lowercase(s: Seq<char>) -> Seq<char>;

/// A character of the ASCII set in lower case.
pub open spec fn ascii_lower(c: char) -> char {
    if 'A' <= c <= 'Z' {
        (c as u32 + 32) as char
    } else {
        c
    }
}

/// `str::to_lowercase`. The lower-case form is given by the text alone; in a text of
/// ASCII characters each letter becomes its small letter. Of other texts nothing is
/// said.
#[verifier::external_body]
pub(crate) fn to_lowercase(s: &str) -> (out: String)
    ensures
        out@ == lowercase(s@),
        (forall|i: int| 0 <= i < s@.len() ==> (#[trigger] s@[i]) as u32 <= 127) ==> out@ == s@.map_values(
            |c: char| ascii_lower(c),
        ),
{
    s.to_lowercase()
}

/// The extension of a name is what follows its last dot, and the stem is what stands
/// before it; a dot at the start of a name is part of the stem.
pub proof fn the_last_dot_parts_a_name(stem: Seq<char>, ext: Seq<char>)
    requires
        !ext.contains('.'),
    ensures
        stem.len() > 0 ==> extension_of(stem + seq!['.'] + ext) == Some(ext) && stem_of(
            stem + seq!['.'] + ext,
        ) == stem,
        extension_of(seq!['.'] + ext) is None,
        extension_of(ext) is None && stem_of(ext) == ext,
    decreases ext.len(),
{
    let name = stem + seq!['.'] + ext;
    let hidden = seq!['.'] + ext;
    if ext.len() > 0 {
        let front = ext.drop_last();
        assert(!front.contains('.')) by {
            if front.contains('.') {
                let k = choose|k: int| 0 <= k < front.len() && front[k] == '.';
                assert(ext[k] == '.');
            }
        }
        assert(ext[ext.len() - 1] != '.');
        the_last_dot_parts_a_name(stem, front);
        assert(name.drop_last() =~= stem + seq!['.'] + front);
        assert(hidden.drop_last() =~= seq!['.'] + front);
        if stem.len() > 0 {
            let n = stem.len() as int;
            lemma_dot_at(stem, front);
            assert(last_dot(name) == Some(n));
            assert(name.skip(n + 1) =~= ext);
            assert(name.take(n) =~= stem);
        }
    } else {
        if stem.len() > 0 {
            assert(name.skip(stem.len() as int + 1) =~= ext);
            assert(name.take(stem.len() as int) =~= stem);
        }
    }
}

proof fn lemma_dot_at(stem: Seq<char>, ext: Seq<char>)
    requires
        !ext.contains('.'),
        stem.len() > 0,
    ensures
        last_dot(stem + seq!['.'] + ext) == Some(stem.len() as int),
    decreases ext.len(),
{
    let name = stem + seq!['.'] + ext;
    if ext.len() > 0 {
        let front = ext.drop_last();
        assert(!front.contains('.')) by {
            if front.contains('.') {
                let k = choose|k: int| 0 <= k < front.len() && front[k] == '.';
                assert(ext[k] == '.');
            }
        }
        assert(ext[ext.len() - 1] != '.');
        lemma_dot_at(stem, front);
        assert(name.drop_last() =~= stem + seq!['.'] + front);
    }
}

/// Of the letters of ASCII each upper-case one becomes its lower-case one, and all other
/// characters stay as they are.
pub proof fn upper_case_becomes_lower_case(c: char)
    ensures
        'A' <= c <= 'Z' ==> 'a' <= ascii_lower(c) <= 'z' && ascii_lower(c) as int - 'a' as int == c as int
            - 'A' as int,
        !('A' <= c <= 'Z') ==> ascii_lower(c) == c,
{
}

} // verus!
