//! The directory with the model files.

use vstd::prelude::*;

use crate::text;

verus! {

/// The platforms that paths and files differ for.
#[derive(Debug, Clone, Copy, PartialEq, Eq, Structural)]
pub enum Platform {
    Linux,
    Windows,
    /// Another system with paths like those of Linux.
    Other,
}

/// The directory with the model files: the platform, its path and the names of the files
/// in it.
pub struct ModelsDir {
    pub platform: Platform,
    pub path: String,
    pub files: Vec<String>,
}

/// A drive and nothing else, such as `C:`.
pub open spec fn is_drive(dir: Seq<char>) -> bool {
    dir.len() == 2 && ('a' <= dir[0] <= 'z' || 'A' <= dir[0] <= 'Z') && dir[1] == ':'
}

/// Whether a name follows the path of a directory without a separator between them.
pub open spec fn needs_no_separator(platform: Platform, dir: Seq<char>) -> bool {
    ||| dir.len() == 0
    ||| dir.last() == '/'
    ||| platform == Platform::Windows && (dir.last() == '\\' || is_drive(dir))
}

/// The path of a file in a directory: with a backslash between them on Windows, and a
/// slash elsewhere.
pub open spec fn path_in(platform: Platform, dir: Seq<char>, name: Seq<char>) -> Seq<char> {
    if needs_no_separator(platform, dir) {
        dir + name
    } else if platform == Platform::Windows {
        dir + "\\"@ + name
    } else {
        dir + "/"@ + name
    }
}

impl ModelsDir {
    /// Whether there is a file with the given name.
    pub open spec fn holds(&self, name: Seq<char>) -> bool {
        text::texts(self.files@).contains(name)
    }

    /// The path of the file with the given name.
    pub open spec fn path_of(&self, name: Seq<char>) -> Seq<char> {
        path_in(self.platform, self.path@, name)
    }

    /// Whether there is a file with the given name.
    pub fn has(&self, name: &str) -> (yes: bool)
        ensures
            yes == self.holds(name@),
    {
        text::has_text(&self.files, name)
    }

    /// The path of the file with the given name.
    pub fn join(&self, name: &str) -> (path: String)
        ensures
            path@ == self.path_of(name@),
    {
        let dir = text::chars_of(self.path.as_str());
        let n = dir.len();
        let mut path = self.path.clone();
        match self.platform {
            Platform::Windows => {
                let drive = n == 2 && (('a' <= dir[0] && dir[0] <= 'z') || ('A' <= dir[0] && dir[0]
                    <= 'Z')) && dir[1] == ':';
                if n > 0 && dir[n - 1] != '/' && dir[n - 1] != '\\' && !drive {
                    path.append("\\");
                }
            },
            _ => {
                if n > 0 && dir[n - 1] != '/' {
                    path.append("/");
                }
            },
        }
        path.append(name);
        path
    }
}

/// The path of a file starts with that of its directory and ends in its name, with at most
/// a separator in between, and there is always one where the path of the directory is not
/// empty or a drive.
pub proof fn a_path_leads_to_its_file(platform: Platform, dir: Seq<char>, name: Seq<char>)
    ensures
        ({
            let path = path_in(platform, dir, name);
            let n = path.len() - name.len();
            &&& dir.len() <= n <= dir.len() + 1
            &&& path.take(dir.len() as int) == dir
            &&& path.skip(n) == name
            &&& platform != Platform::Windows && dir.len() > 0 ==> path[n - 1] == '/'
            &&& platform != Platform::Windows && n > dir.len() ==> dir.len() > 0 && dir.last() != '/'
            &&& platform == Platform::Windows && dir.len() > 2 ==> path[n - 1] == '\\' || path[n - 1] == '/'
            &&& platform == Platform::Windows && n > dir.len() ==> path[n - 1] == '\\' && dir.len() > 0
                && dir.last() != '/' && dir.last() != '\\'
            &&& dir.len() == 0 ==> path == name
        }),
{
    reveal_strlit("/");
    reveal_strlit("\\");
    let path = path_in(platform, dir, name);
    let n = path.len() - name.len();
    assert(path.take(dir.len() as int) =~= dir);
    assert(path.skip(n) =~= name);
    assert(dir.len() == 0 ==> dir + name =~= name);
}

} // verus!
