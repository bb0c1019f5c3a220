//! How the text of a path is read on a platform.

use vstd::prelude::*;

verus! {

/// The platform whose paths are read.
#[derive(Clone, Copy, Debug, PartialEq, Eq, Structural)]
pub enum PathStyle {
    /// `/` separates, and nothing stands before the root.
    Unix,
    /// `/` and `\` separate, and a drive or a share may stand before the root.
    Windows,
}

/// Which characters separate the components of a path.
#[derive(Clone, Copy, Debug, PartialEq, Eq, Structural)]
pub enum Separators {
    /// `/` alone.
    Slash,
    /// `/` and `\`.
    Either,
    /// `\` alone; `.` is then a component like any other.
    Backslash,
}

impl Separators {
    /// The character separates components.
    pub open spec fn separates(self, c: char) -> bool {
        match self {
            Separators::Slash => c == '/',
            Separators::Either => c == '/' || c == '\\',
            Separators::Backslash => c == '\\',
        }
    }

    /// Whether the character separates components.
    pub fn is_separator(self, c: char) -> (r: bool)
        ensures
            r == self.separates(c),
    {
        match self {
            Separators::Slash => c == '/',
            Separators::Either => c == '/' || c == '\\',
            Separators::Backslash => c == '\\',
        }
    }
}

/// The path is taken to the letter: it starts with `\\?\`.
pub open spec fn is_verbatim(path: Seq<char>) -> bool {
    path.len() >= 4 && path[0] == '\\' && path[1] == '\\' && path[2] == '?' && path[3] == '\\'
}

/// What separates the components of the path.
pub open spec fn separators_of(style: PathStyle, path: Seq<char>) -> Separators {
    match style {
        PathStyle::Unix => Separators::Slash,
        PathStyle::Windows => if is_verbatim(path) {
            Separators::Backslash
        } else {
            Separators::Either
        },
    }
}

/// The characters by which a directory's text is known to end in a separator.
pub open spec fn all_separators(style: PathStyle) -> Separators {
    match style {
        PathStyle::Unix => Separators::Slash,
        PathStyle::Windows => Separators::Either,
    }
}

/// The separator that joins paths.
pub open spec fn main_separator(style: PathStyle) -> char {
    match style {
        PathStyle::Unix => '/',
        PathStyle::Windows => '\\',
    }
}

/// The character is an ASCII letter.
pub open spec fn is_letter(c: char) -> bool {
    'a' <= c <= 'z' || 'A' <= c <= 'Z'
}

/// A drive stands at this place of the path.
pub open spec fn has_drive(path: Seq<char>, at: int) -> bool {
    0 <= at && at + 2 <= path.len() && is_letter(path[at]) && path[at + 1] == ':'
}

/// Where the first separator from `from` on stands; the length where there is none.
pub open spec fn separator_from(path: Seq<char>, from: int, by: Separators) -> int
    decreases path.len() - from,
{
    if from >= path.len() {
        path.len() as int
    } else if by.separates(path[from]) {
        from
    } else {
        separator_from(path, from + 1, by)
    }
}

/// Where the component behind the separator at `at` ends.
pub open spec fn next_end(path: Seq<char>, at: int, by: Separators) -> int {
    if at < path.len() {
        separator_from(path, at + 1, by)
    } else {
        at
    }
}

/// The path names a share of the network to the letter: it starts with `\\?\UNC\`.
pub open spec fn is_verbatim_share(path: Seq<char>) -> bool {
    is_verbatim(path) && path.len() >= 8 && path[4] == 'U' && path[5] == 'N' && path[6] == 'C'
        && path[7] == '\\'
}

/// The drive of a path that is taken to the letter stands alone.
pub open spec fn is_verbatim_drive(path: Seq<char>) -> bool {
    is_verbatim(path) && has_drive(path, 4) && (path.len() == 6
        || Separators::Either.separates(path[6]))
}

/// How much of the path stands before its root: a drive, or a share or device behind two
/// separators.
pub open spec fn prefix_len(style: PathStyle, path: Seq<char>) -> int {
    let either = Separators::Either;
    if style == PathStyle::Unix {
        0
    } else if is_verbatim_share(path) {
        let server = separator_from(path, 8, Separators::Backslash);
        let share = next_end(path, server, Separators::Backslash);
        if share > server + 1 {
            share
        } else {
            server
        }
    } else if is_verbatim_drive(path) {
        6
    } else if is_verbatim(path) {
        separator_from(path, 4, Separators::Backslash)
    } else if path.len() >= 2 && either.separates(path[0]) && either.separates(path[1]) {
        if path.len() >= 4 && path[2] == '.' && either.separates(path[3]) {
            separator_from(path, 4, either)
        } else {
            let server = separator_from(path, 2, either);
            let share = next_end(path, server, either);
            if server > 2 && share > server + 1 {
                share
            } else {
                0
            }
        }
    } else if has_drive(path, 0) {
        2
    } else {
        0
    }
}

/// Whether a drive stands at this place of the path.
pub fn drive_at(path: &Vec<char>, at: usize) -> (r: bool)
    requires
        at + 2 <= usize::MAX,
    ensures
        r == has_drive(path@, at as int),
{
    if path.len() < at + 2 {
        return false;
    }
    let c: char = path[at];
    (('a' <= c && c <= 'z') || ('A' <= c && c <= 'Z')) && path[at + 1] == ':'
}

/// Where the first separator from `from` on stands.
fn find_separator(path: &Vec<char>, from: usize, by: Separators) -> (r: usize)
    requires
        from <= path@.len(),
    ensures
        from <= r <= path@.len(),
        r == separator_from(path@, from as int, by),
{
    let mut at: usize = from;
    while at < path.len() && !by.is_separator(path[at])
        invariant
            from <= at <= path@.len(),
            separator_from(path@, from as int, by) == separator_from(path@, at as int, by),
        decreases path@.len() - at,
    {
        at = at + 1;
    }
    at
}

/// Where the component behind the separator at `at` ends.
fn find_next_end(path: &Vec<char>, at: usize, by: Separators) -> (r: usize)
    requires
        at <= path@.len(),
    ensures
        at <= r <= path@.len(),
        r == next_end(path@, at as int, by),
{
    if at < path.len() {
        find_separator(path, at + 1, by)
    } else {
        at
    }
}

/// Whether the path is taken to the letter.
fn verbatim(path: &Vec<char>) -> (r: bool)
    ensures
        r == is_verbatim(path@),
{
    path.len() >= 4 && path[0] == '\\' && path[1] == '\\' && path[2] == '?' && path[3] == '\\'
}

/// What separates the components of the path.
pub fn path_separators(style: PathStyle, path: &Vec<char>) -> (r: Separators)
    ensures
        r == separators_of(style, path@),
{
    match style {
        PathStyle::Unix => Separators::Slash,
        PathStyle::Windows => if verbatim(path) {
            Separators::Backslash
        } else {
            Separators::Either
        },
    }
}

/// How much of the path stands before its root.
pub fn path_prefix(style: PathStyle, path: &Vec<char>) -> (r: usize)
    ensures
        r <= path@.len(),
        r == prefix_len(style, path@),
{
    let either = Separators::Either;
    if style == PathStyle::Unix {
        return 0;
    }
    let count: usize = path.len();
    if verbatim(path) {
        if count >= 8 && path[4] == 'U' && path[5] == 'N' && path[6] == 'C' && path[7] == '\\' {
            let server: usize = find_separator(path, 8, Separators::Backslash);
            let share: usize = find_next_end(path, server, Separators::Backslash);
            return if share > server && share - server > 1 {
                share
            } else {
                server
            };
        }
        if drive_at(path, 4) && (count == 6 || either.is_separator(path[6])) {
            return 6;
        }
        return find_separator(path, 4, Separators::Backslash);
    }
    if count >= 2 && either.is_separator(path[0]) && either.is_separator(path[1]) {
        if count >= 4 && path[2] == '.' && either.is_separator(path[3]) {
            return find_separator(path, 4, either);
        }
        let server: usize = find_separator(path, 2, either);
        let share: usize = find_next_end(path, server, either);
        return if server > 2 && share > server && share - server > 1 {
            share
        } else {
            0
        };
    }
    if drive_at(path, 0) {
        2
    } else {
        0
    }
}

} // verus!
