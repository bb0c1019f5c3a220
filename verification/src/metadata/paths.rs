//! Where the metadata of a plugin lies.

use crate::byte_text::{lower_text, push_char, uncased_equal};
use crate::decimal::chars_of;
use crate::metadata::path_style::{
    all_separators, drive_at, has_drive, main_separator, path_prefix, path_separators, prefix_len,
    separators_of, PathStyle, Separators,
};
use crate::text::texts;
use vstd::prelude::*;

verus! {

/// The path up to the end of its last component: separators at its end, and `.` behind a separator,
/// name nothing.
pub open spec fn without_trail(path: Seq<char>, by: Separators) -> Seq<char>
    decreases path.len(),
{
    if path.len() == 0 {
        path
    } else if by.separates(path.last()) {
        without_trail(path.drop_last(), by)
    } else if ends_in_place(path, by) {
        without_trail(path.drop_last(), by)
    } else {
        path
    }
}

/// The path ends in a `.` behind a separator, which names nothing.
pub open spec fn ends_in_place(path: Seq<char>, by: Separators) -> bool {
    by != Separators::Backslash && path.len() >= 2 && path.last() == '.' && by.separates(
        path[path.len() - 2],
    )
}

/// Where the last component of a path starts.
pub open spec fn name_start(path: Seq<char>, by: Separators) -> int
    decreases path.len(),
{
    if path.len() == 0 {
        0
    } else if by.separates(path.last()) {
        path.len() as int
    } else {
        name_start(path.drop_last(), by)
    }
}

/// The last component of a path, past what names nothing.
pub open spec fn last_name(path: Seq<char>, by: Separators) -> Seq<char> {
    let file = without_trail(path, by);
    file.skip(name_start(file, by))
}

/// The directory of the last component: what stands before it, past what names nothing, but for
/// the root.
pub open spec fn directory_of(path: Seq<char>, by: Separators) -> Seq<char> {
    let file = without_trail(path, by);
    let before = file.take(name_start(file, by));
    let directory = without_trail(before, by);
    if directory.len() == 0 && before.len() > 0 {
        before.take(1)
    } else {
        directory
    }
}

/// The name is that of a file: neither nothing, nor `.`, nor `..`.
pub open spec fn names_file(name: Seq<char>) -> bool {
    name.len() > 0 && name != "."@ && name != ".."@
}

/// Where the last `.` of the name stands; -1 where there is none.
pub open spec fn last_dot(name: Seq<char>) -> int
    decreases name.len(),
{
    if name.len() == 0 {
        -1
    } else if name.last() == '.' {
        name.len() - 1
    } else {
        last_dot(name.drop_last())
    }
}

/// The name of a file without its extension: a `.` at its start starts none.
pub open spec fn stem_of(name: Seq<char>) -> Seq<char> {
    if last_dot(name) > 0 {
        name.take(last_dot(name))
    } else {
        name
    }
}

/// A path below a directory.
pub open spec fn joined(style: PathStyle, directory: Seq<char>, path: Seq<char>) -> Seq<char> {
    if needs_separator(style, directory) {
        directory.push(main_separator(style)) + path
    } else {
        directory + path
    }
}

/// What is below the directory stands behind a separator of its own. A bare drive takes none.
pub open spec fn needs_separator(style: PathStyle, directory: Seq<char>) -> bool {
    &&& directory.len() > 0
    &&& !all_separators(style).separates(directory.last())
    &&& !(style == PathStyle::Windows && directory.len() == 2 && has_drive(directory, 0))
}

/// The path of the metadata that belongs to a plugin: beside it, named by its stem. A path that
/// names no file is taken for a directory, and its own text for the stem; one that starts at a root
/// stands for itself, and so does one with a drive.
pub open spec fn metadata_path(style: PathStyle, plugin: Seq<char>) -> Seq<char> {
    let by = separators_of(style, plugin);
    let start = prefix_len(style, plugin);
    let rest = plugin.skip(start);
    let name = last_name(rest, by);
    if names_file(name) {
        let own = stem_of(name) + "-metadata.toml"@;
        if style == PathStyle::Windows && has_drive(stem_of(name), 0) {
            own
        } else {
            joined(style, plugin.take(start) + directory_of(rest, by), own)
        }
    } else if start > 0 || (rest.len() > 0 && by.separates(rest[0])) {
        plugin + "-metadata.toml"@
    } else {
        joined(style, plugin, plugin + "-metadata.toml"@)
    }
}

/// Where the last component of a path ends.
fn component_end(chars: &Vec<char>, by: Separators) -> (r: usize)
    ensures
        r <= chars@.len(),
        chars@.take(r as int) == without_trail(chars@, by),
{
    let mut end: usize = chars.len();
    assert(chars@.take(end as int) =~= chars@);
    while end > 0 && (by.is_separator(chars[end - 1]) || (by != Separators::Backslash && end >= 2
        && chars[end - 1] == '.' && by.is_separator(chars[end - 2])))
        invariant
            end <= chars@.len(),
            without_trail(chars@, by) == without_trail(chars@.take(end as int), by),
        decreases end,
    {
        let ghost whole = chars@.take(end as int);
        assert(whole.last() == chars@[end - 1]);
        assert(end >= 2 ==> whole[end - 2] == chars@[end - 2]);
        assert(whole.drop_last() =~= chars@.take(end - 1));
        end = end - 1;
    }
    proof {
        let whole = chars@.take(end as int);
        assert(end > 0 ==> whole.last() == chars@[end - 1]);
        assert(end >= 2 ==> whole[end - 2] == chars@[end - 2]);
    }
    end
}

/// Where the last component starts.
fn name_at(chars: &Vec<char>, by: Separators) -> (start: usize)
    ensures
        start <= chars@.len(),
        start == name_start(chars@, by),
{
    let mut start: usize = chars.len();
    assert(chars@.take(start as int) =~= chars@);
    while start > 0 && !by.is_separator(chars[start - 1])
        invariant
            start <= chars@.len(),
            name_start(chars@, by) == name_start(chars@.take(start as int), by),
        decreases start,
    {
        assert(chars@.take(start as int).drop_last() =~= chars@.take(start - 1));
        start = start - 1;
    }
    proof {
        if start > 0 {
            assert(chars@.take(start as int).last() == chars@[start - 1]);
        }
    }
    start
}

/// Whether the name is that of a file.
fn is_file_name(name: &Vec<char>) -> (r: bool)
    ensures
        r == names_file(name@),
{
    let count: usize = name.len();
    proof {
        reveal_strlit(".");
        reveal_strlit("..");
        if count == 1 && name@[0] == '.' {
            assert(name@ =~= "."@);
        }
        if count == 2 && name@[0] == '.' && name@[1] == '.' {
            assert(name@ =~= ".."@);
        }
        assert("."@.len() == 1 && "."@[0] == '.');
        assert(".."@.len() == 2 && ".."@[0] == '.' && ".."@[1] == '.');
    }
    if count == 0 {
        false
    } else if count == 1 {
        name[0] != '.'
    } else if count == 2 {
        name[0] != '.' || name[1] != '.'
    } else {
        true
    }
}

/// Where the extension of a file name starts, with its `.`.
fn extension_at(name: &Vec<char>) -> (r: Option<usize>)
    ensures
        match r {
            Some(at) => last_dot(name@) > 0 && at == last_dot(name@) && at < name@.len(),
            None => last_dot(name@) <= 0,
        },
{
    let mut dot: usize = name.len();
    assert(name@.take(dot as int) =~= name@);
    while dot > 0 && name[dot - 1] != '.'
        invariant
            dot <= name@.len(),
            last_dot(name@) == last_dot(name@.take(dot as int)),
        decreases dot,
    {
        assert(name@.take(dot as int).drop_last() =~= name@.take(dot - 1));
        dot = dot - 1;
    }
    proof {
        if dot > 0 {
            assert(name@.take(dot as int).last() == name@[dot - 1]);
        }
    }
    if dot <= 1 {
        None
    } else {
        Some(dot - 1)
    }
}

/// The characters from `from` up to `to`.
fn part(chars: &Vec<char>, from: usize, to: usize) -> (r: Vec<char>)
    requires
        from <= to <= chars@.len(),
    ensures
        r@ == chars@.subrange(from as int, to as int),
{
    let mut r: Vec<char> = Vec::new();
    let mut i: usize = from;
    while i < to
        invariant
            from <= i <= to <= chars@.len(),
            r@ == chars@.subrange(from as int, i as int),
        decreases to - i,
    {
        r.push(chars[i]);
        i = i + 1;
        assert(r@ =~= chars@.subrange(from as int, i as int));
    }
    r
}

/// Appends the characters to the text.
fn push_part(text: &mut String, chars: &Vec<char>)
    ensures
        final(text)@ == old(text)@ + chars@,
{
    let mut i: usize = 0;
    assert(text@ =~= old(text)@ + chars@.take(0));
    while i < chars.len()
        invariant
            i <= chars@.len(),
            text@ == old(text)@ + chars@.take(i as int),
        decreases chars@.len() - i,
    {
        push_char(text, chars[i]);
        i = i + 1;
        assert(text@ =~= old(text)@ + chars@.take(i as int));
    }
    assert(chars@.take(i as int) =~= chars@);
}

/// The last component of a path, past what names nothing.
fn name_of(path: &Vec<char>, by: Separators) -> (r: Vec<char>)
    ensures
        r@ == last_name(path@, by),
{
    let end: usize = component_end(path, by);
    let file = part(path, 0, end);
    assert(file@ =~= without_trail(path@, by));
    let start: usize = name_at(&file, by);
    let r = part(&file, start, end);
    assert(r@ =~= last_name(path@, by));
    r
}

/// The directory of the last component.
fn parent_of(path: &Vec<char>, by: Separators) -> (r: Vec<char>)
    ensures
        r@ == directory_of(path@, by),
{
    let end: usize = component_end(path, by);
    let file = part(path, 0, end);
    assert(file@ =~= without_trail(path@, by));
    let start: usize = name_at(&file, by);
    let before = part(&file, 0, start);
    assert(before@ =~= file@.take(start as int));
    let end: usize = component_end(&before, by);
    let end: usize = if end == 0 && before.len() > 0 {
        1
    } else {
        end
    };
    let r = part(&before, 0, end);
    assert(r@ =~= directory_of(path@, by));
    r
}

/// Appends the separator that stands between the directory and what is below it.
fn push_separator(style: PathStyle, directory: &Vec<char>, text: &mut String)
    ensures
        final(text)@ == if needs_separator(style, directory@) {
            old(text)@.push(main_separator(style))
        } else {
            old(text)@
        },
{
    let count: usize = directory.len();
    if count == 0 {
        return ;
    }
    let last: char = directory[count - 1];
    match style {
        PathStyle::Unix => {
            if last != '/' {
                push_char(text, '/');
            }
        },
        PathStyle::Windows => {
            if last != '/' && last != '\\' && !(count == 2 && drive_at(directory, 0)) {
                push_char(text, '\\');
            }
        },
    }
}

/// The path of the metadata that belongs to a plugin: beside it, named by its stem. A path that
/// names no file is taken for a directory, and its own text for the stem.
pub fn plugin_metadata_path(plugin: &str, style: PathStyle) -> (r: String)
    ensures
        r@ == metadata_path(style, plugin@),
{
    let chars: Vec<char> = chars_of(plugin);
    let by = path_separators(style, &chars);
    let start: usize = path_prefix(style, &chars);
    let rest = part(&chars, start, chars.len());
    assert(rest@ =~= plugin@.skip(start as int));
    let name = name_of(&rest, by);
    let mut r = String::new();
    assert(r@ =~= Seq::<char>::empty());
    if !is_file_name(&name) {
        if start == 0 && !(rest.len() > 0 && by.is_separator(rest[0])) {
            push_part(&mut r, &chars);
            push_separator(style, &chars, &mut r);
        }
        let ghost directory = r@;
        push_part(&mut r, &chars);
        r.append("-metadata.toml");
        proof {
            let own = plugin@ + "-metadata.toml"@;
            assert(r@ =~= directory + own);
            assert(Seq::<char>::empty() + plugin@ =~= plugin@);
            assert(Seq::<char>::empty() + own =~= own);
        }
        return r;
    }
    let stem = match extension_at(&name) {
        Some(at) => part(&name, 0, at),
        None => part(&name, 0, name.len()),
    };
    assert(stem@ =~= stem_of(name@));
    let alone: bool = match style {
        PathStyle::Unix => false,
        PathStyle::Windows => drive_at(&stem, 0),
    };
    if !alone {
        let mut directory = part(&chars, 0, start);
        assert(directory@ =~= plugin@.take(start as int));
        let mut parent = parent_of(&rest, by);
        directory.append(&mut parent);
        push_part(&mut r, &directory);
        push_separator(style, &directory, &mut r);
        assert(Seq::<char>::empty() + directory@ =~= directory@);
    }
    let ghost directory = r@;
    push_part(&mut r, &stem);
    r.append("-metadata.toml");
    proof {
        let own = stem@ + "-metadata.toml"@;
        assert(r@ =~= directory + own);
        assert(Seq::<char>::empty() + own =~= own);
    }
    r
}

/// The extension of a path is `toml`, whatever the case.
pub open spec fn names_toml(style: PathStyle, path: Seq<char>) -> bool {
    let name = last_name(path.skip(prefix_len(style, path)), separators_of(style, path));
    names_file(name) && last_dot(name) > 0 && lower_text(name.skip(last_dot(name) + 1))
        == lower_text("toml"@)
}

/// Whether a configured override source is read as TOML.
pub fn is_toml_source(path: &str, style: PathStyle) -> (r: bool)
    ensures
        r == names_toml(style, path@),
{
    let chars: Vec<char> = chars_of(path);
    let by = path_separators(style, &chars);
    let start: usize = path_prefix(style, &chars);
    let rest = part(&chars, start, chars.len());
    assert(rest@ =~= path@.skip(start as int));
    let name = name_of(&rest, by);
    if !is_file_name(&name) {
        return false;
    }
    match extension_at(&name) {
        Some(at) => {
            let count: usize = name.len();
            let mut extension = String::new();
            push_part(&mut extension, &part(&name, at + 1, count));
            assert(extension@ =~= name@.skip(at + 1));
            uncased_equal(extension.as_str(), "toml")
        },
        None => false,
    }
}

/// The paths whose flag is set, in order.
pub open spec fn kept(paths: Seq<Seq<char>>, flags: Seq<bool>) -> Seq<Seq<char>>
    decreases paths.len(),
{
    if paths.len() == 0 {
        Seq::empty()
    } else {
        let before = kept(paths.drop_last(), flags.drop_last());
        if flags.last() {
            before.push(paths.last())
        } else {
            before
        }
    }
}

/// The metadata paths of plugins, in order.
pub open spec fn metadata_paths(style: PathStyle, plugins: Seq<Seq<char>>) -> Seq<Seq<char>> {
    plugins.map_values(|plugin: Seq<char>| metadata_path(style, plugin))
}

/// The flag is an answer for the path.
pub open spec fn answered<F: Fn(&String) -> bool>(is_file: F, path: Seq<char>, flag: bool) -> bool {
    exists|p: String| p@ == path && #[trigger] call_ensures(is_file, (&p,), flag)
}

/// Each flag is an answer for the path at its position.
pub open spec fn answers<F: Fn(&String) -> bool>(
    is_file: F,
    paths: Seq<Seq<char>>,
    flags: Seq<bool>,
) -> bool {
    &&& flags.len() == paths.len()
    &&& forall|i: int| 0 <= i < paths.len() ==> answered(is_file, paths[i], #[trigger] flags[i])
}

/// The metadata files of the plugins that exist, in plugin order.
pub fn discover_plugin_metadata<F: Fn(&String) -> bool>(
    is_file: &F,
    plugins: &[String],
    style: PathStyle,
) -> (r: Vec<String>)
    requires
        forall|path: String| call_requires(*is_file, (&path,)),
    ensures
        exists|flags: Seq<bool>|
            #[trigger] answers(*is_file, metadata_paths(style, texts(plugins@)), flags) && texts(r@)
                == kept(metadata_paths(style, texts(plugins@)), flags),
{
    let ghost paths = metadata_paths(style, texts(plugins@));
    let ghost mut flags: Seq<bool> = Seq::empty();
    let mut r: Vec<String> = Vec::new();
    let mut i: usize = 0;
    assert(texts(r@) =~= kept(paths.take(0), flags));
    while i < plugins.len()
        invariant
            i <= plugins@.len(),
            paths == metadata_paths(style, texts(plugins@)),
            forall|path: String| call_requires(*is_file, (&path,)),
            answers(*is_file, paths.take(i as int), flags),
            texts(r@) == kept(paths.take(i as int), flags),
        decreases plugins@.len() - i,
    {
        let path = plugin_metadata_path(plugins[i].as_str(), style);
        let ghost before = r@;
        let ghost earlier = flags;
        let there: bool = is_file(&path);
        proof {
            let seen = path;
            flags = flags.push(there);
            assert(paths[i as int] == seen@);
            let next = paths.take(i + 1);
            assert(next.drop_last() =~= paths.take(i as int));
            assert(next.last() == seen@);
            assert(flags.drop_last() =~= earlier);
            assert(answered(*is_file, seen@, there));
            assert forall|k: int| 0 <= k < next.len() implies answered(
                *is_file,
                next[k],
                #[trigger] flags[k],
            ) by {
                if k < i {
                    assert(next[k] == paths.take(i as int)[k]);
                    assert(flags[k] == earlier[k]);
                }
            }
            assert(flags.len() == next.len());
            assert(answers(*is_file, next, flags));
        }
        if there {
            let ghost added = path@;
            r.push(path);
            assert(texts(r@) =~= texts(before).push(added));
        }
        i = i + 1;
    }
    proof {
        assert(paths.take(i as int) =~= paths);
        assert(answers(*is_file, paths, flags));
    }
    r
}

} // verus!
