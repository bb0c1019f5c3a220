//! Laws of metadata paths: what names nothing, and where the metadata of a plugin lies.

use crate::byte_text::lower_text;
use crate::metadata::path_style::{
    has_drive, is_verbatim, main_separator, prefix_len, separators_of, PathStyle, Separators,
};
use crate::metadata::paths::{
    directory_of, ends_in_place, kept, last_dot, last_name, metadata_path, name_start, names_toml,
    stem_of, without_trail,
};
use crate::picks::{lemma_pick_next, picks};
use vstd::prelude::*;

verus! {

proof fn lemma_name_start(front: Seq<char>, name: Seq<char>, by: Separators)
    requires
        front.len() == 0 || by.separates(front.last()),
        forall|i: int| 0 <= i < name.len() ==> !by.separates(#[trigger] name[i]),
    ensures
        name_start(front + name, by) == front.len(),
    decreases name.len(),
{
    let whole = front + name;
    if name.len() == 0 {
        assert(whole =~= front);
    } else {
        assert(whole.last() == name.last());
        assert(whole.drop_last() =~= front + name.drop_last());
        lemma_name_start(front, name.drop_last(), by);
    }
}

/// A name behind a separator is the last name of the path, and what stands before the separator is
/// its directory.
pub proof fn lemma_name_in_directory(
    directory: Seq<char>,
    separator: char,
    name: Seq<char>,
    by: Separators,
)
    requires
        by.separates(separator),
        directory.len() > 0,
        without_trail(directory, by) == directory,
        name.len() > 0,
        name != seq!['.'],
        forall|i: int| 0 <= i < name.len() ==> !by.separates(#[trigger] name[i]),
    ensures
        last_name(directory + seq![separator] + name, by) == name,
        directory_of(directory + seq![separator] + name, by) == directory,
        last_name(name, by) == name,
        directory_of(name, by).len() == 0,
{
    let front = directory + seq![separator];
    let whole = front + name;
    lemma_name_start(front, name, by);
    assert(whole.last() == name.last());
    if name.len() == 1 {
        assert(name =~= seq![name[0]]);
        assert(name[0] != '.');
    } else {
        assert(whole[whole.len() - 2] == name[name.len() - 2]);
    }
    assert(without_trail(whole, by) == whole);
    assert(whole.skip(front.len() as int) =~= name);
    assert(whole.take(front.len() as int) =~= front);
    assert(front.last() == separator);
    assert(front.drop_last() =~= directory);
    lemma_name_start(Seq::empty(), name, by);
    assert(Seq::<char>::empty() + name =~= name);
    assert(without_trail(name, by) == name);
    assert(name.skip(0) =~= name);
    assert(name.take(0).len() == 0);
}

/// Separators at the end of a path name nothing, nor does `.` behind one where paths are not taken to
/// the letter.
pub proof fn lemma_trail_names_nothing(path: Seq<char>, separator: char, by: Separators)
    requires
        by.separates(separator),
    ensures
        last_name(path.push(separator), by) == last_name(path, by),
        directory_of(path.push(separator), by) == directory_of(path, by),
        by != Separators::Backslash ==> last_name(path.push(separator).push('.'), by) == last_name(
            path,
            by,
        ) && directory_of(path.push(separator).push('.'), by) == directory_of(path, by),
{
    let longer = path.push(separator);
    assert(longer.last() == separator);
    assert(longer.drop_last() =~= path);
    let dotted = longer.push('.');
    assert(dotted.last() == '.');
    assert(dotted.drop_last() =~= longer);
    if by != Separators::Backslash {
        assert(dotted[dotted.len() - 2] == separator);
        assert(ends_in_place(dotted, by));
        assert(without_trail(dotted, by) == without_trail(longer, by));
    }
}

/// The last `.` of a name starts its extension.
pub proof fn lemma_stem_and_extension(stem: Seq<char>, extension: Seq<char>)
    requires
        stem.len() > 0,
        !extension.contains('.'),
    ensures
        last_dot(stem + seq!['.'] + extension) == stem.len(),
        stem_of(stem + seq!['.'] + extension) == stem,
        stem_of(extension) == extension,
        stem_of(seq!['.'] + extension) == seq!['.'] + extension,
{
    lemma_last_dot(stem, extension);
    lemma_last_dot(Seq::empty(), extension);
    let whole = stem + seq!['.'] + extension;
    assert(whole.take(stem.len() as int) =~= stem);
    assert(Seq::<char>::empty() + seq!['.'] + extension =~= seq!['.'] + extension);
}

proof fn lemma_last_dot(stem: Seq<char>, extension: Seq<char>)
    requires
        !extension.contains('.'),
    ensures
        last_dot(stem + seq!['.'] + extension) == stem.len(),
        last_dot(extension) == -1,
    decreases extension.len(),
{
    let whole = stem + seq!['.'] + extension;
    if extension.len() == 0 {
        assert(whole.last() == '.');
    } else {
        let shorter = extension.drop_last();
        assert(extension.contains(extension.last()));
        assert forall|i: int| 0 <= i < shorter.len() implies shorter[i] != '.' by {
            assert(extension.contains(extension[i]));
        }
        lemma_last_dot(stem, shorter);
        assert(whole.last() == extension.last());
        assert(whole.drop_last() =~= stem + seq!['.'] + shorter);
    }
}

/// The metadata of a plugin lies in the directory of the plugin, under its stem.
pub proof fn lemma_metadata_beside_plugin(
    style: PathStyle,
    directory: Seq<char>,
    separator: char,
    stem: Seq<char>,
    extension: Seq<char>,
)
    requires
        ({
            let plugin = directory + seq![separator] + stem + seq!['.'] + extension;
            let by = separators_of(style, plugin);
            &&& prefix_len(style, plugin) == 0
            &&& !is_verbatim(plugin)
            &&& by.separates(separator)
            &&& directory.len() > 0
            &&& without_trail(directory, by) == directory
            &&& stem.len() > 0
            &&& extension.len() > 0
            &&& !extension.contains('.')
            &&& forall|i: int| 0 <= i < stem.len() ==> !by.separates(#[trigger] stem[i])
            &&& forall|i: int| 0 <= i < extension.len() ==> !by.separates(#[trigger] extension[i])
            &&& !has_drive(stem, 0)
            &&& !has_drive(directory, 0)
        }),
    ensures
        ({
            let plugin = directory + seq![separator] + stem + seq!['.'] + extension;
            &&& metadata_path(style, plugin) == directory + seq![main_separator(style)] + stem
                + "-metadata.toml"@
            &&& names_toml(style, plugin) <==> lower_text(extension) == lower_text("toml"@)
        }),
{
    let plugin = directory + seq![separator] + stem + seq!['.'] + extension;
    let by = separators_of(style, plugin);
    let name = stem + seq!['.'] + extension;
    assert(plugin =~= directory + seq![separator] + name);
    assert forall|i: int| 0 <= i < name.len() implies !by.separates(#[trigger] name[i]) by {
        if i < stem.len() {
            assert(name[i] == stem[i]);
        } else if i > stem.len() {
            assert(name[i] == extension[i - stem.len() - 1]);
        }
    }
    assert(name.len() >= 3);
    reveal_strlit(".");
    reveal_strlit("..");
    lemma_name_in_directory(directory, separator, name, by);
    lemma_stem_and_extension(stem, extension);
    assert(plugin.skip(0) =~= plugin);
    assert(name.skip(stem.len() + 1int) =~= extension);
    assert(plugin.take(0) + directory =~= directory);
    let own = stem + "-metadata.toml"@;
    assert(!by.separates(directory.last())) by {
        if by.separates(directory.last()) {
            lemma_trail_shorter(directory.drop_last(), by);
        }
    }
    assert(directory.push(main_separator(style)) + own =~= directory + seq![main_separator(style)]
        + stem + "-metadata.toml"@);
}

proof fn lemma_trail_shorter(path: Seq<char>, by: Separators)
    ensures
        without_trail(path, by).len() <= path.len(),
    decreases path.len(),
{
    if path.len() > 0 {
        lemma_trail_shorter(path.drop_last(), by);
    }
}

/// The paths that are read are exactly those that are there, in order.
pub proof fn lemma_paths_kept(paths: Seq<Seq<char>>, flags: Seq<bool>) -> (list: Seq<int>)
    requires
        flags.len() == paths.len(),
    ensures
        picks(list, paths.len() as int, |i: int| flags[i]),
        kept(paths, flags) == list.map_values(|i: int| paths[i]),
    decreases paths.len(),
{
    if paths.len() == 0 {
        assert(kept(paths, flags) =~= Seq::<int>::empty().map_values(|i: int| paths[i]));
        Seq::empty()
    } else {
        let front = paths.drop_last();
        let before = lemma_paths_kept(front, flags.drop_last());
        let end = front.len() as int;
        let condition = |i: int| flags[i];
        assert(picks(before, end, condition)) by {
            assert forall|k: int| #[trigger] before.contains(k) <==> 0 <= k < end && condition(
                k,
            ) by {
                if 0 <= k < end {
                    assert(flags.drop_last()[k] == flags[k]);
                }
            }
        }
        lemma_pick_next(before, end, condition);
        let list = if condition(end) {
            before.push(end)
        } else {
            before
        };
        assert forall|k: int| 0 <= k < before.len() implies front[#[trigger] before[k]]
            == paths[before[k]] by {
            assert(before.contains(before[k]));
        }
        assert(kept(paths, flags) =~= list.map_values(|i: int| paths[i]));
        list
    }
}

} // verus!
