//! Reads override texts line by line.

use crate::byte_text::{
    fields, fields_of, find_byte, first_at, last_at, lower_text, lowercase, rfind_byte,
    same_ignoring_case, slices, to_text, trim, trimmed,
};
use crate::overrides::builder::{
    empty_merge, label_text, text_label, with_cell, with_mesh, with_name, with_source, with_vis,
    Merge, OverridesBuilder,
};
use crate::overrides::keys::{mesh_key, normalize_mesh_override_key};
use crate::overrides::laws::{lemma_texts_keep_tables, tables_in_step};
use crate::overrides::parse::{
    is_word, keywords_of, parse_ranges, parse_static_keywords, ranges_of, strip_comment, uncommented,
    unescape, unescaped_text,
};
use crate::overrides::{group_number, DynamicVisKind, StaticOverride, StaticOverrides, VisKind};
use crate::text::texts;
use vstd::prelude::*;
use vstd::slice::slice_subrange;
use vstd::utf8::{decode_utf8, valid_utf8};

verus! {

/// The byte `=` between a key and its value.
pub const EQUALS: u8 = 0x3d;

/// The byte that ends a line.
pub const NEWLINE: u8 = 0x0a;

/// The byte that may stand before the one that ends a line.
pub const RETURN: u8 = 0x0d;

/// The byte that opens a header.
pub const OPEN: u8 = 0x5b;

/// The byte that closes a header.
pub const CLOSE: u8 = 0x5d;

/// Part of an override text.
#[derive(Clone, Copy, Debug, PartialEq, Eq, Structural)]
pub enum Section {
    /// Keywords by mesh path, before any header.
    Default,
    /// Objects that are enabled or disabled.
    Names,
    /// Interiors that are enabled or disabled.
    Interiors,
    /// Dynamic-visibility groups.
    DynamicVis,
}

/// What a line says.
pub enum Directive {
    Mesh { key: String, value: StaticOverride },
    Object { key: String, enabled: bool },
    Interior { name: String, enabled: bool },
    Vis { key: String, kind: DynamicVisKind },
}

/// What a line says, as mathematical values.
#[verifier::ext_equal]
pub enum Said {
    Mesh(Seq<char>, StaticOverride),
    Object(Seq<char>, bool),
    Interior(Seq<char>, bool),
    Vis(Seq<char>, VisKind),
}

impl View for Directive {
    type V = Said;

    open spec fn view(&self) -> Said {
        match self {
            Directive::Mesh { key, value } => Said::Mesh(key@, *value),
            Directive::Object { key, enabled } => Said::Object(key@, *enabled),
            Directive::Interior { name, enabled } => Said::Interior(name@, *enabled),
            Directive::Vis { key, kind } => Said::Vis(key@, kind@),
        }
    }
}

/// The directive of a result, as mathematical values.
pub open spec fn said(r: Option<Directive>) -> Option<Said> {
    match r {
        Some(directive) => Some(directive@),
        None => None,
    }
}

/// Whether the value enables or disables, where it does either.
pub open spec fn switch_of(value: Seq<u8>) -> Option<bool> {
    if is_word(value, "enable"@) {
        Some(true)
    } else if is_word(value, "disable"@) {
        Some(false)
    } else {
        None
    }
}

/// What a line of mesh keywords says. The last `=` ends the key.
pub open spec fn mesh_line(line: Seq<u8>) -> Option<Said> {
    match last_at(line, EQUALS) {
        Some(pos) => {
            let key = trimmed(line.take(pos));
            if key.len() > 0 && valid_utf8(key) {
                Some(
                    Said::Mesh(
                        mesh_key(decode_utf8(key)),
                        keywords_of(trimmed(line.skip(pos + 1))),
                    ),
                )
            } else {
                None
            }
        },
        None => None,
    }
}

/// What a line on an object says. A bare name disables it.
pub open spec fn name_line(line: Seq<u8>) -> Option<Said> {
    match last_at(line, EQUALS) {
        Some(pos) => {
            let key = trimmed(line.take(pos));
            match switch_of(trimmed(line.skip(pos + 1))) {
                Some(enabled) if key.len() > 0 => Some(
                    Said::Object(lower_text(unescaped_text(key)), enabled),
                ),
                _ => None,
            }
        },
        None => {
            let key = lower_text(unescaped_text(line));
            if key.len() > 0 {
                Some(Said::Object(key, false))
            } else {
                None
            }
        },
    }
}

/// What a line on an interior says. A bare name enables it.
pub open spec fn interior_line(line: Seq<u8>) -> Option<Said> {
    match last_at(line, EQUALS) {
        Some(pos) => {
            let key = trimmed(line.take(pos));
            match switch_of(trimmed(line.skip(pos + 1))) {
                Some(enabled) if key.len() > 0 && valid_utf8(key) => Some(
                    Said::Interior(decode_utf8(key), enabled),
                ),
                _ => None,
            }
        },
        None => if valid_utf8(line) && decode_utf8(line).len() > 0 {
            Some(Said::Interior(decode_utf8(line), true))
        } else {
            None
        },
    }
}

/// The texts of the tokens that are UTF-8, in small letters.
pub open spec fn token_texts(tokens: Seq<Seq<u8>>) -> Seq<Seq<char>>
    decreases tokens.len(),
{
    if tokens.len() == 0 {
        Seq::empty()
    } else {
        let before = token_texts(tokens.drop_last());
        if valid_utf8(tokens.last()) {
            before.push(lower_text(decode_utf8(tokens.last())))
        } else {
            before
        }
    }
}

/// The group that the tokens of a value describe.
pub open spec fn vis_of(key: Seq<char>, tokens: Seq<Seq<u8>>) -> Option<VisKind> {
    if tokens.len() == 0 {
        None
    } else if is_word(tokens[0], "journal"@) && tokens.len() >= 2 {
        if valid_utf8(tokens[1]) {
            Some(VisKind::Journal(lower_text(decode_utf8(tokens[1])), ranges_of(tokens.skip(2))))
        } else {
            None
        }
    } else if is_word(tokens[0], "global"@) && tokens.len() >= 2 {
        if valid_utf8(tokens[1]) {
            Some(VisKind::Global(lower_text(decode_utf8(tokens[1])), ranges_of(tokens.skip(2))))
        } else {
            None
        }
    } else if is_word(tokens[0], "unique_object"@) {
        Some(VisKind::UniqueObject(key, seq![key] + token_texts(tokens.skip(1))))
    } else {
        None
    }
}

/// What a line on a dynamic-visibility group says. The first `=` ends the key.
pub open spec fn vis_line(line: Seq<u8>) -> Option<Said> {
    match first_at(line, EQUALS) {
        Some(pos) => {
            let key = lower_text(unescaped_text(trimmed(line.take(pos))));
            let value = trimmed(line.skip(pos + 1));
            if key.len() > 0 && value.len() > 0 {
                match vis_of(key, fields_of(value)) {
                    Some(kind) => Some(Said::Vis(key, kind)),
                    None => None,
                }
            } else {
                None
            }
        },
        None => None,
    }
}

/// What a line of a section says.
pub open spec fn line_says(section: Section, line: Seq<u8>) -> Option<Said> {
    match section {
        Section::Default => mesh_line(line),
        Section::Names => name_line(line),
        Section::Interiors => interior_line(line),
        Section::DynamicVis => vis_line(line),
    }
}

fn switch(value: &[u8]) -> (r: Option<bool>)
    ensures
        r == switch_of(value@),
{
    if same_ignoring_case(value, "enable".as_bytes()) {
        Some(true)
    } else if same_ignoring_case(value, "disable".as_bytes()) {
        Some(false)
    } else {
        None
    }
}

fn rest_of(line: &[u8], from: usize) -> (r: &[u8])
    requires
        from <= line@.len(),
    ensures
        r@ == line@.skip(from as int),
{
    let r = slice_subrange(line, from, line.len());
    assert(r@ =~= line@.skip(from as int));
    r
}

fn length(line: &[u8]) -> (r: usize)
    ensures
        r == line@.len(),
{
    line.len()
}

/// Reads a line of mesh keywords.
pub fn parse_mesh_override(line: &[u8]) -> (r: Option<Directive>)
    ensures
        said(r) == mesh_line(line@),
{
    let count: usize = length(line);
    let pos: usize = match rfind_byte(line, EQUALS) {
        Some(pos) => pos,
        None => {
            return None;
        },
    };
    let key = trim(slice_subrange(line, 0, pos));
    let value = trim(rest_of(line, pos + 1));
    if key.len() == 0 {
        return None;
    }
    match to_text(key) {
        Some(text) => Some(
            Directive::Mesh {
                key: normalize_mesh_override_key(text.as_str()),
                value: parse_static_keywords(value),
            },
        ),
        None => None,
    }
}

/// Reads a line on an object.
pub fn parse_name_override(line: &[u8]) -> (r: Option<Directive>)
    ensures
        said(r) == name_line(line@),
{
    let count: usize = length(line);
    match rfind_byte(line, EQUALS) {
        Some(pos) => {
            let key = trim(slice_subrange(line, 0, pos));
            let value = trim(rest_of(line, pos + 1));
            if key.len() == 0 {
                return None;
            }
            match switch(value) {
                Some(enabled) => Some(
                    Directive::Object { key: lowercase(unescape(key).as_str()), enabled },
                ),
                None => None,
            }
        },
        None => {
            let key = lowercase(unescape(line).as_str());
            if key.as_str().unicode_len() == 0 {
                None
            } else {
                Some(Directive::Object { key, enabled: false })
            }
        },
    }
}

/// Reads a line on an interior.
pub fn parse_interior_override(line: &[u8]) -> (r: Option<Directive>)
    ensures
        said(r) == interior_line(line@),
{
    let count: usize = length(line);
    match rfind_byte(line, EQUALS) {
        Some(pos) => {
            let key = trim(slice_subrange(line, 0, pos));
            let value = trim(rest_of(line, pos + 1));
            if key.len() == 0 {
                return None;
            }
            match (to_text(key), switch(value)) {
                (Some(name), Some(enabled)) => Some(Directive::Interior { name, enabled }),
                _ => None,
            }
        },
        None => match to_text(line) {
            Some(name) => if name.as_str().unicode_len() == 0 {
                None
            } else {
                Some(Directive::Interior { name, enabled: true })
            },
            None => None,
        },
    }
}

/// The texts of the tokens from the second on that are UTF-8, behind the key.
fn linked_of(key: &String, tokens: &Vec<&[u8]>) -> (r: Vec<String>)
    requires
        tokens@.len() > 0,
    ensures
        texts(r@) == seq![key@] + token_texts(slices(tokens@).skip(1)),
{
    let ghost rest = slices(tokens@).skip(1);
    let mut linked: Vec<String> = Vec::new();
    linked.push(key.clone());
    let mut i: usize = 1;
    assert(rest.take(0) =~= Seq::empty());
    assert(texts(linked@) =~= seq![key@] + token_texts(rest.take(0)));
    while i < tokens.len()
        invariant
            1 <= i <= tokens@.len(),
            rest == slices(tokens@).skip(1),
            texts(linked@) == seq![key@] + token_texts(rest.take(i - 1)),
        decreases tokens@.len() - i,
    {
        let ghost before = linked@;
        proof {
            assert(rest.take(i as int).drop_last() =~= rest.take(i - 1));
            assert(rest.take(i as int).last() == tokens@[i as int]@);
        }
        if let Some(text) = to_text(tokens[i]) {
            let small = lowercase(text.as_str());
            let ghost added = small@;
            linked.push(small);
            assert(texts(linked@) =~= texts(before).push(added));
            assert((seq![key@] + token_texts(rest.take(i - 1))).push(added) =~= seq![key@]
                + token_texts(rest.take(i as int)));
        }
        i = i + 1;
    }
    assert(rest.take(i - 1) =~= rest);
    linked
}

/// Reads a line on a dynamic-visibility group.
pub fn parse_dynamic_vis(line: &[u8]) -> (r: Option<Directive>)
    ensures
        said(r) == vis_line(line@),
{
    let count: usize = length(line);
    let pos: usize = match find_byte(line, EQUALS) {
        Some(pos) => pos,
        None => {
            return None;
        },
    };
    let key = lowercase(unescape(trim(slice_subrange(line, 0, pos))).as_str());
    let value = trim(rest_of(line, pos + 1));
    if key.as_str().unicode_len() == 0 || value.len() == 0 {
        return None;
    }
    let tokens: Vec<&[u8]> = fields(value);
    let ghost parts = slices(tokens@);
    if tokens.len() == 0 {
        return None;
    }
    assert(parts[0] == tokens@[0]@);
    let journal: bool = same_ignoring_case(tokens[0], "journal".as_bytes());
    let global: bool = same_ignoring_case(tokens[0], "global".as_bytes());
    if (journal || global) && tokens.len() >= 2 {
        assert(parts[1] == tokens@[1]@);
        let id = match to_text(tokens[1]) {
            Some(text) => lowercase(text.as_str()),
            None => {
                return None;
            },
        };
        let rest = slice_subrange(tokens.as_slice(), 2, tokens.len());
        assert(slices(rest@) =~= parts.skip(2));
        let ranges = parse_ranges(rest);
        let kind = if journal {
            DynamicVisKind::Journal { journal_id: id, ranges }
        } else {
            DynamicVisKind::Global { global_id: id, ranges }
        };
        return Some(Directive::Vis { key, kind });
    }
    if same_ignoring_case(tokens[0], "unique_object".as_bytes()) {
        let linked_ids = linked_of(&key, &tokens);
        let source_id = key.clone();
        return Some(
            Directive::Vis { key, kind: DynamicVisKind::UniqueObject { source_id, linked_ids } },
        );
    }
    None
}

/// The section that a header names. An unknown header leaves the section as it is.
pub open spec fn header_section(section: Section, name: Seq<u8>) -> Section {
    if is_word(name, "names"@) {
        Section::Names
    } else if is_word(name, "interiors"@) {
        Section::Interiors
    } else if is_word(name, "dynamic_vis"@) {
        Section::DynamicVis
    } else {
        section
    }
}

/// The line is a header.
pub open spec fn is_header(line: Seq<u8>) -> bool {
    line.len() >= 2 && line[0] == OPEN && line.last() == CLOSE
}

/// Escapes are known in the section.
pub open spec fn has_escapes(section: Section) -> bool {
    section == Section::Names || section == Section::DynamicVis
}

/// The line without its comment and the whitespace around it.
pub open spec fn content(section: Section, line: Seq<u8>) -> Seq<u8> {
    trimmed(uncommented(line, has_escapes(section)))
}

/// The section after a line.
pub open spec fn next_section(section: Section, line: Seq<u8>) -> Section {
    let text = content(section, line);
    if is_header(text) {
        header_section(section, trimmed(text.subrange(1, text.len() - 1)))
    } else {
        section
    }
}

/// The merge after a directive.
pub open spec fn directed(m: Merge, directive: Option<Said>) -> Merge {
    match directive {
        Some(Said::Mesh(key, value)) => with_mesh(m, key, value),
        Some(Said::Object(key, enabled)) => with_name(m, key, enabled),
        Some(Said::Interior(name, enabled)) => with_cell(m, name, enabled),
        Some(Said::Vis(key, kind)) => with_vis(m, key, kind),
        None => m,
    }
}

/// The merge after a line.
pub open spec fn read_line(m: Merge, section: Section, line: Seq<u8>) -> Merge {
    let text = content(section, line);
    if text.len() == 0 || is_header(text) {
        m
    } else {
        directed(m, line_says(section, text))
    }
}

/// The merge after lines.
pub open spec fn read_lines(m: Merge, section: Section, lines: Seq<Seq<u8>>) -> Merge
    decreases lines.len(),
{
    if lines.len() == 0 {
        m
    } else {
        read_lines(
            read_line(m, section, lines[0]),
            next_section(section, lines[0]),
            lines.skip(1),
        )
    }
}

/// The line without a carriage return at its end.
pub open spec fn without_return(line: Seq<u8>) -> Seq<u8> {
    if line.len() > 0 && line.last() == RETURN {
        line.drop_last()
    } else {
        line
    }
}

/// The lines of a text. A line ends at `\n` or `\r\n`; the last need not.
pub open spec fn lines_of(text: Seq<u8>) -> Seq<Seq<u8>>
    decreases text.len(),
{
    match first_at(text, NEWLINE) {
        Some(pos) if 0 <= pos < text.len() => seq![without_return(text.take(pos))] + lines_of(
            text.skip(pos + 1),
        ),
        _ => if text.len() == 0 {
            Seq::empty()
        } else {
            seq![text]
        },
    }
}

/// The merge after one more text.
pub open spec fn read_text(m: Merge, text: Seq<u8>) -> Merge {
    read_lines(with_source(m, text_label(m.sources.len() + 1)), Section::Default, lines_of(text))
}

/// The merge after several texts, in order.
pub open spec fn read_texts(m: Merge, parts: Seq<Seq<u8>>) -> Merge
    decreases parts.len(),
{
    if parts.len() == 0 {
        m
    } else {
        read_text(read_texts(m, parts.drop_last()), parts.last())
    }
}

/// Texts may be read in one go or in two.
pub proof fn lemma_texts_split(m: Merge, first: Seq<Seq<u8>>, rest: Seq<Seq<u8>>)
    ensures
        read_texts(m, first + rest) == read_texts(read_texts(m, first), rest),
    decreases rest.len(),
{
    if rest.len() == 0 {
        assert(first + rest =~= first);
    } else {
        assert((first + rest).drop_last() =~= first + rest.drop_last());
        lemma_texts_split(m, first, rest.drop_last());
    }
}

/// Reading lines begins no source.
pub proof fn lemma_lines_keep_sources(m: Merge, section: Section, lines: Seq<Seq<u8>>)
    ensures
        read_lines(m, section, lines).sources == m.sources,
    decreases lines.len(),
{
    if lines.len() > 0 {
        lemma_lines_keep_sources(
            read_line(m, section, lines[0]),
            next_section(section, lines[0]),
            lines.skip(1),
        );
    }
}

/// The section in which lines end.
pub open spec fn last_section(section: Section, lines: Seq<Seq<u8>>) -> Section
    decreases lines.len(),
{
    if lines.len() == 0 {
        section
    } else {
        last_section(next_section(section, lines[0]), lines.skip(1))
    }
}

/// Lines may be read in one go or in two, the second from the section in which the first end.
pub proof fn lemma_lines_split(
    m: Merge,
    section: Section,
    first: Seq<Seq<u8>>,
    rest: Seq<Seq<u8>>,
)
    ensures
        read_lines(m, section, first + rest) == read_lines(
            read_lines(m, section, first),
            last_section(section, first),
            rest,
        ),
    decreases first.len(),
{
    if first.len() == 0 {
        assert(first + rest =~= rest);
    } else {
        assert((first + rest)[0] == first[0]);
        assert((first + rest).skip(1) =~= first.skip(1) + rest);
        lemma_lines_split(
            read_line(m, section, first[0]),
            next_section(section, first[0]),
            first.skip(1),
            rest,
        );
    }
}

impl OverridesBuilder {
    fn apply(&mut self, directive: Directive)
        requires
            old(self).wf(),
        ensures
            final(self).wf(),
            final(self)@ == directed(old(self)@, Some(directive@)),
    {
        match directive {
            Directive::Mesh { key, value } => self.insert_mesh_override(key, value),
            Directive::Object { key, enabled } => self.insert_name(key, enabled),
            Directive::Interior { name, enabled } => self.insert_interior(name, enabled),
            Directive::Vis { key, kind } => self.insert_dynamic_vis(key, kind),
        }
    }

    /// Reads one line of a section and returns the section of the next.
    pub fn read_line(&mut self, section: Section, line: &[u8]) -> (r: Section)
        requires
            old(self).wf(),
        ensures
            final(self).wf(),
            final(self)@ == read_line(old(self)@, section, line@),
            r == next_section(section, line@),
    {
        let escapes: bool = match section {
            Section::Names => true,
            Section::DynamicVis => true,
            _ => false,
        };
        let text = trim(strip_comment(line, escapes));
        if text.len() == 0 {
            return section;
        }
        if text.len() >= 2 && text[0] == OPEN && text[text.len() - 1] == CLOSE {
            let name = trim(slice_subrange(text, 1, text.len() - 1));
            return if same_ignoring_case(name, "names".as_bytes()) {
                Section::Names
            } else if same_ignoring_case(name, "interiors".as_bytes()) {
                Section::Interiors
            } else if same_ignoring_case(name, "dynamic_vis".as_bytes()) {
                Section::DynamicVis
            } else {
                section
            };
        }
        let directive = match section {
            Section::Default => parse_mesh_override(text),
            Section::Names => parse_name_override(text),
            Section::Interiors => parse_interior_override(text),
            Section::DynamicVis => parse_dynamic_vis(text),
        };
        if let Some(directive) = directive {
            self.apply(directive);
        }
        section
    }

    /// Reads the lines of a text.
    pub fn read_override_lines(&mut self, text: &[u8])
        requires
            old(self).wf(),
        ensures
            final(self).wf(),
            final(self)@ == read_lines(old(self)@, Section::Default, lines_of(text@)),
    {
        let count: usize = length(text);
        let mut section = Section::Default;
        let mut start: usize = 0;
        assert(text@.skip(0) =~= text@);
        while start < count
            invariant
                start <= count,
                count == text@.len(),
                self.wf(),
                read_lines(old(self)@, Section::Default, lines_of(text@)) == read_lines(
                    self@,
                    section,
                    lines_of(text@.skip(start as int)),
                ),
            decreases count - start,
        {
            let rest = rest_of(text, start);
            let ghost lines = lines_of(rest@);
            match find_byte(rest, NEWLINE) {
                Some(pos) => {
                    let ghost tail = rest@.skip(pos + 1);
                    proof {
                        assert(lines == seq![without_return(rest@.take(pos as int))] + lines_of(tail));
                        assert(lines.skip(1) =~= lines_of(tail));
                        assert(tail =~= text@.skip(start + pos + 1));
                    }
                    let end: usize = if pos > 0 && rest[pos - 1] == RETURN {
                        pos - 1
                    } else {
                        pos
                    };
                    let line = slice_subrange(rest, 0, end);
                    assert(line@ =~= without_return(rest@.take(pos as int)));
                    section = self.read_line(section, line);
                    start = start + pos + 1;
                },
                None => {
                    proof {
                        assert(lines =~= seq![rest@]);
                        assert(lines.skip(1) =~= lines_of(text@.skip(count as int)));
                    }
                    section = self.read_line(section, rest);
                    start = count;
                },
            }
        }
        assert(lines_of(text@.skip(start as int)) =~= Seq::empty());
    }

    /// Reads an override text as a source of its own.
    pub fn add_override_text(&mut self, text: &[u8])
        requires
            old(self).wf(),
            old(self).sources@.len() < usize::MAX,
        ensures
            final(self).wf(),
            final(self)@ == read_text(old(self)@, text@),
    {
        let count: usize = self.sources.len();
        self.begin_source(label_text(count));
        self.read_override_lines(text);
    }
}

/// Reads override texts in order, each as a source of its own.
pub fn parse_overrides_texts(parts: &[&[u8]]) -> (r: StaticOverrides)
    ensures
        r.wf(),
        r@ == read_texts(empty_merge(), slices(parts@)).overrides,
        tables_in_step(r@),
        forall|i: int|
            0 <= i < r.dynamic_vis.groups@.len() ==> (#[trigger] r.dynamic_vis.groups@[i]).index
                == group_number(i),
{
    let mut builder = OverridesBuilder::new();
    let ghost all = slices(parts@);
    let mut i: usize = 0;
    assert(all.take(0) =~= Seq::empty());
    while i < parts.len()
        invariant
            i <= parts@.len(),
            all == slices(parts@),
            builder.wf(),
            builder@ == read_texts(empty_merge(), all.take(i as int)),
            texts(builder.sources@).len() == i,
        decreases parts@.len() - i,
    {
        let ghost before = builder@;
        builder.add_override_text(parts[i]);
        proof {
            assert(all.take(i + 1).drop_last() =~= all.take(i as int));
            assert(all.take(i + 1).last() == parts@[i as int]@);
            let begun = with_source(before, text_label(before.sources.len() + 1));
            lemma_lines_keep_sources(begun, Section::Default, lines_of(parts@[i as int]@));
            assert(builder@.sources.len() == i + 1);
        }
        i = i + 1;
    }
    proof {
        assert(all.take(i as int) =~= all);
        lemma_texts_keep_tables(all);
    }
    builder.finish()
}

} // verus!
