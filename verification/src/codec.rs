//! The flat text format of the store.
//!
//! A serialized store is a sequence of lines, each `key<TAB>flag` followed by
//! a newline, where `flag` is the literal text `true` or `false`. The spec
//! functions here define, over sequences of characters, what a well-formed
//! content is and which mapping it denotes; the executable functions parse
//! single lines and are verified against that model.

use vstd::prelude::*;

verus! {

/// The text that a completion flag renders as.
pub open spec fn bool_text(v: bool) -> Seq<char> {
    if v {
        seq!['t', 'r', 'u', 'e']
    } else {
        seq!['f', 'a', 'l', 's', 'e']
    }
}

/// `i` is the position of the first occurrence of `c` in `s`.
pub open spec fn first_at(s: Seq<char>, c: char, i: int) -> bool {
    &&& 0 <= i < s.len()
    &&& s[i] == c
    &&& forall|j: int| 0 <= j < i ==> s[j] != c
}

/// A key that the format can carry: no separator and no line break.
pub open spec fn clean_key(key: Seq<char>) -> bool {
    forall|j: int| 0 <= j < key.len() ==> key[j] != '\t' && key[j] != '\n'
}

/// All keys of an entry sequence are clean.
pub open spec fn clean_entries(entries: Seq<(Seq<char>, bool)>) -> bool {
    forall|i: int| 0 <= i < entries.len() ==> clean_key(#[trigger] entries[i].0)
}

/// No two entries share a key.
pub open spec fn unique_keys(entries: Seq<(Seq<char>, bool)>) -> bool {
    forall|i: int, j: int|
        0 <= i < j < entries.len() ==> (#[trigger] entries[i]).0 != (#[trigger] entries[j]).0
}

/// What a single line (without its newline) denotes: the key before the
/// first tab and the flag after it, or nothing if there is no tab or the
/// value field is not exactly `true` or `false`.
pub open spec fn parse_line(line: Seq<char>) -> Option<(Seq<char>, bool)> {
    if exists|i: int| first_at(line, '\t', i) {
        let i = choose|i: int| first_at(line, '\t', i);
        let value = line.subrange(i + 1, line.len() as int);
        if value == bool_text(true) {
            Some((line.subrange(0, i), true))
        } else if value == bool_text(false) {
            Some((line.subrange(0, i), false))
        } else {
            None
        }
    } else {
        None
    }
}

/// The lines of a content: split on every newline character, with a final
/// segment only if it is non-empty (a trailing newline adds no empty line).
pub open spec fn split_lines(s: Seq<char>) -> Seq<Seq<char>>
    decreases s.len(),
{
    if s.len() == 0 {
        Seq::empty()
    } else if exists|i: int| first_at(s, '\n', i) {
        let i = choose|i: int| first_at(s, '\n', i);
        seq![s.subrange(0, i)] + split_lines(s.subrange(i + 1, s.len() as int))
    } else {
        seq![s]
    }
}

/// The mapping denoted by a sequence of lines: every line must parse, and a
/// later line for the same key overwrites an earlier one.
pub open spec fn parse_lines(lines: Seq<Seq<char>>) -> Option<Map<Seq<char>, bool>>
    decreases lines.len(),
{
    if lines.len() == 0 {
        Some(Map::empty())
    } else {
        match (parse_lines(lines.drop_last()), parse_line(lines.last())) {
            (Some(m), Some(kv)) => Some(m.insert(kv.0, kv.1)),
            _ => None,
        }
    }
}

/// The mapping denoted by a whole content, if it is well formed.
pub open spec fn parse_content(s: Seq<char>) -> Option<Map<Seq<char>, bool>> {
    parse_lines(split_lines(s))
}

/// One record line, without its terminating newline.
pub open spec fn line_of(key: Seq<char>, v: bool) -> Seq<char> {
    key + seq!['\t'] + bool_text(v)
}

/// One record line, newline-terminated.
pub open spec fn render_line(key: Seq<char>, v: bool) -> Seq<char> {
    line_of(key, v) + seq!['\n']
}

/// The serialized form of an entry sequence: its record lines in order.
pub open spec fn render_entries(entries: Seq<(Seq<char>, bool)>) -> Seq<char>
    decreases entries.len(),
{
    if entries.len() == 0 {
        Seq::empty()
    } else {
        render_line(entries[0].0, entries[0].1) + render_entries(entries.drop_first())
    }
}

/// The record line of one entry, without its newline.
pub open spec fn line_of_entry(e: (Seq<char>, bool)) -> Seq<char> {
    line_of(e.0, e.1)
}

/// The record lines of an entry sequence, in order, without their newlines.
pub open spec fn lines_of(entries: Seq<(Seq<char>, bool)>) -> Seq<Seq<char>> {
    entries.map_values(|e: (Seq<char>, bool)| line_of_entry(e))
}

/// The mapping that an entry sequence denotes, a later entry for a key
/// overwriting an earlier one.
pub open spec fn map_of(entries: Seq<(Seq<char>, bool)>) -> Map<Seq<char>, bool>
    decreases entries.len(),
{
    if entries.len() == 0 {
        Map::empty()
    } else {
        map_of(entries.drop_last()).insert(entries.last().0, entries.last().1)
    }
}

/// A character has at most one first occurrence.
pub proof fn lemma_first_at_unique(s: Seq<char>, c: char, i: int, j: int)
    requires
        first_at(s, c, i),
        first_at(s, c, j),
    ensures
        i == j,
{
    if i < j {
        assert(s[i] != c);
    }
    if j < i {
        assert(s[j] != c);
    }
}

/// The flag texts contain neither tab nor newline, and differ from each other.
pub proof fn lemma_bool_text_clean(v: bool)
    ensures
        clean_key(bool_text(v)),
        bool_text(true) != bool_text(false),
{
    assert(bool_text(true).len() != bool_text(false).len());
}

/// Key uniqueness passes to the entries without their last.
proof fn lemma_unique_keys_drop_last(entries: Seq<(Seq<char>, bool)>)
    requires
        unique_keys(entries),
        entries.len() > 0,
    ensures
        unique_keys(entries.drop_last()),
{
    let front = entries.drop_last();
    assert forall|p: int, q: int|
        0 <= p < q < front.len() implies (#[trigger] front[p]).0 != (#[trigger] front[q]).0 by {
        assert(front[p] == entries[p] && front[q] == entries[q]);
    }
}

/// Key cleanliness passes to the entries without their last.
proof fn lemma_clean_entries_drop_last(entries: Seq<(Seq<char>, bool)>)
    requires
        clean_entries(entries),
        entries.len() > 0,
    ensures
        clean_entries(entries.drop_last()),
{
    let front = entries.drop_last();
    assert forall|i: int| 0 <= i < front.len() implies clean_key((#[trigger] front[i]).0) by {
        assert(front[i] == entries[i]);
    }
}

/// Key cleanliness passes to the entries without their first.
proof fn lemma_clean_entries_drop_first(entries: Seq<(Seq<char>, bool)>)
    requires
        clean_entries(entries),
        entries.len() > 0,
    ensures
        clean_entries(entries.drop_first()),
{
    let rest = entries.drop_first();
    assert forall|i: int| 0 <= i < rest.len() implies clean_key((#[trigger] rest[i]).0) by {
        assert(rest[i] == entries[i + 1]);
    }
}

/// Appending an entry denotes one more insertion.
pub proof fn lemma_map_of_push(entries: Seq<(Seq<char>, bool)>, key: Seq<char>, v: bool)
    ensures
        map_of(entries.push((key, v))) == map_of(entries).insert(key, v),
{
    let pushed = entries.push((key, v));
    assert(pushed.drop_last() =~= entries);
    assert(pushed.last() == (key, v));
}

/// A mapping contains exactly the keys of its entries.
pub proof fn lemma_map_of_contains(entries: Seq<(Seq<char>, bool)>, key: Seq<char>)
    ensures
        map_of(entries).contains_key(key) <==> exists|i: int|
            0 <= i < entries.len() && (#[trigger] entries[i]).0 == key,
    decreases entries.len(),
{
    if entries.len() > 0 {
        lemma_map_of_contains(entries.drop_last(), key);
        let front = entries.drop_last();
        if entries.last().0 == key {
            assert(entries[entries.len() - 1].0 == key);
        } else if map_of(entries).contains_key(key) {
            let i = choose|i: int| 0 <= i < front.len() && (#[trigger] front[i]).0 == key;
            assert(entries[i].0 == key);
        } else {
            assert forall|i: int| 0 <= i < entries.len() implies (#[trigger] entries[i]).0 != key by {
                if i < entries.len() - 1 {
                    assert(front[i] == entries[i]);
                }
            }
        }
    }
}

/// With unique keys, each entry gives the value of its key in the mapping.
pub proof fn lemma_map_of_index(entries: Seq<(Seq<char>, bool)>, i: int)
    requires
        unique_keys(entries),
        0 <= i < entries.len(),
    ensures
        map_of(entries).contains_key(entries[i].0),
        map_of(entries)[entries[i].0] == entries[i].1,
    decreases entries.len(),
{
    let front = entries.drop_last();
    if i == entries.len() - 1 {
        assert(entries.last() == entries[i]);
    } else {
        assert(front[i] == entries[i]);
        lemma_unique_keys_drop_last(entries);
        lemma_map_of_index(front, i);
        assert(entries[i].0 != entries.last().0);
    }
}

/// Replacing the flag of an existing entry denotes an insertion for its key.
pub proof fn lemma_map_of_update(entries: Seq<(Seq<char>, bool)>, i: int, v: bool)
    requires
        unique_keys(entries),
        0 <= i < entries.len(),
    ensures
        map_of(entries.update(i, (entries[i].0, v))) == map_of(entries).insert(entries[i].0, v),
    decreases entries.len(),
{
    let key = entries[i].0;
    let updated = entries.update(i, (key, v));
    let front = entries.drop_last();
    if i == entries.len() - 1 {
        assert(updated.drop_last() =~= front);
        assert(map_of(updated) == map_of(front).insert(key, v));
        assert(map_of(front).insert(key, entries.last().1).insert(key, v) =~= map_of(
            front,
        ).insert(key, v));
    } else {
        lemma_unique_keys_drop_last(entries);
        assert(front[i] == entries[i]);
        lemma_map_of_update(front, i, v);
        assert(updated.drop_last() =~= front.update(i, (key, v)));
        assert(updated.last() == entries.last());
        let last = entries.last();
        assert(key != last.0);
        assert(map_of(front).insert(key, v).insert(last.0, last.1) =~= map_of(front).insert(
            last.0,
            last.1,
        ).insert(key, v));
    }
}

/// Character-for-character equality of two string slices.
pub fn str_eq(a: &str, b: &str) -> (r: bool)
    ensures
        r == (a@ == b@),
{
    let na = a.unicode_len();
    let nb = b.unicode_len();
    if na != nb {
        return false;
    }
    let mut i: usize = 0;
    while i < na
        invariant
            na == a@.len(),
            na == b@.len(),
            i <= na,
            forall|j: int| 0 <= j < i ==> a@[j] == b@[j],
        decreases na - i,
    {
        if a.get_char(i) != b.get_char(i) {
            return false;
        }
        i += 1;
    }
    proof {
        assert(a@ =~= b@);
    }
    true
}

/// The position of the first occurrence of a character, if it occurs.
#[verifier::loop_isolation(false)]
pub fn find_char(s: &str, c: char) -> (r: Option<usize>)
    ensures
        match r {
            Some(i) => first_at(s@, c, i as int),
            None => forall|j: int| 0 <= j < s@.len() ==> s@[j] != c,
        },
{
    let n = s.unicode_len();
    let mut i: usize = 0;
    while i < n
        invariant
            i <= n,
            forall|j: int| 0 <= j < i ==> s@[j] != c,
        decreases n - i,
    {
        if s.get_char(i) == c {
            return Some(i);
        }
        i += 1;
    }
    None
}

/// Parse one line (without its newline) into a key and a flag, exactly as
/// `parse_line` denotes; the returned key is a tab-free prefix of the line.
pub fn parse_line_str(line: &str) -> (r: Option<(String, bool)>)
    ensures
        match r {
            Some(kv) => {
                &&& parse_line(line@) == Some((kv.0@, kv.1))
                &&& kv.0@.len() <= line@.len()
                &&& forall|j: int|
                    0 <= j < kv.0@.len() ==> kv.0@[j] == line@[j] && kv.0@[j] != '\t'
            },
            None => parse_line(line@) is None,
        },
{
    let n = line.unicode_len();
    match find_char(line, '\t') {
        Some(i) => {
            let keypart = line.substring_char(0, i);
            let valpart = line.substring_char(i + 1, n);
            let is_true = str_eq(valpart, "true");
            let is_false = str_eq(valpart, "false");
            proof {
                reveal_strlit("true");
                reveal_strlit("false");
                assert("true"@ =~= bool_text(true));
                assert("false"@ =~= bool_text(false));
                assert(first_at(line@, '\t', i as int));
                let ci = choose|ci: int| first_at(line@, '\t', ci);
                lemma_first_at_unique(line@, '\t', ci, i as int);
            }
            if is_true {
                Some((keypart.to_owned(), true))
            } else if is_false {
                Some((keypart.to_owned(), false))
            } else {
                None
            }
        },
        None => {
            proof {
                if exists|ci: int| first_at(line@, '\t', ci) {
                    let ci = choose|ci: int| first_at(line@, '\t', ci);
                    assert(line@[ci] == '\t');
                }
            }
            None
        },
    }
}

/// Parsing recovers the key and flag of one rendered record line.
pub proof fn lemma_parse_line_of(key: Seq<char>, v: bool)
    requires
        clean_key(key),
    ensures
        parse_line(line_of(key, v)) == Some((key, v)),
{
    lemma_bool_text_clean(v);
    let line = line_of(key, v);
    let p = key.len() as int;
    assert(line[p] == '\t');
    assert forall|j: int| 0 <= j < p implies line[j] != '\t' by {
        assert(line[j] == key[j]);
    }
    assert(first_at(line, '\t', p));
    let ci = choose|ci: int| first_at(line, '\t', ci);
    lemma_first_at_unique(line, '\t', ci, p);
    assert(line.subrange(0, p) =~= key);
    assert(line.subrange(p + 1, line.len() as int) =~= bool_text(v));
}

/// Splitting a rendered entry sequence yields exactly its record lines.
pub proof fn lemma_split_render(entries: Seq<(Seq<char>, bool)>)
    requires
        clean_entries(entries),
    ensures
        split_lines(render_entries(entries)) == lines_of(entries),
    decreases entries.len(),
{
    if entries.len() == 0 {
        assert(split_lines(render_entries(entries)) =~= lines_of(entries));
    } else {
        let e0 = entries[0];
        let rest = entries.drop_first();
        let s = render_entries(entries);
        let l0 = line_of(e0.0, e0.1);
        let p = l0.len() as int;
        lemma_bool_text_clean(e0.1);
        assert(clean_key(e0.0));
        assert(s[p] == '\n');
        assert forall|j: int| 0 <= j < p implies s[j] != '\n' by {
            assert(s[j] == l0[j]);
            if j < e0.0.len() {
                assert(l0[j] == e0.0[j]);
            } else if j > e0.0.len() {
                assert(l0[j] == bool_text(e0.1)[j - e0.0.len() - 1]);
            }
        }
        assert(first_at(s, '\n', p));
        let ci = choose|ci: int| first_at(s, '\n', ci);
        lemma_first_at_unique(s, '\n', ci, p);
        assert(s.subrange(0, p) =~= l0);
        assert(s.subrange(p + 1, s.len() as int) =~= render_entries(rest));
        lemma_clean_entries_drop_first(entries);
        lemma_split_render(rest);
        assert(lines_of(entries) =~= seq![l0] + lines_of(rest));
    }
}

/// Parsing the record lines of an entry sequence rebuilds its mapping.
pub proof fn lemma_parse_lines_of(entries: Seq<(Seq<char>, bool)>)
    requires
        clean_entries(entries),
    ensures
        parse_lines(lines_of(entries)) == Some(map_of(entries)),
    decreases entries.len(),
{
    if entries.len() == 0 {
        assert(lines_of(entries) =~= Seq::<Seq<char>>::empty());
    } else {
        let front = entries.drop_last();
        lemma_clean_entries_drop_last(entries);
        lemma_parse_lines_of(front);
        let lines = lines_of(entries);
        assert(lines.drop_last() =~= lines_of(front));
        assert(lines.last() == line_of_entry(entries.last()));
        assert(clean_key(entries.last().0)) by {
            assert(entries[entries.len() - 1] == entries.last());
        }
        lemma_parse_line_of(entries.last().0, entries.last().1);
    }
}

/// Round trip: for entries whose keys are free of tab and newline, parsing
/// their rendering yields exactly the mapping they denote.
pub proof fn lemma_render_parse_round_trip(entries: Seq<(Seq<char>, bool)>)
    requires
        clean_entries(entries),
    ensures
        parse_content(render_entries(entries)) == Some(map_of(entries)),
{
    lemma_split_render(entries);
    lemma_parse_lines_of(entries);
}

/// One unparsable line spoils a whole sequence of lines.
pub proof fn lemma_parse_lines_none(lines: Seq<Seq<char>>, i: int)
    requires
        0 <= i < lines.len(),
        parse_line(lines[i]) is None,
    ensures
        parse_lines(lines) is None,
    decreases lines.len(),
{
    if i == lines.len() - 1 {
        assert(lines.last() == lines[i]);
    } else {
        let front = lines.drop_last();
        assert(front[i] == lines[i]);
        lemma_parse_lines_none(front, i);
    }
}

/// With unique keys, the mapping has exactly one member per entry.
pub proof fn lemma_map_of_dom_len(entries: Seq<(Seq<char>, bool)>)
    requires
        unique_keys(entries),
    ensures
        map_of(entries).dom().finite(),
        map_of(entries).dom().len() == entries.len(),
    decreases entries.len(),
{
    if entries.len() > 0 {
        let front = entries.drop_last();
        lemma_unique_keys_drop_last(entries);
        lemma_map_of_dom_len(front);
        lemma_map_of_contains(front, entries.last().0);
        assert forall|i: int|
            0 <= i < front.len() implies (#[trigger] front[i]).0 != entries.last().0 by {
            assert(front[i] == entries[i]);
        }
        assert(!map_of(front).dom().contains(entries.last().0));
        assert(map_of(entries).dom() =~= map_of(front).dom().insert(entries.last().0));
    }
}

} // verus!
