//! The to-do list store.
//!
//! A `Todolist` owns a mapping from item names to completion flags. Its
//! abstract value (the view) is a `Map<Seq<char>, bool>`; internally it keeps
//! the records as a vector of pairs with pairwise distinct keys, which also
//! fixes the order in which `save` writes them out.

use vstd::prelude::*;

use crate::codec::bool_text;
use crate::codec::clean_entries;
use crate::codec::clean_key;
use crate::codec::find_char;
use crate::codec::first_at;
use crate::codec::lemma_first_at_unique;
use crate::codec::lemma_map_of_contains;
use crate::codec::lemma_map_of_dom_len;
use crate::codec::lemma_map_of_index;
use crate::codec::lemma_map_of_push;
use crate::codec::lemma_map_of_update;
use crate::codec::lemma_parse_lines_none;
use crate::codec::lemma_render_parse_round_trip;
use crate::codec::map_of;
use crate::codec::parse_content;
use crate::codec::parse_line_str;
use crate::codec::parse_lines;
use crate::codec::render_entries;
use crate::codec::render_line;
use crate::codec::split_lines;
use crate::codec::str_eq;
use crate::codec::unique_keys;

verus! {

/// The persisted content did not match the `key<TAB>true|false` line format.
#[derive(Debug, PartialEq, Eq, Structural)]
pub struct ParseError;

/// An in-memory mapping from item names to completion flags.
pub struct Todolist {
    entries: Vec<(String, bool)>,
}

impl View for Todolist {
    type V = Map<Seq<char>, bool>;

    closed spec fn view(&self) -> Map<Seq<char>, bool> {
        map_of(self.entries_view())
    }
}

impl Todolist {
    /// The records as a sequence of (key, flag) pairs, in storage order.
    pub closed spec fn entries_view(self) -> Seq<(Seq<char>, bool)> {
        self.entries@.map_values(|e: (String, bool)| (e.0@, e.1))
    }

    /// None of the stored keys contains a tab or newline character.
    pub open spec fn keys_clean(self) -> bool {
        clean_entries(self.entries_view())
    }

    #[verifier::type_invariant]
    spec fn inv(self) -> bool {
        unique_keys(self.entries_view())
    }

    /// A store with no items.
    pub fn empty() -> (r: Todolist)
        ensures
            r@ == Map::<Seq<char>, bool>::empty(),
            r.entries_view() == Seq::<(Seq<char>, bool)>::empty(),
    {
        let r = Todolist { entries: Vec::new() };
        proof {
            assert(r.entries_view() =~= Seq::<(Seq<char>, bool)>::empty());
        }
        r
    }

    /// Parse a whole persisted content into a store. It succeeds exactly on
    /// well-formed contents: every line `key<TAB>flag` with `flag` the text
    /// `true` or `false`, a later line for a key overwriting an earlier one.
    /// Any malformed line - no tab, or another value text - is rejected.
    #[verifier::loop_isolation(false)]
    pub fn load(content: &str) -> (r: Result<Todolist, ParseError>)
        ensures
            match r {
                Ok(t) => parse_content(content@) == Some(t@) && t.keys_clean(),
                Err(_) => parse_content(content@) is None,
            },
    {
        let n = content.unicode_len();
        let mut t = Todolist::empty();
        let ghost mut done: Seq<Seq<char>> = Seq::empty();
        proof {
            assert(content@.subrange(0, n as int) =~= content@);
            assert(done + split_lines(content@) =~= split_lines(content@));
        }
        let mut pos: usize = 0;
        while pos < n
            invariant
                pos <= n,
                split_lines(content@) == done + split_lines(
                    content@.subrange(pos as int, n as int),
                ),
                parse_lines(done) == Some(t@),
                t.keys_clean(),
            decreases n - pos,
        {
            let rest = content.substring_char(pos, n);
            let ghost restv = content@.subrange(pos as int, n as int);
            let line_end: usize;
            let next_pos: usize;
            match find_char(rest, '\n') {
                Some(i) => {
                    proof {
                        assert(first_at(restv, '\n', i as int));
                        let ci = choose|ci: int| first_at(restv, '\n', ci);
                        lemma_first_at_unique(restv, '\n', ci, i as int);
                        assert(restv.subrange(i as int + 1, restv.len() as int) =~= content@
                            .subrange(pos as int + i + 1, n as int));
                    }
                    line_end = i;
                    next_pos = pos + i + 1;
                },
                None => {
                    proof {
                        if exists|ci: int| first_at(restv, '\n', ci) {
                            let ci = choose|ci: int| first_at(restv, '\n', ci);
                            assert(restv[ci] == '\n');
                        }
                        assert(restv.subrange(0, restv.len() as int) =~= restv);
                        assert(content@.subrange(n as int, n as int) =~= Seq::<char>::empty());
                        assert(seq![restv] + split_lines(content@.subrange(n as int, n as int))
                            =~= seq![restv]);
                    }
                    line_end = rest.unicode_len();
                    next_pos = n;
                },
            }
            proof {
                assert(line_end <= restv.len());
                assert(pos < next_pos <= n);
                assert(split_lines(restv) == seq![restv.subrange(0, line_end as int)]
                    + split_lines(content@.subrange(next_pos as int, n as int)));
                assert(forall|j: int| 0 <= j < line_end ==> restv[j] != '\n');
            }
            let line = rest.substring_char(0, line_end);
            match parse_line_str(line) {
                Some(kv) => {
                    let (k, v) = kv;
                    proof {
                        assert(clean_key(k@)) by {
                            assert forall|j: int| 0 <= j < k@.len() implies k@[j] != '\t' && k@[j]
                                != '\n' by {
                                assert(k@[j] == line@[j]);
                                assert(line@[j] == restv[j]);
                            }
                        }
                    }
                    t.set(k, v);
                    proof {
                        let ghost prev = done;
                        done = done.push(line@);
                        assert(done.drop_last() =~= prev);
                        assert(done.last() == line@);
                        assert(prev + split_lines(restv) =~= done + split_lines(
                            content@.subrange(next_pos as int, n as int),
                        ));
                    }
                },
                None => {
                    proof {
                        let lines = split_lines(content@);
                        assert(lines[done.len() as int] == line@);
                        lemma_parse_lines_none(lines, done.len() as int);
                    }
                    return Err(ParseError);
                },
            }
            pos = next_pos;
        }
        proof {
            assert(content@.subrange(n as int, n as int) =~= Seq::<char>::empty());
            assert(done + split_lines(content@.subrange(n as int, n as int)) =~= done);
        }
        Ok(t)
    }

    /// Set the flag of an item, adding the item if it is absent and
    /// overwriting its flag if it is present.
    #[verifier::loop_isolation(false)]
    pub fn set(&mut self, key: String, value: bool)
        ensures
            final(self)@ == old(self)@.insert(key@, value),
            old(self).keys_clean() && clean_key(key@) ==> final(self).keys_clean(),
    {
        proof {
            use_type_invariant(&*self);
        }
        let ghost old_entries = self.entries_view();
        let mut entries: Vec<(String, bool)> = Vec::new();
        std::mem::swap(&mut entries, &mut self.entries);
        let mut i: usize = 0;
        while i < entries.len()
            invariant
                entries@.map_values(|e: (String, bool)| (e.0@, e.1)) == old_entries,
                i <= entries.len(),
                forall|j: int| 0 <= j < i ==> old_entries[j].0 != key@,
            decreases entries.len() - i,
        {
            if str_eq(entries[i].0.as_str(), key.as_str()) {
                proof {
                    assert(old_entries[i as int].0 == key@);
                    lemma_map_of_update(old_entries, i as int, value);
                }
                entries.set(i, (key, value));
                proof {
                    let updated = old_entries.update(i as int, (key@, value));
                    assert(entries@.map_values(|e: (String, bool)| (e.0@, e.1)) =~= updated);
                    assert(unique_keys(updated)) by {
                        assert forall|p: int, q: int|
                            0 <= p < q < updated.len() implies (#[trigger] updated[p]).0 != (
                        #[trigger] updated[q]).0 by {
                            assert(updated[p].0 == old_entries[p].0 && updated[q].0
                                == old_entries[q].0);
                        }
                    }
                    assert(clean_entries(old_entries) && clean_key(key@) ==> clean_entries(
                        updated,
                    )) by {
                        if clean_entries(old_entries) && clean_key(key@) {
                            assert forall|p: int|
                                0 <= p < updated.len() implies clean_key(
                                #[trigger] updated[p].0,
                            ) by {
                                if p != i {
                                    assert(updated[p].0 == old_entries[p].0);
                                }
                            }
                        }
                    }
                }
                self.entries = entries;
                return ;
            }
            i += 1;
        }
        proof {
            lemma_map_of_push(old_entries, key@, value);
        }
        entries.push((key, value));
        proof {
            let pushed = old_entries.push((key@, value));
            assert(entries@.map_values(|e: (String, bool)| (e.0@, e.1)) =~= pushed);
            assert(unique_keys(pushed)) by {
                assert forall|p: int, q: int|
                    0 <= p < q < pushed.len() implies (#[trigger] pushed[p]).0 != (
                #[trigger] pushed[q]).0 by {
                    if q < pushed.len() - 1 {
                        assert(pushed[p].0 == old_entries[p].0 && pushed[q].0
                            == old_entries[q].0);
                    } else {
                        assert(pushed[p].0 == old_entries[p].0 && old_entries[p].0 != key@);
                    }
                }
            }
            assert(clean_entries(old_entries) && clean_key(key@) ==> clean_entries(pushed)) by {
                if clean_entries(old_entries) && clean_key(key@) {
                    assert forall|p: int| 0 <= p < pushed.len() implies clean_key(
                        #[trigger] pushed[p].0,
                    ) by {
                        if p < pushed.len() - 1 {
                            assert(pushed[p].0 == old_entries[p].0);
                        }
                    }
                }
            }
        }
        self.entries = entries;
    }

    /// Add an item to the list, marking it completed; an item already on the
    /// list keeps a single record, whose flag becomes true.
    pub fn insert(&mut self, key: String)
        ensures
            final(self)@ == old(self)@.insert(key@, true),
            old(self).keys_clean() && clean_key(key@) ==> final(self).keys_clean(),
    {
        self.set(key, true);
    }

    /// The flag of an item, or nothing if the item is not on the list.
    #[verifier::loop_isolation(false)]
    pub fn get(&self, key: &str) -> (r: Option<bool>)
        ensures
            r == if self@.contains_key(key@) {
                Some(self@[key@])
            } else {
                None::<bool>
            },
    {
        proof {
            use_type_invariant(&*self);
        }
        let ghost entries = self.entries_view();
        let mut i: usize = 0;
        while i < self.entries.len()
            invariant
                i <= self.entries.len(),
                forall|j: int| 0 <= j < i ==> entries[j].0 != key@,
            decreases self.entries.len() - i,
        {
            if str_eq(self.entries[i].0.as_str(), key) {
                proof {
                    assert(entries[i as int].0 == key@);
                    lemma_map_of_index(entries, i as int);
                }
                return Some(self.entries[i].1);
            }
            i += 1;
        }
        proof {
            lemma_map_of_contains(entries, key@);
        }
        None
    }

    /// The number of items on the list.
    pub fn len(&self) -> (r: usize)
        ensures
            r == self@.dom().len(),
    {
        proof {
            use_type_invariant(&*self);
            lemma_map_of_dom_len(self.entries_view());
        }
        self.entries.len()
    }

    /// Serialize the whole list, one `key<TAB>flag` line per item, in
    /// storage order. The records have pairwise distinct keys and denote
    /// exactly the list's mapping, so the output holds one line per mapping
    /// entry, none missing, none extra. Saving consumes the list, so no later
    /// mutation can be mistaken for part of what was serialized.
    #[verifier::loop_isolation(false)]
    pub fn save(self) -> (r: String)
        ensures
            r@ == render_entries(self.entries_view()),
            unique_keys(self.entries_view()),
            map_of(self.entries_view()) == self@,
            self.keys_clean() ==> parse_content(r@) == Some(self@),
    {
        proof {
            use_type_invariant(&self);
            if self.keys_clean() {
                lemma_render_parse_round_trip(self.entries_view());
            }
        }
        let ghost ev = self.entries_view();
        let mut content = String::new();
        proof {
            assert(ev.skip(0) =~= ev);
            assert(content@ + render_entries(ev) =~= render_entries(ev));
        }
        let mut i: usize = 0;
        while i < self.entries.len()
            invariant
                i <= self.entries.len(),
                content@ + render_entries(ev.skip(i as int)) == render_entries(ev),
            decreases self.entries.len() - i,
        {
            let ghost before = content@;
            content.append(self.entries[i].0.as_str());
            content.append("\t");
            if self.entries[i].1 {
                content.append("true");
            } else {
                content.append("false");
            }
            content.append("\n");
            proof {
                reveal_strlit("\t");
                reveal_strlit("\n");
                reveal_strlit("true");
                reveal_strlit("false");
                assert("\t"@ =~= seq!['\t']);
                assert("\n"@ =~= seq!['\n']);
                assert("true"@ =~= bool_text(true));
                assert("false"@ =~= bool_text(false));
                let s = ev.skip(i as int);
                assert(s[0] == ev[i as int]);
                assert(s.drop_first() =~= ev.skip(i as int + 1));
                assert(content@ =~= before + render_line(ev[i as int].0, ev[i as int].1));
                assert(content@ + render_entries(ev.skip(i as int + 1)) =~= before
                    + render_entries(ev.skip(i as int)));
            }
            i += 1;
        }
        proof {
            assert(ev.skip(ev.len() as int) =~= Seq::<(Seq<char>, bool)>::empty());
            assert(content@ + render_entries(ev.skip(ev.len() as int)) =~= content@);
        }
        content
    }

    /// Whether the list has no items.
    pub fn is_empty(&self) -> (r: bool)
        ensures
            r == (self@ == Map::<Seq<char>, bool>::empty()),
    {
        proof {
            use_type_invariant(&*self);
            let entries = self.entries_view();
            if entries.len() > 0 {
                lemma_map_of_index(entries, entries.len() - 1);
                assert(self@ != Map::<Seq<char>, bool>::empty());
            } else {
                assert(self@ =~= Map::<Seq<char>, bool>::empty());
            }
        }
        self.entries.len() == 0
    }

    /// Apply one command to the list: the action `add` inserts the item with
    /// flag true and asks the caller to persist the list; any other action
    /// leaves the list untouched and asks the caller not to persist it, so
    /// that an unrecognized action never destroys saved data.
    pub fn apply_action(&mut self, action: &str, item: String) -> (persist: bool)
        ensures
            persist == (action@ == "add"@),
            persist ==> final(self)@ == old(self)@.insert(item@, true),
            !persist ==> *final(self) == *old(self),
            old(self).keys_clean() && clean_key(item@) ==> final(self).keys_clean(),
    {
        if str_eq(action, "add") {
            self.insert(item);
            true
        } else {
            false
        }
    }
}

/// Round trip law: parsing the content that `save` returns for a store whose
/// keys are free of tab and newline yields exactly the saved mapping, so a
/// `load` of that content succeeds and returns an equal store view.
pub proof fn lemma_save_load_round_trip(t: Todolist)
    requires
        t.keys_clean(),
    ensures
        parse_content(render_entries(t.entries_view())) == Some(t@),
{
    lemma_render_parse_round_trip(t.entries_view());
}

/// Insert idempotence law: inserting the same key twice in succession leaves
/// the same single binding for that key, with flag true, as inserting it once.
pub proof fn lemma_insert_idempotent(m: Map<Seq<char>, bool>, key: Seq<char>)
    ensures
        m.insert(key, true).insert(key, true) == m.insert(key, true),
        m.insert(key, true)[key] == true,
{
    assert(m.insert(key, true).insert(key, true) =~= m.insert(key, true));
}

} // verus!
