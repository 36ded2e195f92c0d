//! The indexed reader: every event of a parse, kept for case-insensitive lookup.

use vstd::prelude::*;

use crate::error::IniParseError;
use crate::number::{parse_signed, parse_unsigned, signed_value, unsigned_value};
use crate::order::{insert_sorted, lemma_sorted_unique, same, sorted};
use crate::parser::{
    collect_events, default_options, fault_matches, lines_of, scan, split_lines, string_views,
    LineEvent, OptionsView, ParseOptions,
};
use crate::text::{chars_of, dup, lower_of, lowercase, text_of, views};

verus! {

/// The lookup key of a section and a name: both in lower case.
pub open spec fn key_of(section: Seq<char>, name: Seq<char>) -> (Seq<char>, Seq<char>) {
    (lower_of(section), lower_of(name))
}

/// What a reader holds: values by lookup key, and the (lower-case) sections seen.
pub struct Index {
    pub values: Map<(Seq<char>, Seq<char>), Seq<char>>,
    pub sections: Set<Seq<char>>,
}

/// `ix` after one event: a non-empty section is registered; an event with a
/// name stores its value, appended after a newline to a value already there.
pub open spec fn absorb(ix: Index, section: Seq<char>, name: Seq<char>, value: Seq<char>) -> Index {
    let sections = if section.len() > 0 {
        ix.sections.insert(lower_of(section))
    } else {
        ix.sections
    };
    let k = key_of(section, name);
    let values = if name.len() == 0 {
        ix.values
    } else if ix.values.contains_key(k) {
        ix.values.insert(k, ix.values[k] + seq!['\n'] + value)
    } else {
        ix.values.insert(k, value)
    };
    Index { values, sections }
}

/// The index built from `events`, in order.
pub open spec fn indexed(events: Seq<LineEvent>) -> Index
    decreases events.len(),
{
    if events.len() == 0 {
        Index { values: Map::empty(), sections: Set::empty() }
    } else {
        let e = events.last();
        absorb(indexed(events.drop_last()), e.section, e.name, e.value)
    }
}

/// The raw value under `section` and `name`, or `default`.
pub open spec fn lookup(m: Map<(Seq<char>, Seq<char>), Seq<char>>, section: Seq<char>, name: Seq<char>, default: Seq<char>) -> Seq<char> {
    if m.contains_key(key_of(section, name)) {
        m[key_of(section, name)]
    } else {
        default
    }
}

/// The words read as true, once in lower case.
pub open spec fn true_word(s: Seq<char>) -> bool {
    s == "true"@ || s == "yes"@ || s == "on"@ || s == "1"@
}

/// The words read as false, once in lower case.
pub open spec fn false_word(s: Seq<char>) -> bool {
    s == "false"@ || s == "no"@ || s == "off"@ || s == "0"@
}

/// A text read as a boolean, ignoring case; anything else gives `default`.
pub open spec fn boolean_value(raw: Seq<char>, default: bool) -> bool {
    if true_word(lower_of(raw)) {
        true
    } else if false_word(lower_of(raw)) {
        false
    } else {
        default
    }
}

/// A text read as a signed integer: `0x` or `0X` and hexadecimal digits first,
/// then decimal; when neither reads, `default`.
pub open spec fn integer_value(raw: Seq<char>, default: i64) -> i64 {
    let hex = if raw.len() >= 2 && raw[0] == '0' && (raw[1] == 'x' || raw[1] == 'X') {
        signed_value(raw.skip(2), 16)
    } else {
        None
    };
    match hex {
        Some(v) => v as i64,
        None => match signed_value(raw, 10) {
            Some(v) => v as i64,
            None => default,
        },
    }
}

/// A text read as an unsigned decimal integer, or `default`.
pub open spec fn unsigned_or(raw: Seq<char>, default: u64) -> u64 {
    match unsigned_value(raw) {
        Some(v) => v as u64,
        None => default,
    }
}

/// An empty string.
fn empty() -> (r: &'static str)
    ensures
        r@ == Seq::<char>::empty(),
{
    proof {
        reveal_strlit("");
    }
    ""
}

/// The values declared under lookup key `k`, in order: one per event with a
/// name whose key is `k`.
pub open spec fn declared(events: Seq<LineEvent>, k: (Seq<char>, Seq<char>)) -> Seq<Seq<char>>
    decreases events.len(),
{
    if events.len() == 0 {
        seq![]
    } else {
        let e = events.last();
        let before = declared(events.drop_last(), k);
        if e.name.len() > 0 && key_of(e.section, e.name) == k {
            before.push(e.value)
        } else {
            before
        }
    }
}

/// Texts joined by single newlines, in order.
pub open spec fn join_lines(vs: Seq<Seq<char>>) -> Seq<char>
    decreases vs.len(),
{
    if vs.len() <= 1 {
        if vs.len() == 1 {
            vs[0]
        } else {
            seq![]
        }
    } else {
        join_lines(vs.drop_last()) + seq!['\n'] + vs.last()
    }
}

/// The value under a key is every value declared under it (by a repeated key or
/// a continuation line), joined by newlines in declaration order; a key is
/// present exactly when something was declared under it.
pub proof fn lemma_index_values(events: Seq<LineEvent>, k: (Seq<char>, Seq<char>))
    ensures
        indexed(events).values.contains_key(k) == (declared(events, k).len() > 0),
        indexed(events).values.contains_key(k) ==> indexed(events).values[k] == join_lines(declared(events, k)),
    decreases events.len(),
{
    if events.len() > 0 {
        lemma_index_values(events.drop_last(), k);
        let e = events.last();
        let before = declared(events.drop_last(), k);
        if e.name.len() > 0 && key_of(e.section, e.name) == k {
            let now = before.push(e.value);
            assert(now.drop_last() =~= before);
            if before.len() == 0 {
                assert(join_lines(now) == e.value);
            }
        }
    }
}

/// Round trip: a key declared once reads back as exactly the value of its
/// declaration, whatever default is asked for.
pub proof fn lemma_round_trip(events: Seq<LineEvent>, i: int, default: Seq<char>)
    requires
        0 <= i < events.len(),
        events[i].name.len() > 0,
        forall|j: int|
            0 <= j < events.len() && j != i && events[j].name.len() > 0 ==> key_of(events[j].section, events[j].name)
                != key_of(events[i].section, events[i].name),
    ensures
        lookup(indexed(events).values, events[i].section, events[i].name, default) == events[i].value,
{
    let k = key_of(events[i].section, events[i].name);
    lemma_declared_once(events, i, k);
    lemma_index_values(events, k);
}

proof fn lemma_declared_once(events: Seq<LineEvent>, i: int, k: (Seq<char>, Seq<char>))
    requires
        0 <= i < events.len(),
        events[i].name.len() > 0,
        k == key_of(events[i].section, events[i].name),
        forall|j: int|
            0 <= j < events.len() && j != i && events[j].name.len() > 0 ==> key_of(events[j].section, events[j].name)
                != k,
    ensures
        declared(events, k) == seq![events[i].value],
    decreases events.len(),
{
    let n = events.len() - 1;
    if i < n {
        lemma_declared_once(events.drop_last(), i, k);
    } else {
        lemma_declared_none(events.drop_last(), k);
        assert(declared(events.drop_last(), k).push(events[i].value) =~= seq![events[i].value]);
    }
}

proof fn lemma_declared_none(events: Seq<LineEvent>, k: (Seq<char>, Seq<char>))
    requires
        forall|j: int|
            0 <= j < events.len() && events[j].name.len() > 0 ==> key_of(events[j].section, events[j].name) != k,
    ensures
        declared(events, k) == Seq::<Seq<char>>::empty(),
    decreases events.len(),
{
    if events.len() > 0 {
        lemma_declared_none(events.drop_last(), k);
    }
}

/// Concatenation: a key declared exactly twice holds the first value, a
/// newline, then the second.
pub proof fn lemma_two_declarations(events: Seq<LineEvent>, i: int, j: int, default: Seq<char>)
    requires
        0 <= i < j < events.len(),
        events[i].name.len() > 0,
        events[j].name.len() > 0,
        key_of(events[i].section, events[i].name) == key_of(events[j].section, events[j].name),
        forall|m: int|
            0 <= m < events.len() && m != i && m != j && events[m].name.len() > 0 ==> key_of(
                events[m].section,
                events[m].name,
            ) != key_of(events[i].section, events[i].name),
    ensures
        lookup(indexed(events).values, events[i].section, events[i].name, default) == events[i].value + seq!['\n']
            + events[j].value,
{
    let k = key_of(events[i].section, events[i].name);
    lemma_declared_twice(events, i, j, k);
    lemma_index_values(events, k);
    let d = seq![events[i].value, events[j].value];
    assert(d.drop_last() =~= seq![events[i].value]);
    assert(join_lines(d.drop_last()) == events[i].value);
    assert(join_lines(d) == events[i].value + seq!['\n'] + events[j].value);
}

proof fn lemma_declared_twice(events: Seq<LineEvent>, i: int, j: int, k: (Seq<char>, Seq<char>))
    requires
        0 <= i < j < events.len(),
        events[i].name.len() > 0,
        events[j].name.len() > 0,
        k == key_of(events[i].section, events[i].name),
        k == key_of(events[j].section, events[j].name),
        forall|m: int|
            0 <= m < events.len() && m != i && m != j && events[m].name.len() > 0 ==> key_of(
                events[m].section,
                events[m].name,
            ) != k,
    ensures
        declared(events, k) == seq![events[i].value, events[j].value],
    decreases events.len(),
{
    let n = events.len() - 1;
    if j < n {
        lemma_declared_twice(events.drop_last(), i, j, k);
    } else {
        lemma_declared_once(events.drop_last(), i, k);
        assert(declared(events.drop_last(), k).push(events[j].value) =~= seq![events[i].value, events[j].value]);
    }
}

/// Idempotence: two readers built from the same text with the same options
/// hold the same sections, keys and values, so every lookup agrees, and the
/// sorted section and key lists (as `sections` and `keys` return them) are equal.
pub proof fn lemma_same_input_same_reader(a: IniReader, b: IniReader, data: Seq<char>, o: OptionsView)
    requires
        a.index() == indexed(scan(lines_of(data), o).events),
        b.index() == indexed(scan(lines_of(data), o).events),
    ensures
        a.value_map() == b.value_map(),
        a.section_set() == b.section_set(),
        forall|s: Seq<char>, n: Seq<char>, d: Seq<char>|
            lookup(a.value_map(), s, n, d) == #[trigger] lookup(b.value_map(), s, n, d),
        forall|x: Seq<Seq<char>>, y: Seq<Seq<char>>|
            #![trigger sorted(x), sorted(y)]
            sorted(x) && sorted(y) && x.to_set() == a.section_set() && y.to_set() == b.section_set()
                ==> x == y,
        forall|s: Seq<char>, x: Seq<Seq<char>>, y: Seq<Seq<char>>|
            #![trigger sorted(x), sorted(y), lower_of(s)]
            sorted(x) && sorted(y) && x.to_set() == Set::new(|n: Seq<char>| a.value_map().contains_key((lower_of(s), n)))
                && y.to_set() == Set::new(
                |n: Seq<char>| b.value_map().contains_key((lower_of(s), n)),
            ) ==> x == y,
{
    assert forall|x: Seq<Seq<char>>, y: Seq<Seq<char>>|
        #![trigger sorted(x), sorted(y)]
        sorted(x) && sorted(y) && x.to_set() == a.section_set() && y.to_set() == b.section_set()
            implies x == y by {
        lemma_sorted_unique(x, y);
    }
    assert forall|s: Seq<char>, x: Seq<Seq<char>>, y: Seq<Seq<char>>|
        #![trigger sorted(x), sorted(y), lower_of(s)]
        sorted(x) && sorted(y) && x.to_set() == Set::new(|n: Seq<char>| a.value_map().contains_key((lower_of(s), n)))
            && y.to_set() == Set::new(
            |n: Seq<char>| b.value_map().contains_key((lower_of(s), n)),
        ) implies x == y by {
        lemma_sorted_unique(x, y);
    }
}

/// Case-insensitivity: names that agree once in lower case find the same value.
pub proof fn lemma_case_insensitive(
    m: Map<(Seq<char>, Seq<char>), Seq<char>>,
    s1: Seq<char>,
    n1: Seq<char>,
    s2: Seq<char>,
    n2: Seq<char>,
    default: Seq<char>,
)
    requires
        lower_of(s1) == lower_of(s2),
        lower_of(n1) == lower_of(n2),
    ensures
        lookup(m, s1, n1, default) == lookup(m, s2, n2, default),
{
}

struct Entry {
    section: Vec<char>,
    name: Vec<char>,
    value: Vec<char>,
}

/// Entries with distinct keys, holding exactly the values of `values`.
spec fn entries_wf(entries: Seq<Entry>, values: Map<(Seq<char>, Seq<char>), Seq<char>>) -> bool {
    &&& forall|i: int, j: int|
        0 <= i < j < entries.len() ==> !(entries[i].section@ == entries[j].section@
            && entries[i].name@ == entries[j].name@)
    &&& forall|i: int|
        0 <= i < entries.len() ==> #[trigger] values.contains_key((entries[i].section@, entries[i].name@))
            && values[(entries[i].section@, entries[i].name@)] == entries[i].value@
    &&& forall|k: (Seq<char>, Seq<char>)|
        #[trigger] values.contains_key(k) ==> exists|i: int|
            0 <= i < entries.len() && k == (entries[i].section@, entries[i].name@)
}

/// Section names holding exactly the texts of `sections`.
spec fn names_wf(names: Seq<Vec<char>>, sections: Set<Seq<char>>) -> bool {
    forall|s: Seq<char>|
        #[trigger] sections.contains(s) <==> exists|i: int| 0 <= i < names.len() && names[i]@ == s
}

/// All values of a parse, looked up by section and name ignoring case.
pub struct IniReader {
    entries: Vec<Entry>,
    section_names: Vec<Vec<char>>,
    error: Option<IniParseError>,
    values: Ghost<Map<(Seq<char>, Seq<char>), Seq<char>>>,
    sections: Ghost<Set<Seq<char>>>,
}

impl IniReader {
    /// Values by lookup key (lower-case section, lower-case name).
    pub closed spec fn value_map(&self) -> Map<(Seq<char>, Seq<char>), Seq<char>> {
        self.values@
    }

    /// The sections seen, in lower case.
    pub closed spec fn section_set(&self) -> Set<Seq<char>> {
        self.sections@
    }

    /// The error recorded with this reader, if any.
    pub closed spec fn recorded_error(&self) -> Option<IniParseError> {
        self.error
    }

    /// The index this reader holds.
    pub open spec fn index(&self) -> Index {
        Index { values: self.value_map(), sections: self.section_set() }
    }

    /// Entries and section names agree with the value map and the section set,
    /// and no two entries share a key.
    pub closed spec fn wf(&self) -> bool {
        &&& entries_wf(self.entries@, self.values@)
        &&& names_wf(self.section_names@, self.sections@)
    }

    /// A reader that holds nothing.
    fn empty() -> (r: IniReader)
        ensures
            r.wf(),
            r.index() == indexed(seq![]),
            r.recorded_error() is None,
    {
        let r = IniReader {
            entries: Vec::new(),
            section_names: Vec::new(),
            error: None,
            values: Ghost(Map::empty()),
            sections: Ghost(Set::empty()),
        };
        assert(r.index().values =~= indexed(seq![]).values);
        assert(r.index().sections =~= indexed(seq![]).sections);
        r
    }

    /// Index of the entry with lookup key `(section, name)`.
    fn find_entry(&self, section: &[char], name: &[char]) -> (r: Option<usize>)
        requires
            self.wf(),
        ensures
            match r {
                Some(i) => i < self.entries@.len() && self.entries@[i as int].section@ == section@
                    && self.entries@[i as int].name@ == name@,
                None => !self.value_map().contains_key((section@, name@)),
            },
    {
        let mut i: usize = 0;
        while i < self.entries.len()
            invariant
                self.wf(),
                i <= self.entries@.len(),
                forall|k: int|
                    0 <= k < i ==> !(self.entries@[k].section@ == section@ && self.entries@[k].name@ == name@),
            decreases self.entries.len() - i,
        {
            if same(&self.entries[i].section, section) && same(&self.entries[i].name, name) {
                return Some(i);
            }
            i = i + 1;
        }
        None
    }

    /// Whether `ls` is among the registered section names.
    fn knows_section(&self, ls: &[char]) -> (r: bool)
        requires
            self.wf(),
        ensures
            r == self.section_set().contains(ls@),
    {
        let mut i: usize = 0;
        while i < self.section_names.len()
            invariant
                self.wf(),
                i <= self.section_names@.len(),
                forall|k: int| 0 <= k < i ==> self.section_names@[k]@ != ls@,
            decreases self.section_names.len() - i,
        {
            if same(&self.section_names[i], ls) {
                assert(self.sections@.contains(ls@));
                return true;
            }
            i = i + 1;
        }
        false
    }

    /// Registers the section `ls` (already in lower case).
    fn register_section(&mut self, ls: Vec<char>)
        requires
            old(self).wf(),
        ensures
            final(self).wf(),
            final(self).value_map() == old(self).value_map(),
            final(self).section_set() == old(self).section_set().insert(ls@),
            final(self).recorded_error() == old(self).recorded_error(),
    {
        if self.knows_section(&ls) {
            assert(self.sections@.insert(ls@) =~= self.sections@);
            return;
        }
        let ghost before = self.section_names@;
        let ghost old_sections = self.sections@;
        let ghost added = self.sections@.insert(ls@);
        let ghost l = ls@;
        self.section_names.push(ls);
        self.sections = Ghost(added);
        assert forall|s: Seq<char>| #[trigger] self.sections@.contains(s) <==> exists|i: int|
            0 <= i < self.section_names@.len() && self.section_names@[i]@ == s by {
            if s == l {
                assert(self.section_names@[before.len() as int]@ == s);
            } else if old_sections.contains(s) {
                let i = choose|i: int| 0 <= i < before.len() && before[i]@ == s;
                assert(self.section_names@[i]@ == s);
            }
            if exists|i: int| 0 <= i < self.section_names@.len() && self.section_names@[i]@ == s {
                let i = choose|i: int| 0 <= i < self.section_names@.len() && self.section_names@[i]@ == s;
                if i < before.len() {
                    assert(before[i]@ == s);
                    assert(old_sections.contains(s));
                }
            }
        }
    }

    /// Stores `value` under the key `(ls, ln)` (already in lower case),
    /// after a newline if a value is there.
    fn store(&mut self, ls: Vec<char>, ln: Vec<char>, value: &[char])
        requires
            old(self).wf(),
        ensures
            final(self).wf(),
            final(self).section_set() == old(self).section_set(),
            final(self).value_map() == (if old(self).value_map().contains_key((ls@, ln@)) {
                old(self).value_map().insert((ls@, ln@), old(self).value_map()[(ls@, ln@)] + seq!['\n'] + value@)
            } else {
                old(self).value_map().insert((ls@, ln@), value@)
            }),
            final(self).recorded_error() == old(self).recorded_error(),
    {
        let ghost k = (ls@, ln@);
        let ghost old_entries = self.entries@;
        let ghost old_values = self.values@;
        match self.find_entry(&ls, &ln) {
            Some(i) => {
                assert(self.values@.contains_key((self.entries@[i as int].section@, self.entries@[i as int].name@)));
                let mut v = dup(&self.entries[i].value);
                v.push('\n');
                let mut j: usize = 0;
                let ghost v0 = v@;
                while j < value.len()
                    invariant
                        j <= value@.len(),
                        v@ == v0 + value@.take(j as int),
                    decreases value.len() - j,
                {
                    v.push(value[j]);
                    j = j + 1;
                    assert(v@ =~= v0 + value@.take(j as int));
                }
                assert(value@.take(value@.len() as int) =~= value@);
                let ghost nv = v@;
                assert(nv =~= old_values[k] + seq!['\n'] + value@);
                self.entries.set(i, Entry { section: ls, name: ln, value: v });
                self.values = Ghost(old_values.insert(k, nv));
                assert forall|a: int| 0 <= a < self.entries@.len() implies self.entries@[a].section@
                    == old_entries[a].section@ && self.entries@[a].name@ == old_entries[a].name@ by {}
                assert forall|a: int|
                    0 <= a < self.entries@.len() implies #[trigger] self.values@.contains_key(
                        (self.entries@[a].section@, self.entries@[a].name@),
                    ) && self.values@[(self.entries@[a].section@, self.entries@[a].name@)]
                        == self.entries@[a].value@ by {
                    if a != i {
                        assert(old_values.contains_key((old_entries[a].section@, old_entries[a].name@)));
                    }
                }
                assert forall|key: (Seq<char>, Seq<char>)|
                    #[trigger] self.values@.contains_key(key) implies exists|a: int|
                        0 <= a < self.entries@.len() && key == (self.entries@[a].section@, self.entries@[a].name@) by {
                    if key != k {
                        assert(old_values.contains_key(key));
                        let a = choose|a: int|
                            0 <= a < old_entries.len() && key == (old_entries[a].section@, old_entries[a].name@);
                        assert(key == (self.entries@[a].section@, self.entries@[a].name@));
                    } else {
                        assert(key == (self.entries@[i as int].section@, self.entries@[i as int].name@));
                    }
                }
            },
            None => {
                let ghost nv = value@;
                self.entries.push(Entry { section: ls, name: ln, value: dup(value) });
                self.values = Ghost(old_values.insert(k, nv));
                let ghost n = old_entries.len() as int;
                assert forall|a: int, b: int|
                    0 <= a < b < self.entries@.len() implies !(self.entries@[a].section@ == self.entries@[b].section@
                        && self.entries@[a].name@ == self.entries@[b].name@) by {
                    if b == n {
                        assert(old_values.contains_key((old_entries[a].section@, old_entries[a].name@)));
                    }
                }
                assert forall|a: int|
                    0 <= a < self.entries@.len() implies #[trigger] self.values@.contains_key(
                        (self.entries@[a].section@, self.entries@[a].name@),
                    ) && self.values@[(self.entries@[a].section@, self.entries@[a].name@)]
                        == self.entries@[a].value@ by {
                    if a < n {
                        assert(old_values.contains_key((old_entries[a].section@, old_entries[a].name@)));
                    }
                }
                assert forall|key: (Seq<char>, Seq<char>)|
                    #[trigger] self.values@.contains_key(key) implies exists|a: int|
                        0 <= a < self.entries@.len() && key == (self.entries@[a].section@, self.entries@[a].name@) by {
                    if key != k {
                        assert(old_values.contains_key(key));
                        let a = choose|a: int|
                            0 <= a < old_entries.len() && key == (old_entries[a].section@, old_entries[a].name@);
                        assert(key == (self.entries@[a].section@, self.entries@[a].name@));
                    } else {
                        assert(key == (self.entries@[n].section@, self.entries@[n].name@));
                    }
                }
            },
        }
    }

    /// Takes in one event.
    fn record(&mut self, section: &[char], name: &[char], value: &[char])
        requires
            old(self).wf(),
        ensures
            final(self).wf(),
            final(self).index() == absorb(old(self).index(), section@, name@, value@),
            final(self).recorded_error() == old(self).recorded_error(),
    {
        let ghost target = absorb(self.index(), section@, name@, value@);
        if section.len() > 0 {
            let ls = lowercase(section);
            self.register_section(ls);
        }
        assert(self.sections@ =~= target.sections);
        if name.len() == 0 {
            assert(self.values@ =~= target.values);
            return;
        }
        let ls = lowercase(section);
        let ln = lowercase(name);
        self.store(ls, ln, value);
        assert(self.values@ =~= target.values);
    }
}

impl IniReader {
    /// Scans `lines` with `options` and keeps every event.
    fn build(lines: &Vec<Vec<char>>, options: &ParseOptions) -> (r: Result<IniReader, IniParseError>)
        ensures
            ({
                let sc = scan(views(lines@), options@);
                match r {
                    Ok(rd) => sc.fault is None && rd.wf() && rd.index() == indexed(sc.events)
                        && rd.recorded_error() is None,
                    Err(e) => fault_matches(Some(e), sc.fault),
                }
            }),
    {
        let (events, fault) = collect_events(lines, options);
        if let Some(e) = fault {
            return Err(e);
        }
        let ghost evs = scan(views(lines@), options@).events;
        let mut reader = IniReader::empty();
        let mut i: usize = 0;
        while i < events.len()
            invariant
                i <= events@.len(),
                crate::parser::event_views(events@) == evs,
                reader.wf(),
                reader.index() == indexed(evs.take(i as int)),
                reader.recorded_error() is None,
            decreases events.len() - i,
        {
            let ev = &events[i];
            assert(evs.take(i + 1).drop_last() =~= evs.take(i as int));
            assert(evs[i as int] == ev.view());
            reader.record(&ev.section, &ev.name, &ev.value);
            i = i + 1;
        }
        assert(evs.take(evs.len() as int) =~= evs);
        Ok(reader)
    }

    /// Parses INI text with `options` and keeps every event. Fails with the
    /// first fault of the parse, if there is one.
    pub fn from_string_with_options(data: &str, options: &ParseOptions) -> (r: Result<IniReader, IniParseError>)
        ensures
            ({
                let sc = scan(lines_of(data@), options@);
                match r {
                    Ok(rd) => sc.fault is None && rd.wf() && rd.index() == indexed(sc.events)
                        && rd.recorded_error() is None,
                    Err(e) => fault_matches(Some(e), sc.fault),
                }
            }),
    {
        let chars = chars_of(data);
        let lines = split_lines(&chars);
        IniReader::build(&lines, options)
    }

    /// Parses lines (numbered from 1) with `options` and keeps every event.
    /// Fails with the first fault of the parse, if there is one.
    pub fn from_lines_with_options(lines: &Vec<String>, options: &ParseOptions) -> (r: Result<IniReader, IniParseError>)
        ensures
            ({
                let sc = scan(string_views(lines@), options@);
                match r {
                    Ok(rd) => sc.fault is None && rd.wf() && rd.index() == indexed(sc.events)
                        && rd.recorded_error() is None,
                    Err(e) => fault_matches(Some(e), sc.fault),
                }
            }),
    {
        let chars = crate::parser::lines_as_chars(lines);
        IniReader::build(&chars, options)
    }

    /// Takes in one event `(section, name, value)`: registers a non-empty
    /// section and, for a non-empty name, stores the value, after a newline when
    /// the key already has one. It never rejects an event.
    pub fn handle(&mut self, section: &str, name: &str, value: &str) -> (r: Result<(), String>)
        requires
            old(self).wf(),
        ensures
            final(self).wf(),
            final(self).index() == absorb(old(self).index(), section@, name@, value@),
            final(self).recorded_error() == old(self).recorded_error(),
            r is Ok,
    {
        self.record(&chars_of(section), &chars_of(name), &chars_of(value));
        Ok(())
    }

    /// Parses INI text with the default options and keeps every event.
    pub fn from_string(data: &str) -> (r: Result<IniReader, IniParseError>)
        ensures
            ({
                let sc = scan(lines_of(data@), default_options());
                match r {
                    Ok(rd) => sc.fault is None && rd.wf() && rd.index() == indexed(sc.events)
                        && rd.recorded_error() is None,
                    Err(e) => fault_matches(Some(e), sc.fault),
                }
            }),
    {
        let options = ParseOptions::default();
        IniReader::from_string_with_options(data, &options)
    }

    /// The error recorded with this reader, if any.
    pub fn parse_error(&self) -> (r: Option<&IniParseError>)
        ensures
            r is Some == self.recorded_error() is Some,
            r matches Some(e) ==> self.recorded_error() == Some(*e),
    {
        match &self.error {
            Some(e) => Some(e),
            None => None,
        }
    }

    /// The raw value under `section` and `name` (case ignored), or `default_value`.
    pub fn get(&self, section: &str, name: &str, default_value: &str) -> (r: String)
        requires
            self.wf(),
        ensures
            r@ == lookup(self.value_map(), section@, name@, default_value@),
    {
        let ls = lowercase(&chars_of(section));
        let ln = lowercase(&chars_of(name));
        match self.find_entry(&ls, &ln) {
            Some(i) => {
                assert(self.values@.contains_key((self.entries@[i as int].section@, self.entries@[i as int].name@)));
                text_of(&self.entries[i].value)
            },
            None => default_value.to_string(),
        }
    }

    /// The value under `section` and `name`; `default_value` when it is missing or empty.
    pub fn get_string(&self, section: &str, name: &str, default_value: &str) -> (r: String)
        requires
            self.wf(),
        ensures
            r@ == (if lookup(self.value_map(), section@, name@, seq![]).len() == 0 {
                default_value@
            } else {
                lookup(self.value_map(), section@, name@, seq![])
            }),
    {
        let value = self.get(section, name, empty());
        if value.as_str().is_empty() {
            default_value.to_string()
        } else {
            value
        }
    }

    /// The value read as a signed integer (`0x` hexadecimal first, then
    /// decimal), or `default_value`.
    pub fn get_integer(&self, section: &str, name: &str, default_value: i64) -> (r: i64)
        requires
            self.wf(),
        ensures
            r == integer_value(lookup(self.value_map(), section@, name@, seq![]), default_value),
    {
        let raw = chars_of(self.get(section, name, empty()).as_str());
        if raw.len() >= 2 && raw[0] == '0' && (raw[1] == 'x' || raw[1] == 'X') {
            if let Some(v) = parse_signed(&raw, 2, 16) {
                return v;
            }
        }
        assert(raw@.skip(0) =~= raw@);
        match parse_signed(&raw, 0, 10) {
            Some(v) => v,
            None => default_value,
        }
    }

    /// Same as `get_integer`.
    pub fn get_integer64(&self, section: &str, name: &str, default_value: i64) -> (r: i64)
        requires
            self.wf(),
        ensures
            r == integer_value(lookup(self.value_map(), section@, name@, seq![]), default_value),
    {
        self.get_integer(section, name, default_value)
    }

    /// The value read as an unsigned decimal integer, or `default_value`.
    pub fn get_unsigned(&self, section: &str, name: &str, default_value: u64) -> (r: u64)
        requires
            self.wf(),
        ensures
            r == unsigned_or(lookup(self.value_map(), section@, name@, seq![]), default_value),
    {
        let raw = chars_of(self.get(section, name, empty()).as_str());
        match parse_unsigned(&raw) {
            Some(v) => v,
            None => default_value,
        }
    }

    /// Same as `get_unsigned`.
    pub fn get_unsigned64(&self, section: &str, name: &str, default_value: u64) -> (r: u64)
        requires
            self.wf(),
        ensures
            r == unsigned_or(lookup(self.value_map(), section@, name@, seq![]), default_value),
    {
        self.get_unsigned(section, name, default_value)
    }

    /// The value read as a boolean: `true`, `yes`, `on`, `1` and `false`, `no`,
    /// `off`, `0` in any case; anything else gives `default_value`.
    pub fn get_boolean(&self, section: &str, name: &str, default_value: bool) -> (r: bool)
        requires
            self.wf(),
        ensures
            r == boolean_value(lookup(self.value_map(), section@, name@, seq![]), default_value),
    {
        let raw = chars_of(self.get(section, name, empty()).as_str());
        let v = lowercase(&raw);
        if same(&v, &chars_of("true")) || same(&v, &chars_of("yes")) || same(&v, &chars_of("on"))
            || same(&v, &chars_of("1")) {
            true
        } else if same(&v, &chars_of("false")) || same(&v, &chars_of("no")) || same(&v, &chars_of("off"))
            || same(&v, &chars_of("0")) {
            false
        } else {
            default_value
        }
    }

    /// Texts as strings.
    fn strings_of(v: &Vec<Vec<char>>) -> (r: Vec<String>)
        ensures
            string_views(r@) == views(v@),
    {
        let mut r: Vec<String> = Vec::new();
        let mut i: usize = 0;
        while i < v.len()
            invariant
                i <= v@.len(),
                string_views(r@) == views(v@).take(i as int),
            decreases v.len() - i,
        {
            let ghost before = r@;
            let t = text_of(&v[i]);
            r.push(t);
            assert(string_views(r@) =~= string_views(before).push(t@));
            i = i + 1;
            assert(views(v@).take(i as int) =~= views(v@).take(
                i - 1,
            ).push(t@));
        }
        assert(views(v@).take(v@.len() as int) =~= views(v@));
        r
    }

    /// The sections seen (in lower case), sorted, each once.
    pub fn sections(&self) -> (r: Vec<String>)
        requires
            self.wf(),
        ensures
            sorted(string_views(r@)),
            string_views(r@).to_set() == self.section_set(),
    {
        let mut out: Vec<Vec<char>> = Vec::new();
        let mut i: usize = 0;
        while i < self.section_names.len()
            invariant
                self.wf(),
                i <= self.section_names@.len(),
                sorted(views(out@)),
                views(out@).to_set() == views(self.section_names@.take(i as int)).to_set(),
            decreases self.section_names.len() - i,
        {
            let ghost names = self.section_names@;
            insert_sorted(&mut out, dup(&self.section_names[i]));
            assert(views(names.take(i + 1)) =~= views(names.take(i as int)).push(names[i as int]@));
            i = i + 1;
            proof {
                views(names.take(i - 1)).lemma_push_to_set_commute(names[i - 1]@);
            }
        }
        let ghost all = views(self.section_names@);
        assert(self.section_names@.take(i as int) =~= self.section_names@);
        assert(all.to_set() =~= self.sections@) by {
            assert forall|s: Seq<char>| all.to_set().contains(s) <==> self.sections@.contains(s) by {
                if all.contains(s) {
                    let k = choose|k: int| 0 <= k < all.len() && all[k] == s;
                    assert(self.section_names@[k]@ == s);
                }
                if self.sections@.contains(s) {
                    let k = choose|k: int| 0 <= k < self.section_names@.len() && self.section_names@[k]@ == s;
                    assert(all[k] == s);
                }
            }
        }
        IniReader::strings_of(&out)
    }

    /// The names of the keys under `section` (case ignored), in lower case,
    /// sorted, each once.
    pub fn keys(&self, section: &str) -> (r: Vec<String>)
        requires
            self.wf(),
        ensures
            sorted(string_views(r@)),
            string_views(r@).to_set() == Set::new(
                |n: Seq<char>| self.value_map().contains_key((lower_of(section@), n)),
            ),
    {
        let ls = lowercase(&chars_of(section));
        let ghost want = Set::new(|n: Seq<char>| self.value_map().contains_key((ls@, n)));
        let mut out: Vec<Vec<char>> = Vec::new();
        let mut i: usize = 0;
        while i < self.entries.len()
            invariant
                self.wf(),
                i <= self.entries@.len(),
                sorted(views(out@)),
                forall|n: Seq<char>| #[trigger] views(out@).to_set().contains(n) <==> exists|k: int|
                    0 <= k < i && self.entries@[k].section@ == ls@ && self.entries@[k].name@ == n,
            decreases self.entries.len() - i,
        {
            let ghost before = views(out@).to_set();
            if same(&self.entries[i].section, &ls) {
                insert_sorted(&mut out, dup(&self.entries[i].name));
            }
            assert forall|n: Seq<char>| #[trigger] views(out@).to_set().contains(n) <==> exists|k: int|
                0 <= k < i + 1 && self.entries@[k].section@ == ls@ && self.entries@[k].name@ == n by {
                if exists|k: int| 0 <= k < i + 1 && self.entries@[k].section@ == ls@ && self.entries@[k].name@ == n {
                    let k = choose|k: int| 0 <= k < i + 1 && self.entries@[k].section@ == ls@ && self.entries@[k].name@ == n;
                    if k < i {
                        assert(before.contains(n));
                    }
                }
            }
            i = i + 1;
        }
        assert(views(out@).to_set() =~= want) by {
            assert forall|n: Seq<char>| views(out@).to_set().contains(n) <==> want.contains(n) by {
                if want.contains(n) {
                    assert(self.values@.contains_key((ls@, n)));
                    let k = choose|k: int| 0 <= k < self.entries@.len() && (ls@, n) == (self.entries@[k].section@, self.entries@[k].name@);
                    assert(self.entries@[k].section@ == ls@ && self.entries@[k].name@ == n);
                }
                if views(out@).to_set().contains(n) {
                    let k = choose|k: int| 0 <= k < i && self.entries@[k].section@ == ls@ && self.entries@[k].name@ == n;
                    assert(self.values@.contains_key((self.entries@[k].section@, self.entries@[k].name@)));
                }
            }
        }
        IniReader::strings_of(&out)
    }

    /// Whether `section` (case ignored) was seen.
    pub fn has_section(&self, section: &str) -> (r: bool)
        requires
            self.wf(),
        ensures
            r == self.section_set().contains(lower_of(section@)),
    {
        let ls = lowercase(&chars_of(section));
        self.knows_section(&ls)
    }

    /// Whether a value is stored under `section` and `name` (case ignored).
    pub fn has_value(&self, section: &str, name: &str) -> (r: bool)
        requires
            self.wf(),
        ensures
            r == self.value_map().contains_key(key_of(section@, name@)),
    {
        let ls = lowercase(&chars_of(section));
        let ln = lowercase(&chars_of(name));
        match self.find_entry(&ls, &ln) {
            Some(i) => {
                assert(self.values@.contains_key((self.entries@[i as int].section@, self.entries@[i as int].name@)));
                true
            },
            None => false,
        }
    }
}

} // verus!
