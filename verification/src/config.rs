//! `name = value` configuration files: the settings of the server, its
//! route rules, and the plugin descriptions.
use vstd::prelude::*;
use crate::text::{
    chars_of, find_char, find_or_len, has_char, is_white_space, lemma_find_char_at, lemma_trim_end_space,
    lemma_trim_start_space, lemma_trimmed_bare, lemma_trimmed_padded, all_white_space, trim, trim_end, trim_start,
    trimmed, owned,
};

verus! {

broadcast use vstd::string::group_string_axioms;

/// The name and value that a configuration line `name = value` defines:
/// the text before the first `'='` and the text after it, both trimmed.
pub open spec fn setting_of_line(line: Seq<char>) -> (Seq<char>, Seq<char>) {
    let off = find_or_len(line, seq!['=']);
    (trimmed(line.take(off)), trimmed(line.skip(off + 1)))
}

/// `m` after loading `lines` in order; a later line overrides an earlier one.
pub open spec fn load_lines(m: Map<Seq<char>, Seq<char>>, lines: Seq<Seq<char>>) -> Map<Seq<char>, Seq<char>>
    decreases lines.len(),
{
    if lines.len() == 0 {
        m
    } else {
        let (k, v) = setting_of_line(lines.last());
        load_lines(m, lines.drop_last()).insert(k, v)
    }
}

/// Whether a line holds an `'='` (loading a line without one fails).
pub open spec fn has_equals(line: Seq<char>) -> bool {
    has_char(line, '=')
}

/// The value that the last line defining `name` gives it, if any line does.
pub open spec fn last_definition(lines: Seq<Seq<char>>, name: Seq<char>) -> Option<Seq<char>>
    decreases lines.len(),
{
    if lines.len() == 0 {
        None
    } else if setting_of_line(lines.last()).0 == name {
        Some(setting_of_line(lines.last()).1)
    } else {
        last_definition(lines.drop_last(), name)
    }
}

/// Loading a configuration file: a name takes the value of the last line
/// that defines it; a name that no line defines keeps its earlier value.
pub proof fn law_last_definition_wins(m: Map<Seq<char>, Seq<char>>, lines: Seq<Seq<char>>, name: Seq<char>)
    ensures
        match last_definition(lines, name) {
            Some(v) => load_lines(m, lines).contains_key(name) && load_lines(m, lines)[name] == v,
            None => load_lines(m, lines).contains_key(name) == m.contains_key(name) && (m.contains_key(name)
                ==> load_lines(m, lines)[name] == m[name]),
        },
    decreases lines.len(),
{
    if lines.len() > 0 {
        law_last_definition_wins(m, lines.drop_last(), name);
    }
}

/// A line `name = value` gives `name` exactly `value`, whatever characters
/// the value holds (`':'` or `'='` among them): the name is the text before
/// the first `'='` and the value the whole text after it, each without the
/// spaces around it. Loading such a line sets the name to the value.
pub proof fn law_setting_line_value(m: Map<Seq<char>, Seq<char>>, name: Seq<char>, value: Seq<char>)
    requires
        forall|i: int| 0 <= i < name.len() ==> name[i] != '=',
        name.len() > 0 ==> !is_white_space(name[0]) && !is_white_space(name.last()),
        value.len() > 0 ==> !is_white_space(value[0]) && !is_white_space(value.last()),
    ensures
        setting_of_line(name + seq![' ', '=', ' '] + value) == (name, value),
        load_lines(m, seq![name + seq![' ', '=', ' '] + value]) == m.insert(name, value),
{
    let line = name + seq![' ', '=', ' '] + value;
    let k = name.len() as int + 1;
    assert(line[k] == '=');
    assert forall|j: int| 0 <= j < k implies line[j] != '=' by {
        if j < name.len() {
            assert(line[j] == name[j]);
        }
    }
    lemma_find_char_at(line, '=', k);
    let before = line.take(k);
    let after = line.skip(k + 1);
    assert(before =~= name + seq![' ']);
    assert(after =~= seq![' '] + value);
    lemma_trim_start_space(value);
    lemma_trimmed_bare(value);
    lemma_trim_end_space(name);
    lemma_trimmed_bare(name);
    if name.len() == 0 {
        lemma_trim_start_space(name);
        assert(name + seq![' '] =~= seq![' '] + name);
        assert(trim_start(name) == name);
    } else {
        assert((name + seq![' '])[0] == name[0]);
        assert(trim_start(name + seq![' ']) == name + seq![' ']);
    }
    assert(trimmed(before) == name);
    assert(trimmed(after) == value);
    let lines = seq![line];
    assert(lines.drop_last() =~= Seq::<Seq<char>>::empty());
    assert(lines.last() == line);
    assert(load_lines(m, lines.drop_last()) == m);
    assert(load_lines(m, lines) == load_lines(m, lines.drop_last()).insert(name, value));
}

/// The same with any white space around the name, the `'='` and the value:
/// the line `w1 + name + w2 + "=" + w3 + value + w4`, where the `w`s are
/// white space, gives `name` exactly `value`.
pub proof fn law_setting_line_padded(
    m: Map<Seq<char>, Seq<char>>,
    w1: Seq<char>,
    name: Seq<char>,
    w2: Seq<char>,
    w3: Seq<char>,
    value: Seq<char>,
    w4: Seq<char>,
)
    requires
        all_white_space(w1),
        all_white_space(w2),
        all_white_space(w3),
        all_white_space(w4),
        forall|i: int| 0 <= i < name.len() ==> name[i] != '=',
        name.len() > 0 ==> !is_white_space(name[0]) && !is_white_space(name.last()),
        value.len() > 0 ==> !is_white_space(value[0]) && !is_white_space(value.last()),
    ensures
        setting_of_line(w1 + name + w2 + seq!['='] + w3 + value + w4) == (name, value),
        load_lines(m, seq![w1 + name + w2 + seq!['='] + w3 + value + w4]) == m.insert(name, value),
{
    let line = w1 + name + w2 + seq!['='] + w3 + value + w4;
    let k = (w1.len() + name.len() + w2.len()) as int;
    assert(line[k] == '=');
    assert forall|j: int| 0 <= j < k implies line[j] != '=' by {
        if j < w1.len() {
            assert(line[j] == w1[j]);
            assert(is_white_space(w1[j]));
        } else if j < w1.len() + name.len() {
            assert(line[j] == name[j - w1.len()]);
        } else {
            assert(line[j] == w2[j - w1.len() - name.len()]);
            assert(is_white_space(w2[j - w1.len() - name.len()]));
        }
    }
    lemma_find_char_at(line, '=', k);
    assert(line.take(k) =~= w1 + name + w2);
    assert(line.skip(k + 1) =~= w3 + value + w4);
    lemma_trimmed_padded(w1, name, w2);
    lemma_trimmed_padded(w3, value, w4);
    let lines = seq![line];
    assert(lines.drop_last() =~= Seq::<Seq<char>>::empty());
    assert(lines.last() == line);
    assert(load_lines(m, lines.drop_last()) == m);
    assert(load_lines(m, lines) == load_lines(m, lines.drop_last()).insert(name, value));
}

/// A map from names to values, kept as a list of distinct names.
pub struct ConfigMap {
    entries: Vec<(String, String)>,
}

impl ConfigMap {
    spec fn key(&self, i: int) -> Seq<char> {
        self.entries@[i].0@
    }

    /// Names are distinct.
    pub closed spec fn wf(&self) -> bool {
        forall|i: int, j: int|
            0 <= i < self.entries@.len() && 0 <= j < self.entries@.len() && i != j ==> #[trigger] self.key(i)
                != #[trigger] self.key(j)
    }

    spec fn index_of(&self, k: Seq<char>) -> int {
        choose|i: int| 0 <= i < self.entries@.len() && self.key(i) == k
    }

    /// The map: name to value.
    pub closed spec fn view(&self) -> Map<Seq<char>, Seq<char>> {
        Map::new(
            |k: Seq<char>| exists|i: int| 0 <= i < self.entries@.len() && self.key(i) == k,
            |k: Seq<char>| self.entries@[self.index_of(k)].1@,
        )
    }

    proof fn lemma_view_at(&self, i: int)
        requires
            self.wf(),
            0 <= i < self.entries@.len(),
        ensures
            self.view().contains_key(self.key(i)),
            self.view()[self.key(i)] == self.entries@[i].1@,
    {
        let k = self.key(i);
        assert(0 <= i < self.entries@.len() && self.key(i) == k);
        let j = self.index_of(k);
        assert(self.key(j) == k);
    }

    /// An empty map.
    pub fn new() -> (r: ConfigMap)
        ensures
            r.wf(),
            r.view() == Map::<Seq<char>, Seq<char>>::empty(),
    {
        let r = ConfigMap { entries: Vec::new() };
        assert(r.view() =~= Map::<Seq<char>, Seq<char>>::empty());
        r
    }

    /// The position of `name`, if present.
    fn position(&self, name: &String) -> (r: Option<usize>)
        requires
            self.wf(),
        ensures
            match r {
                Some(i) => i < self.entries@.len() && self.key(i as int) == name@,
                None => !self.view().contains_key(name@),
            },
    {
        let mut i: usize = 0;
        while i < self.entries.len()
            invariant
                i <= self.entries@.len(),
                forall|j: int| 0 <= j < i ==> self.key(j) != name@,
            decreases self.entries@.len() - i,
        {
            if self.entries[i].0 == *name {
                return Some(i);
            }
            i += 1;
        }
        None
    }

    /// Sets `key` to `value`, replacing any earlier value.
    pub fn insert(&mut self, key: String, value: String)
        requires
            old(self).wf(),
        ensures
            final(self).wf(),
            final(self).view() == old(self).view().insert(key@, value@),
    {
        let ghost k = key@;
        let ghost v = value@;
        match self.position(&key) {
            Some(i) => {
                self.entries.set(i, (key, value));
                proof {
                    let pre = old(self);
                    assert forall|a: int, b: int|
                        0 <= a < self.entries@.len() && 0 <= b < self.entries@.len() && a != b implies #[trigger] self.key(a)
                        != #[trigger] self.key(b) by {
                        assert(pre.key(a) != pre.key(b));
                        if a == i {
                            assert(self.key(a) == pre.key(a));
                        }
                        if b == i {
                            assert(self.key(b) == pre.key(b));
                        }
                        if a != i && b != i {
                            assert(self.key(a) == pre.key(a));
                            assert(self.key(b) == pre.key(b));
                        }
                    }
                    self.lemma_entries_changed_at(pre, i as int, k, v);
                }
            },
            None => {
                self.entries.push((key, value));
                proof {
                    let pre = old(self);
                    let n = pre.entries@.len() as int;
                    assert forall|a: int| 0 <= a < n implies #[trigger] self.key(a) == pre.key(a) by {}
                    assert forall|a: int| 0 <= a < n implies pre.key(a) != k by {
                        pre.lemma_view_at(a);
                    }
                    assert forall|a: int, b: int|
                        0 <= a < self.entries@.len() && 0 <= b < self.entries@.len() && a != b implies #[trigger] self.key(a)
                        != #[trigger] self.key(b) by {
                        if a < n && b < n {
                            assert(pre.key(a) != pre.key(b));
                        }
                    }
                    self.lemma_entries_changed_at(pre, n, k, v);
                }
            },
        }
    }

    proof fn lemma_entries_changed_at(&self, pre: &ConfigMap, i: int, k: Seq<char>, v: Seq<char>)
        requires
            pre.wf(),
            self.wf(),
            0 <= i < self.entries@.len(),
            self.entries@.len() == pre.entries@.len() || (self.entries@.len() == pre.entries@.len() + 1
                && i == pre.entries@.len()),
            i < pre.entries@.len() ==> pre.key(i) == k,
            self.key(i) == k,
            self.entries@[i].1@ == v,
            forall|j: int| 0 <= j < self.entries@.len() && j != i ==> #[trigger] self.entries@[j] == pre.entries@[j],
        ensures
            self.view() == pre.view().insert(k, v),
    {
        self.lemma_view_at(i);
        assert forall|key: Seq<char>| #[trigger] self.view().contains_key(key) == pre.view().insert(k, v).contains_key(key) by {
            if key != k {
                if pre.view().contains_key(key) {
                    let j = choose|j: int| 0 <= j < pre.entries@.len() && pre.key(j) == key;
                    assert(self.entries@[j] == pre.entries@[j]);
                    self.lemma_view_at(j);
                }
                if self.view().contains_key(key) {
                    let j = choose|j: int| 0 <= j < self.entries@.len() && self.key(j) == key;
                    assert(self.entries@[j] == pre.entries@[j]);
                    pre.lemma_view_at(j);
                }
            }
        }
        assert forall|key: Seq<char>| #[trigger] self.view().contains_key(key) && key != k implies self.view()[key]
            == pre.view()[key] by {
            let j = choose|j: int| 0 <= j < self.entries@.len() && self.key(j) == key;
            assert(self.entries@[j] == pre.entries@[j]);
            self.lemma_view_at(j);
            pre.lemma_view_at(j);
        }
        assert(self.view() =~= pre.view().insert(k, v));
    }

    /// The value of `name`, if present.
    pub fn get_option(&self, name: &str) -> (r: Option<&String>)
        requires
            self.wf(),
        ensures
            match r {
                Some(v) => self.view().contains_key(name@) && v@ == self.view()[name@],
                None => !self.view().contains_key(name@),
            },
    {
        let n = owned(name);
        match self.position(&n) {
            Some(i) => {
                proof {
                    self.lemma_view_at(i as int);
                }
                Some(&self.entries[i].1)
            },
            None => None,
        }
    }

    /// The value of `name`, which must be present.
    pub fn get(&self, name: &str) -> (r: String)
        requires
            self.wf(),
            self.view().contains_key(name@),
        ensures
            r@ == self.view()[name@],
    {
        match self.get_option(name) {
            Some(v) => v.clone(),
            None => String::new(),
        }
    }

    /// Loads the lines of a configuration file, in order: each defines the
    /// name before its first `'='` as the value after it, both trimmed.
    pub fn load(&mut self, lines: &Vec<String>)
        requires
            old(self).wf(),
            forall|i: int| 0 <= i < lines.len() ==> has_equals(#[trigger] lines@[i]@),
        ensures
            final(self).wf(),
            final(self).view() == load_lines(old(self).view(), lines@.map_values(|l: String| l@)),
    {
        let ghost views = lines@.map_values(|l: String| l@);
        let mut i: usize = 0;
        while i < lines.len()
            invariant
                i <= lines.len(),
                self.wf(),
                views == lines@.map_values(|l: String| l@),
                forall|j: int| 0 <= j < lines.len() ==> has_equals(#[trigger] lines@[j]@),
                self.view() == load_lines(old(self).view(), views.take(i as int)),
            decreases lines.len() - i,
        {
            let line = lines[i].as_str();
            let (k, v) = parse_setting_line(line);
            assert(has_equals(lines@[i as int]@));
            self.insert(k, v);
            proof {
                assert(views.take(i + 1).drop_last() =~= views.take(i as int));
                assert(views.take(i + 1).last() == lines@[i as int]@);
            }
            i += 1;
        }
        assert(views.take(lines.len() as int) =~= views);
    }
}

/// Splits one configuration line into its trimmed name and value.
pub fn parse_setting_line(line: &str) -> (r: (String, String))
    requires
        has_equals(line@),
    ensures
        (r.0@, r.1@) == setting_of_line(line@),
{
    let v = chars_of(line);
    let off = find_char(&v, '=');
    let first = line.substring_char(0, off);
    let last = line.substring_char(off + 1, v.len());
    assert(first@ == line@.take(off as int));
    assert(last@ =~= line@.skip(off + 1));
    (owned(trim(first)), owned(trim(last)))
}

/// The server settings.
pub struct Settings {
    pub settings: ConfigMap,
}

impl Settings {
    /// Settings loaded from the lines of a configuration file.
    pub fn new(lines: &Vec<String>) -> (r: Settings)
        requires
            forall|i: int| 0 <= i < lines.len() ==> has_equals(#[trigger] lines@[i]@),
        ensures
            r.settings.wf(),
            r.settings.view() == load_lines(Map::empty(), lines@.map_values(|l: String| l@)),
    {
        let mut settings = ConfigMap::new();
        settings.load(lines);
        Settings { settings }
    }

    /// The value of a setting, which must be present.
    pub fn get(&self, setting_name: &str) -> (r: String)
        requires
            self.settings.wf(),
            self.settings.view().contains_key(setting_name@),
        ensures
            r@ == self.settings.view()[setting_name@],
    {
        self.settings.get(setting_name)
    }

    /// The value of a setting, if present.
    pub fn get_option(&self, setting_name: &str) -> (r: Option<&String>)
        requires
            self.settings.wf(),
        ensures
            match r {
                Some(v) => self.settings.view().contains_key(setting_name@) && v@ == self.settings.view()[setting_name@],
                None => !self.settings.view().contains_key(setting_name@),
            },
    {
        self.settings.get_option(setting_name)
    }
}

/// The route rules: request function name to plugin action.
pub struct Router {
    pub route_rules: ConfigMap,
}

impl Router {
    /// Route rules loaded from the lines of a configuration file.
    pub fn new(lines: &Vec<String>) -> (r: Router)
        requires
            forall|i: int| 0 <= i < lines.len() ==> has_equals(#[trigger] lines@[i]@),
        ensures
            r.route_rules.wf(),
            r.route_rules.view() == load_lines(Map::empty(), lines@.map_values(|l: String| l@)),
    {
        let mut route_rules = ConfigMap::new();
        route_rules.load(lines);
        Router { route_rules }
    }

    /// The action routed to `name`, if any.
    pub fn get_option(&self, name: &str) -> (r: Option<&String>)
        requires
            self.route_rules.wf(),
        ensures
            match r {
                Some(v) => self.route_rules.view().contains_key(name@) && v@ == self.route_rules.view()[name@],
                None => !self.route_rules.view().contains_key(name@),
            },
    {
        self.route_rules.get_option(name)
    }
}

} // verus!
