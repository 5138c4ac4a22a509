use vstd::prelude::*;
use crate::text::{
    texts, split_on, split_once, lines_of, terminated, join_with, chars_of, lines_of_chars,
    split_once_chars, split_chars, join_strings, lemma_first_index, lemma_lines_of_terminated,
    lemma_split_join, lemma_lines_free, lemma_split_once_parts,
};
use vstd::string::StringExecFns;

verus! {

/// A small key/value settings file, for single remembered values such as the
/// folder picked last. Each key occurs once.
pub struct Settings {
    values: Vec<(String, String)>,
}

/// A setting as text: its key and its value.
pub type Pair = (Seq<char>, Seq<char>);

/// The index of the first pair with `key`, or the number of pairs when none has it.
pub open spec fn key_index(pairs: Seq<Pair>, key: Seq<char>) -> int
    decreases pairs.len(),
{
    if pairs.len() == 0 {
        0
    } else if pairs[0].0 == key {
        0
    } else {
        1 + key_index(pairs.drop_first(), key)
    }
}

pub proof fn lemma_key_index(pairs: Seq<Pair>, key: Seq<char>, i: int)
    requires
        0 <= i <= pairs.len(),
        forall|j: int| 0 <= j < i ==> (#[trigger] pairs[j]).0 != key,
        i == pairs.len() || pairs[i].0 == key,
    ensures
        key_index(pairs, key) == i,
    decreases pairs.len(),
{
    if pairs.len() > 0 && i > 0 {
        assert forall|j: int| 0 <= j < i - 1 implies (#[trigger] pairs.drop_first()[j]).0 != key by {
            assert(pairs.drop_first()[j] == pairs[j + 1]);
        }
        lemma_key_index(pairs.drop_first(), key, i - 1);
    }
}

pub proof fn lemma_key_index_facts(pairs: Seq<Pair>, key: Seq<char>)
    ensures
        0 <= key_index(pairs, key) <= pairs.len(),
        key_index(pairs, key) < pairs.len() ==> pairs[key_index(pairs, key)].0 == key,
        forall|j: int| 0 <= j < key_index(pairs, key) ==> (#[trigger] pairs[j]).0 != key,
    decreases pairs.len(),
{
    if pairs.len() > 0 && pairs[0].0 != key {
        let rest = pairs.drop_first();
        lemma_key_index_facts(rest, key);
        assert forall|j: int| 0 <= j < key_index(pairs, key) implies (#[trigger] pairs[j]).0 != key by {
            if j > 0 {
                assert(pairs[j] == rest[j - 1]);
            }
        }
    }
}

/// No key occurs twice.
pub open spec fn distinct_keys(pairs: Seq<Pair>) -> bool {
    forall|i: int, j: int| 0 <= i < j < pairs.len() ==> (#[trigger] pairs[i]).0 != (#[trigger] pairs[j]).0
}

/// The value stored under `key`, if any.
pub open spec fn lookup(pairs: Seq<Pair>, key: Seq<char>) -> Option<Seq<char>> {
    let i = key_index(pairs, key);
    if i < pairs.len() {
        Some(pairs[i].1)
    } else {
        None
    }
}

/// The pairs after storing `value` under `key`: the pair with that key gets
/// the new value, or, when there is none, a new last pair is added.
pub open spec fn set_value(pairs: Seq<Pair>, key: Seq<char>, value: Seq<char>) -> Seq<Pair> {
    let i = key_index(pairs, key);
    if i < pairs.len() {
        pairs.update(i, (key, value))
    } else {
        pairs.push((key, value))
    }
}

/// The settings read from the lines of a file: a line `key=value` is split at
/// its first `=` and stored, a later line overriding an earlier one with the
/// same key; a line without `=` is skipped.
pub open spec fn parse_pairs(lines: Seq<Seq<char>>) -> Seq<Pair>
    decreases lines.len(),
{
    if lines.len() == 0 {
        Seq::empty()
    } else {
        let kept = parse_pairs(lines.drop_last());
        match split_once(lines.last(), '=') {
            Some((key, value)) => set_value(kept, key, value),
            None => kept,
        }
    }
}

/// The line that stores a setting.
pub open spec fn pair_line(pair: Pair) -> Seq<char> {
    pair.0.push('=') + pair.1
}

/// The file contents that store the settings, one line each.
pub open spec fn pairs_text(pairs: Seq<Pair>) -> Seq<char> {
    terminated(pairs.map_values(|p: Pair| pair_line(p)))
}

/// The items of a list stored as one value: the pieces between `|`, empty
/// pieces left out.
pub open spec fn list_items(value: Seq<char>) -> Seq<Seq<char>> {
    split_on(value, '|').filter(|p: Seq<char>| p.len() > 0)
}

impl View for Settings {
    type V = Seq<Pair>;

    closed spec fn view(&self) -> Seq<Pair> {
        self.values@.map_values(|e: (String, String)| (e.0@, e.1@))
    }
}

impl Settings {
    /// Each key occurs once.
    #[verifier::type_invariant]
    spec fn wf(self) -> bool {
        distinct_keys(self@)
    }

    /// The index of the setting with `key`, or the number of settings.
    fn find(&self, key: &String) -> (i: usize)
        ensures
            i == key_index(self@, key@),
            i <= self@.len(),
    {
        let mut i: usize = 0;
        while i < self.values.len()
            invariant
                i <= self.values.len(),
                self@.len() == self.values.len(),
                forall|j: int| 0 <= j < i ==> (#[trigger] self@[j]).0 != key@,
            decreases self.values.len() - i,
        {
            assert(self@[i as int] == (self.values@[i as int].0@, self.values@[i as int].1@));
            if self.values[i].0 == *key {
                proof { lemma_key_index(self@, key@, i as int); }
                return i;
            }
            i += 1;
        }
        proof { lemma_key_index(self@, key@, i as int); }
        i
    }

    /// Stores `value` under `key`.
    fn set(&mut self, key: String, value: String)
        ensures
            distinct_keys(final(self)@),
            final(self)@ == set_value(old(self)@, key@, value@),
    {
        proof { use_type_invariant(&*self); }
        let i = self.find(&key);
        let ghost before = self@;
        proof { lemma_key_index_facts(before, key@); }
        let mut values: Vec<(String, String)> = Vec::new();
        std::mem::swap(&mut values, &mut self.values);
        if i < values.len() {
            values.set(i, (key, value));
            let ghost after = values@.map_values(|e: (String, String)| (e.0@, e.1@));
            assert(after =~= before.update(i as int, (key@, value@)));
            assert forall|a: int, b: int| 0 <= a < b < after.len() implies
                (#[trigger] after[a]).0 != (#[trigger] after[b]).0 by {
                assert(after[a].0 == before[a].0);
                assert(after[b].0 == before[b].0);
            }
        } else {
            values.push((key, value));
            let ghost after = values@.map_values(|e: (String, String)| (e.0@, e.1@));
            assert(after =~= before.push((key@, value@)));
            assert forall|a: int, b: int| 0 <= a < b < after.len() implies
                (#[trigger] after[a]).0 != (#[trigger] after[b]).0 by {
                if b == before.len() {
                    assert(after[a] == before[a]);
                    assert(before[a].0 != key@);
                }
            }
        }
        self.values = values;
    }

    /// Reads the settings from the contents of their file.
    pub fn from_contents(contents: &str) -> (settings: Settings)
        ensures
            settings@ == parse_pairs(lines_of(contents@)),
            distinct_keys(settings@),
    {
        let chars = chars_of(contents);
        let lines = lines_of_chars(&chars);
        let ghost all = lines_of(contents@);
        let mut settings = Settings { values: Vec::new() };
        assert(settings@ =~= Seq::<Pair>::empty());
        let mut k: usize = 0;
        while k < lines.len()
            invariant
                k <= lines.len(),
                texts(lines@) == all,
                settings@ == parse_pairs(all.take(k as int)),
                distinct_keys(settings@),
            decreases lines.len() - k,
        {
            let ghost prefix = all.take(k + 1);
            assert(prefix.drop_last() =~= all.take(k as int));
            assert(prefix.last() == lines@[k as int]@);
            let line_chars = chars_of(lines[k].as_str());
            match split_once_chars(&line_chars, '=') {
                Some((key, value)) => settings.set(key, value),
                None => {},
            }
            k += 1;
        }
        assert(all.take(k as int) =~= all);
        settings
    }

    /// The contents of the settings file: one line `key=value` per setting.
    pub fn to_contents(&self) -> (contents: String)
        ensures
            contents@ == pairs_text(self@),
    {
        let mut contents = String::new();
        let mut i: usize = 0;
        while i < self.values.len()
            invariant
                i <= self.values.len(),
                self@.len() == self.values.len(),
                contents@ == pairs_text(self@.take(i as int)),
            decreases self.values.len() - i,
        {
            let ghost prefix = self@.take(i + 1);
            assert(prefix.drop_last() =~= self@.take(i as int));
            assert(prefix.map_values(|p: Pair| pair_line(p)).drop_last()
                =~= self@.take(i as int).map_values(|p: Pair| pair_line(p)));
            assert(self@[i as int] == (self.values@[i as int].0@, self.values@[i as int].1@));
            contents.append(self.values[i].0.as_str());
            contents.append("=");
            contents.append(self.values[i].1.as_str());
            contents.append("\n");
            proof {
                reveal_strlit("=");
                reveal_strlit("\n");
            }
            i += 1;
            assert(contents@ =~= pairs_text(prefix));
        }
        assert(self@.take(i as int) =~= self@);
        contents
    }

    /// The path stored under `key`, if any.
    pub fn get_path(&self, key: &str) -> (path: Option<String>)
        ensures
            match path {
                Some(p) => lookup(self@, key@) == Some(p@),
                None => lookup(self@, key@) is None,
            },
    {
        let key = key.to_owned();
        let i = self.find(&key);
        if i < self.values.len() {
            assert(self@[i as int] == (self.values@[i as int].0@, self.values@[i as int].1@));
            Some(self.values[i].1.clone())
        } else {
            None
        }
    }

    /// Stores `path` under `key`.
    pub fn set_path(&mut self, key: &str, path: &str)
        ensures
            distinct_keys(final(self)@),
            final(self)@ == set_value(old(self)@, key@, path@),
    {
        self.set(key.to_owned(), path.to_owned());
    }

    /// The list stored under `key`: its items between `|`, empty ones left
    /// out; no list is an empty list.
    pub fn get_list(&self, key: &str) -> (items: Vec<String>)
        ensures
            texts(items@) == match lookup(self@, key@) {
                Some(value) => list_items(value),
                None => Seq::empty(),
            },
    {
        let key = key.to_owned();
        let i = self.find(&key);
        if i < self.values.len() {
            assert(self@[i as int] == (self.values@[i as int].0@, self.values@[i as int].1@));
            let chars = chars_of(self.values[i].1.as_str());
            let pieces = split_chars(&chars, '|');
            let ghost all = texts(pieces@);
            let mut items: Vec<String> = Vec::new();
            let mut k: usize = 0;
            while k < pieces.len()
                invariant
                    k <= pieces.len(),
                    texts(pieces@) == all,
                    texts(items@) == all.take(k as int).filter(|p: Seq<char>| p.len() > 0),
                decreases pieces.len() - k,
            {
                let ghost prefix = all.take(k + 1);
                assert(prefix.drop_last() =~= all.take(k as int));
                assert(prefix.last() == pieces@[k as int]@);
                reveal(Seq::filter);
                let ghost before = texts(items@);
                if !pieces[k].as_str().is_empty() {
                    items.push(pieces[k].clone());
                    assert(texts(items@) =~= before.push(pieces@[k as int]@));
                }
                k += 1;
            }
            assert(all.take(k as int) =~= all);
            items
        } else {
            Vec::new()
        }
    }

    /// Stores the items under `key`, joined with `|`.
    pub fn set_list(&mut self, key: &str, items: &[String])
        ensures
            distinct_keys(final(self)@),
            final(self)@ == set_value(old(self)@, key@, join_with(texts(items@), '|')),
    {
        let joined = join_strings(items, '|');
        self.set(key.to_owned(), joined);
    }
}


/// Reading a setting back after storing it gives the stored value, and the
/// other settings keep theirs.
pub proof fn lemma_get_after_set(pairs: Seq<Pair>, key: Seq<char>, value: Seq<char>, other: Seq<char>)
    requires
        other != key,
    ensures
        lookup(set_value(pairs, key, value), key) == Some(value),
        lookup(set_value(pairs, key, value), other) == lookup(pairs, other),
{
    let after = set_value(pairs, key, value);
    lemma_key_index_facts(pairs, key);
    lemma_key_index_facts(pairs, other);
    let i = key_index(pairs, key);
    let o = key_index(pairs, other);
    if i < pairs.len() {
        lemma_key_index(after, key, i);
        assert forall|j: int| 0 <= j < o implies (#[trigger] after[j]).0 != other by {
            if j != i {
                assert(after[j] == pairs[j]);
            }
        }
        if o < pairs.len() {
            assert(o != i);
            assert(after[o] == pairs[o]);
        }
        lemma_key_index(after, other, o);
    } else {
        lemma_key_index(after, key, i);
        assert forall|j: int| 0 <= j < o implies (#[trigger] after[j]).0 != other by {
            if j < pairs.len() {
                assert(after[j] == pairs[j]);
            }
        }
        if o < pairs.len() {
            assert(after[o] == pairs[o]);
            lemma_key_index(after, other, o);
        } else {
            lemma_key_index(after, other, o + 1);
        }
    }
}

/// A setting can be stored on one line and read back from it.
pub open spec fn storable(pair: Pair) -> bool {
    &&& !pair.0.contains('=')
    &&& !pair.0.contains('\n')
    &&& !pair.1.contains('\n')
    &&& (pair.1.len() > 0 ==> pair.1.last() != '\r')
}

proof fn lemma_pair_line(pair: Pair)
    requires
        storable(pair),
    ensures
        split_once(pair_line(pair), '=') == Some(pair),
        !pair_line(pair).contains('\n'),
        pair_line(pair).len() > 0 && pair_line(pair).last() != '\r',
{
    let line = pair_line(pair);
    let n = pair.0.len() as int;
    assert forall|j: int| 0 <= j < n implies line[j] != '=' by {
        assert(line[j] == pair.0[j]);
        if line[j] == '=' {
            assert(pair.0.contains('='));
        }
    }
    assert(line[n] == '=');
    lemma_first_index(line, '=', n);
    assert(line.take(n) =~= pair.0);
    assert(line.skip(n + 1) =~= pair.1);
    if line.contains('\n') {
        let j = choose|j: int| 0 <= j < line.len() && line[j] == '\n';
        if j < n {
            assert(pair.0[j] == '\n');
        } else if j > n {
            assert(pair.1[j - n - 1] == '\n');
        }
        assert(false);
    }
    if pair.1.len() > 0 {
        assert(line.last() == pair.1.last());
    } else {
        assert(line.last() == '=');
    }
}

proof fn lemma_parse_pair_lines(pairs: Seq<Pair>)
    requires
        distinct_keys(pairs),
        forall|i: int| 0 <= i < pairs.len() ==> storable(#[trigger] pairs[i]),
    ensures
        parse_pairs(pairs.map_values(|p: Pair| pair_line(p))) == pairs,
    decreases pairs.len(),
{
    let lines = pairs.map_values(|p: Pair| pair_line(p));
    if pairs.len() == 0 {
        assert(lines =~= Seq::<Seq<char>>::empty());
    } else {
        let d = pairs.drop_last();
        let last = pairs.last();
        assert(storable(pairs[pairs.len() - 1]));
        assert(distinct_keys(d));
        assert forall|i: int| 0 <= i < d.len() implies storable(#[trigger] d[i]) by {
            assert(d[i] == pairs[i]);
        }
        lemma_parse_pair_lines(d);
        assert(lines.drop_last() =~= d.map_values(|p: Pair| pair_line(p)));
        lemma_pair_line(last);
        assert forall|j: int| 0 <= j < d.len() implies (#[trigger] d[j]).0 != last.0 by {
            assert(d[j] == pairs[j]);
            assert(pairs[j].0 != pairs[pairs.len() - 1].0);
        }
        lemma_key_index(d, last.0, d.len() as int);
        assert(parse_pairs(lines) =~= d.push(last));
    }
}

/// Saving the settings and reading the saved contents back gives the same
/// settings, when each is storable: its key holds no `=` and no line break,
/// and its value holds no line break and does not end in a carriage return.
pub proof fn lemma_save_then_load(pairs: Seq<Pair>)
    requires
        distinct_keys(pairs),
        forall|i: int| 0 <= i < pairs.len() ==> storable(#[trigger] pairs[i]),
    ensures
        parse_pairs(lines_of(pairs_text(pairs))) == pairs,
{
    let lines = pairs.map_values(|p: Pair| pair_line(p));
    assert forall|i: int| 0 <= i < lines.len() implies !(#[trigger] lines[i]).contains('\n') by {
        lemma_pair_line(pairs[i]);
    }
    assert forall|i: int| 0 <= i < lines.len() && (#[trigger] lines[i]).len() > 0 implies
        lines[i].last() != '\r' by {
        lemma_pair_line(pairs[i]);
    }
    lemma_lines_of_terminated(lines);
    lemma_parse_pair_lines(pairs);
}

/// A list stored with `set_list` reads back with `get_list` as its non-empty
/// items, when no item holds `|`.
pub proof fn lemma_list_round_trip(items: Seq<Seq<char>>)
    requires
        forall|i: int| 0 <= i < items.len() ==> !(#[trigger] items[i]).contains('|'),
    ensures
        list_items(join_with(items, '|')) == items.filter(|p: Seq<char>| p.len() > 0),
{
    if items.len() == 0 {
        reveal(Seq::filter);
        let pieces = split_on(Seq::<char>::empty(), '|');
        assert(pieces =~= seq![Seq::<char>::empty()]);
        assert(pieces.drop_last() =~= Seq::<Seq<char>>::empty());
        assert(pieces.drop_last().filter(|p: Seq<char>| p.len() > 0) =~= Seq::<Seq<char>>::empty());
        assert(pieces.filter(|p: Seq<char>| p.len() > 0) =~= Seq::<Seq<char>>::empty());
        assert(items.filter(|p: Seq<char>| p.len() > 0) =~= Seq::<Seq<char>>::empty());
    } else {
        lemma_split_join(items, '|');
    }
}


/// A setting read from a line: its key holds no `=` and no line break, and its
/// value no line break.
pub open spec fn clean(pair: Pair) -> bool {
    &&& !pair.0.contains('=')
    &&& !pair.0.contains('\n')
    &&& !pair.1.contains('\n')
}

/// Storing a clean setting keeps the keys distinct and every setting clean.
proof fn lemma_set_value_props(pairs: Seq<Pair>, key: Seq<char>, value: Seq<char>)
    requires
        distinct_keys(pairs),
        forall|i: int| 0 <= i < pairs.len() ==> clean(#[trigger] pairs[i]),
        clean((key, value)),
    ensures
        distinct_keys(set_value(pairs, key, value)),
        forall|i: int| 0 <= i < set_value(pairs, key, value).len()
            ==> clean(#[trigger] set_value(pairs, key, value)[i]),
{
    lemma_key_index_facts(pairs, key);
    let after = set_value(pairs, key, value);
    let k = key_index(pairs, key);
    assert forall|a: int, b: int| 0 <= a < b < after.len() implies
        (#[trigger] after[a]).0 != (#[trigger] after[b]).0 by {
        if k < pairs.len() {
            assert(after[a].0 == pairs[a].0);
            assert(after[b].0 == pairs[b].0);
        } else if b == pairs.len() {
            assert(after[a] == pairs[a]);
        } else {
            assert(after[a] == pairs[a] && after[b] == pairs[b]);
        }
    }
    assert forall|i: int| 0 <= i < after.len() implies clean(#[trigger] after[i]) by {
        if !(i == k || i == pairs.len()) {
            assert(after[i] == pairs[i]);
        }
    }
}

/// Settings read from lines free of line breaks have distinct, clean keys.
proof fn lemma_parse_pairs_props(lines: Seq<Seq<char>>)
    requires
        forall|i: int| 0 <= i < lines.len() ==> !(#[trigger] lines[i]).contains('\n'),
    ensures
        distinct_keys(parse_pairs(lines)),
        forall|i: int| 0 <= i < parse_pairs(lines).len() ==> clean(#[trigger] parse_pairs(lines)[i]),
    decreases lines.len(),
{
    if lines.len() > 0 {
        let d = lines.drop_last();
        assert forall|i: int| 0 <= i < d.len() implies !(#[trigger] d[i]).contains('\n') by {
            assert(d[i] == lines[i]);
        }
        lemma_parse_pairs_props(d);
        let line = lines.last();
        assert(!line.contains('\n')) by {
            assert(lines[lines.len() - 1] == line);
        }
        if let Some((key, value)) = split_once(line, '=') {
            lemma_split_once_parts(line, '=', '\n');
            lemma_set_value_props(parse_pairs(d), key, value);
        }
    }
}

/// Loading settings from a file that was written from loaded settings gives
/// the same settings again: loading and saving is idempotent, unless a value
/// read back ends in a carriage return (a last line without a line break that
/// ends in `'\r'`).
pub proof fn lemma_load_twice(contents: Seq<char>)
    requires
        forall|i: int| 0 <= i < parse_pairs(lines_of(contents)).len()
            && (#[trigger] parse_pairs(lines_of(contents))[i]).1.len() > 0
            ==> parse_pairs(lines_of(contents))[i].1.last() != '\r',
    ensures
        parse_pairs(lines_of(pairs_text(parse_pairs(lines_of(contents))))) == parse_pairs(lines_of(contents)),
{
    let pairs = parse_pairs(lines_of(contents));
    lemma_lines_free(contents);
    lemma_parse_pairs_props(lines_of(contents));
    assert forall|i: int| 0 <= i < pairs.len() implies storable(#[trigger] pairs[i]) by {
        assert(clean(pairs[i]));
        assert(pairs[i].1.len() > 0 ==> pairs[i].1.last() != '\r');
    }
    lemma_save_then_load(pairs);
}


/// A later `key=value` line overrides what earlier lines stored under the
/// key, and leaves the other keys as they were.
pub proof fn lemma_later_line_wins(lines: Seq<Seq<char>>, line: Seq<char>, other: Seq<char>)
    requires
        split_once(line, '=') is Some,
        other != split_once(line, '=').unwrap().0,
    ensures
        lookup(parse_pairs(lines.push(line)), split_once(line, '=').unwrap().0)
            == Some(split_once(line, '=').unwrap().1),
        lookup(parse_pairs(lines.push(line)), other) == lookup(parse_pairs(lines), other),
{
    let all = lines.push(line);
    assert(all.drop_last() =~= lines);
    assert(all.last() == line);
    let (key, value) = split_once(line, '=').unwrap();
    lemma_get_after_set(parse_pairs(lines), key, value, other);
}

} // verus!
