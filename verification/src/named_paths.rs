use vstd::prelude::*;
use crate::paths::{same_path, path_file_stem, paths_equal, file_stem_of};
use crate::text::{
    texts, split_once, lines_of, terminated, chars_of, lines_of_chars, split_once_chars,
    lemma_first_index, lemma_lines_of_terminated, lemma_lines_free, lemma_split_once_parts,
};
use vstd::string::StringExecFns;

verus! {

/// A remembered list of (display name, path) pairs, such as the source ports
/// or the IWADs, in the order in which they were added. No two entries name
/// the same path.
pub struct NamedPaths {
    entries: Vec<(String, String)>,
}

/// An entry as text: its display name and its path.
pub type Entry = (Seq<char>, Seq<char>);

/// Whether some entry names the same path as `path`.
pub open spec fn has_path(entries: Seq<Entry>, path: Seq<char>) -> bool {
    exists|i: int| 0 <= i < entries.len() && same_path(#[trigger] entries[i].1, path)
}

/// No entry names the same path as an earlier one.
pub open spec fn distinct_paths(entries: Seq<Entry>) -> bool {
    forall|i: int, j: int|
        0 <= i < j < entries.len() ==> !same_path(#[trigger] entries[i].1, #[trigger] entries[j].1)
}

/// The name given to a path whose file stem cannot be had.
pub open spec fn unnamed() -> Seq<char> {
    seq!['u', 'n', 'n', 'a', 'm', 'e', 'd']
}

/// The display name of a path: its file stem, or `unnamed`.
pub open spec fn display_name(path: Seq<char>) -> Seq<char> {
    match path_file_stem(path) {
        Some(stem) => stem,
        None => unnamed(),
    }
}

/// The entries after adding `path`: unchanged when an entry already names the
/// same path, else with a new last entry for it.
pub open spec fn with_path(entries: Seq<Entry>, path: Seq<char>) -> Seq<Entry> {
    if has_path(entries, path) {
        entries
    } else {
        entries.push((display_name(path), path))
    }
}

/// The entries read from the lines of a file: a line `name|path` is split at
/// its first `|`, a line without `|` is skipped, and so is a line whose path
/// an earlier entry already names.
pub open spec fn parse_entries(lines: Seq<Seq<char>>) -> Seq<Entry>
    decreases lines.len(),
{
    if lines.len() == 0 {
        Seq::empty()
    } else {
        let kept = parse_entries(lines.drop_last());
        match split_once(lines.last(), '|') {
            Some((name, path)) => if has_path(kept, path) {
                kept
            } else {
                kept.push((name, path))
            },
            None => kept,
        }
    }
}

/// The line that stores an entry.
pub open spec fn entry_line(entry: Entry) -> Seq<char> {
    entry.0.push('|') + entry.1
}

/// The file contents that store the entries, one line each.
pub open spec fn entries_text(entries: Seq<Entry>) -> Seq<char> {
    terminated(entries.map_values(|e: Entry| entry_line(e)))
}

/// Stored entries as text.
spec fn entries_view(entries: Seq<(String, String)>) -> Seq<Entry> {
    entries.map_values(|e: (String, String)| (e.0@, e.1@))
}

impl View for NamedPaths {
    type V = Seq<Entry>;

    closed spec fn view(&self) -> Seq<Entry> {
        entries_view(self.entries@)
    }
}

/// Whether an entry names the same path as `path`.
fn contains_path(entries: &Vec<(String, String)>, path: &str) -> (found: bool)
    ensures
        found == has_path(entries_view(entries@), path@),
{
    let ghost view = entries_view(entries@);
    let mut i: usize = 0;
    while i < entries.len()
        invariant
            i <= entries.len(),
            view == entries_view(entries@),
            forall|j: int| 0 <= j < i ==> !same_path(#[trigger] view[j].1, path@),
        decreases entries.len() - i,
    {
        assert(view[i as int].1 == entries@[i as int].1@);
        if paths_equal(entries[i].1.as_str(), path) {
            return true;
        }
        i += 1;
    }
    false
}

impl NamedPaths {
    /// The list holds no two entries for the same path.
    #[verifier::type_invariant]
    spec fn wf(self) -> bool {
        distinct_paths(self@)
    }

    /// Reads the list from the contents of its file; duplicates of an earlier
    /// path are dropped.
    pub fn from_contents(contents: &str) -> (list: NamedPaths)
        ensures
            list@ == parse_entries(lines_of(contents@)),
            distinct_paths(list@),
    {
        let chars = chars_of(contents);
        let lines = lines_of_chars(&chars);
        let ghost all = lines_of(contents@);
        let mut entries: Vec<(String, String)> = Vec::new();
        assert(entries_view(entries@) =~= Seq::<Entry>::empty());
        let mut k: usize = 0;
        while k < lines.len()
            invariant
                k <= lines.len(),
                texts(lines@) == all,
                entries_view(entries@) == parse_entries(all.take(k as int)),
                distinct_paths(entries_view(entries@)),
            decreases lines.len() - k,
        {
            let ghost prefix = all.take(k + 1);
            assert(prefix.drop_last() =~= all.take(k as int));
            assert(prefix.last() == lines@[k as int]@);
            let line_chars = chars_of(lines[k].as_str());
            match split_once_chars(&line_chars, '|') {
                Some((name, path)) => {
                    if !contains_path(&entries, path.as_str()) {
                        let ghost before = entries_view(entries@);
                        entries.push((name, path));
                        assert(entries_view(entries@) =~= before.push((name@, path@)));
                    }
                },
                None => {},
            }
            k += 1;
        }
        assert(all.take(k as int) =~= all);
        NamedPaths { entries }
    }

    /// The contents of the list's file: one line `name|path` per entry.
    pub fn to_contents(&self) -> (contents: String)
        ensures
            contents@ == entries_text(self@),
    {
        let mut contents = String::new();
        let mut i: usize = 0;
        while i < self.entries.len()
            invariant
                i <= self.entries.len(),
                self@.len() == self.entries.len(),
                contents@ == entries_text(self@.take(i as int)),
            decreases self.entries.len() - i,
        {
            let ghost prefix = self@.take(i + 1);
            assert(prefix.drop_last() =~= self@.take(i as int));
            assert(prefix.map_values(|e: Entry| entry_line(e)).drop_last()
                =~= self@.take(i as int).map_values(|e: Entry| entry_line(e)));
            assert(self@[i as int] == (self.entries@[i as int].0@, self.entries@[i as int].1@));
            contents.append(self.entries[i].0.as_str());
            contents.append("|");
            contents.append(self.entries[i].1.as_str());
            contents.append("\n");
            proof {
                reveal_strlit("|");
                reveal_strlit("\n");
            }
            i += 1;
            assert(contents@ =~= entries_text(prefix));
        }
        assert(self@.take(i as int) =~= self@);
        contents
    }

    /// Adds `path`, named after its file stem. When an entry already names the
    /// same path nothing changes; the result says whether the list changed.
    pub fn add(&mut self, path: String) -> (added: bool)
        ensures
            distinct_paths(final(self)@),
            final(self)@ == with_path(old(self)@, path@),
            added == !has_path(old(self)@, path@),
    {
        proof { use_type_invariant(&*self); }
        if contains_path(&self.entries, path.as_str()) {
            return false;
        }
        let name = match file_stem_of(path.as_str()) {
            Some(stem) => stem,
            None => {
                let n = String::from_str("unnamed");
                proof { reveal_strlit("unnamed"); }
                assert(n@ =~= unnamed());
                n
            },
        };
        let ghost before = self@;
        let mut entries: Vec<(String, String)> = Vec::new();
        std::mem::swap(&mut entries, &mut self.entries);
        entries.push((name, path));
        assert(entries_view(entries@) =~= before.push((display_name(path@), path@)));
        self.entries = entries;
        true
    }

    /// Removes the entry at `index`; an index past the end changes nothing.
    /// The result says whether the list changed.
    pub fn remove(&mut self, index: usize) -> (removed: bool)
        ensures
            distinct_paths(final(self)@),
            removed == (index < old(self)@.len()),
            removed ==> final(self)@ == old(self)@.remove(index as int),
            !removed ==> final(self)@ == old(self)@,
    {
        proof { use_type_invariant(&*self); }
        if index < self.entries.len() {
            let ghost before = self@;
            let mut entries: Vec<(String, String)> = Vec::new();
            std::mem::swap(&mut entries, &mut self.entries);
            entries.remove(index);
            let ghost after = entries_view(entries@);
            assert(after =~= before.remove(index as int));
            assert forall|i: int, j: int| 0 <= i < j < after.len() implies
                !same_path(#[trigger] after[i].1, #[trigger] after[j].1) by {
                let oi = if i < index { i } else { i + 1 };
                let oj = if j < index { j } else { j + 1 };
                assert(after[i] == before[oi]);
                assert(after[j] == before[oj]);
            }
            self.entries = entries;
            true
        } else {
            false
        }
    }

    /// The display names, in order.
    pub fn names(&self) -> (names: Vec<String>)
        ensures
            texts(names@) == self@.map_values(|e: Entry| e.0),
    {
        let mut names: Vec<String> = Vec::new();
        let mut i: usize = 0;
        while i < self.entries.len()
            invariant
                i <= self.entries.len(),
                self@.len() == self.entries.len(),
                texts(names@) == self@.take(i as int).map_values(|e: Entry| e.0),
            decreases self.entries.len() - i,
        {
            assert(self@[i as int] == (self.entries@[i as int].0@, self.entries@[i as int].1@));
            let name = self.entries[i].0.clone();
            let ghost before = texts(names@);
            names.push(name);
            assert(texts(names@) =~= before.push(name@));
            i += 1;
            assert(texts(names@) =~= self@.take(i as int).map_values(|e: Entry| e.0));
        }
        assert(self@.take(i as int) =~= self@);
        names
    }

    /// The number of entries.
    pub fn len(&self) -> (n: usize)
        ensures
            n == self@.len(),
    {
        self.entries.len()
    }

    /// The path of the entry at `index`, if there is one.
    pub fn path_at(&self, index: usize) -> (path: Option<&String>)
        ensures
            match path {
                Some(p) => index < self@.len() && p@ == self@[index as int].1,
                None => index >= self@.len(),
            },
    {
        if index < self.entries.len() {
            assert(self@[index as int] == (self.entries@[index as int].0@, self.entries@[index as int].1@));
            Some(&self.entries[index].1)
        } else {
            None
        }
    }
}


/// Adding a path a second time changes nothing: after an `add`, the list
/// names the path.
pub proof fn lemma_add_twice(entries: Seq<Entry>, path: Seq<char>)
    ensures
        has_path(with_path(entries, path), path),
        with_path(with_path(entries, path), path) == with_path(entries, path),
{
    let once = with_path(entries, path);
    if !has_path(entries, path) {
        assert(once[once.len() - 1].1 == path);
        assert(same_path(once[once.len() - 1].1, path));
    }
}

/// The line of an entry splits back into its name and path at its first `|`,
/// when the name holds no `|`.
proof fn lemma_entry_line_splits(entry: Entry)
    requires
        !entry.0.contains('|'),
    ensures
        split_once(entry_line(entry), '|') == Some(entry),
{
    let line = entry_line(entry);
    let n = entry.0.len() as int;
    assert forall|j: int| 0 <= j < n implies line[j] != '|' by {
        assert(line[j] == entry.0[j]);
        if line[j] == '|' {
            assert(entry.0.contains('|'));
        }
    }
    assert(line[n] == '|');
    lemma_first_index(line, '|', n);
    assert(line.take(n) =~= entry.0);
    assert(line.skip(n + 1) =~= entry.1);
}

/// An entry can be stored on one line and read back from it.
pub open spec fn storable(entry: Entry) -> bool {
    &&& !entry.0.contains('|')
    &&& !entry.0.contains('\n')
    &&& !entry.1.contains('\n')
    &&& (entry.1.len() > 0 ==> entry.1.last() != '\r')
}

proof fn lemma_entry_line_is_a_line(entry: Entry)
    requires
        storable(entry),
    ensures
        !entry_line(entry).contains('\n'),
        entry_line(entry).len() > 0 && entry_line(entry).last() != '\r',
{
    let line = entry_line(entry);
    let n = entry.0.len() as int;
    if line.contains('\n') {
        let j = choose|j: int| 0 <= j < line.len() && line[j] == '\n';
        if j < n {
            assert(entry.0[j] == '\n');
        } else if j > n {
            assert(entry.1[j - n - 1] == '\n');
        }
        assert(false);
    }
    if entry.1.len() > 0 {
        assert(line.last() == entry.1.last());
    } else {
        assert(line.last() == '|');
    }
}

/// Reading entries back from their stored lines gives the entries, when no
/// two name the same path and each is storable.
proof fn lemma_parse_entry_lines(entries: Seq<Entry>)
    requires
        distinct_paths(entries),
        forall|i: int| 0 <= i < entries.len() ==> storable(#[trigger] entries[i]),
    ensures
        parse_entries(entries.map_values(|e: Entry| entry_line(e))) == entries,
    decreases entries.len(),
{
    let lines = entries.map_values(|e: Entry| entry_line(e));
    if entries.len() == 0 {
        assert(lines =~= Seq::<Seq<char>>::empty());
    } else {
        let d = entries.drop_last();
        let last = entries.last();
        assert(storable(entries[entries.len() - 1]));
        assert(distinct_paths(d));
        assert forall|i: int| 0 <= i < d.len() implies storable(#[trigger] d[i]) by {
            assert(d[i] == entries[i]);
        }
        lemma_parse_entry_lines(d);
        assert(lines.drop_last() =~= d.map_values(|e: Entry| entry_line(e)));
        lemma_entry_line_splits(last);
        assert(!has_path(d, last.1)) by {
            if has_path(d, last.1) {
                let i = choose|i: int| 0 <= i < d.len() && same_path(#[trigger] d[i].1, last.1);
                assert(d[i] == entries[i]);
                assert(!same_path(entries[i].1, entries[entries.len() - 1].1));
            }
        }
        assert(parse_entries(lines) =~= d.push(last));
    }
}

/// Saving a list and reading the saved contents back gives the same entries,
/// when each entry is storable: its name holds no `|` and no line break, and
/// its path holds no line break and does not end in a carriage return.
pub proof fn lemma_save_then_load(entries: Seq<Entry>)
    requires
        distinct_paths(entries),
        forall|i: int| 0 <= i < entries.len() ==> storable(#[trigger] entries[i]),
    ensures
        parse_entries(lines_of(entries_text(entries))) == entries,
{
    let lines = entries.map_values(|e: Entry| entry_line(e));
    assert forall|i: int| 0 <= i < lines.len() implies !(#[trigger] lines[i]).contains('\n') by {
        lemma_entry_line_is_a_line(entries[i]);
    }
    assert forall|i: int| 0 <= i < lines.len() && (#[trigger] lines[i]).len() > 0 implies
        lines[i].last() != '\r' by {
        lemma_entry_line_is_a_line(entries[i]);
    }
    lemma_lines_of_terminated(lines);
    lemma_parse_entry_lines(entries);
}


/// Entries read from lines free of line breaks name distinct paths, and none
/// has a `|` in its name or a line break in its name or path.
proof fn lemma_parse_entries_props(lines: Seq<Seq<char>>)
    requires
        forall|i: int| 0 <= i < lines.len() ==> !(#[trigger] lines[i]).contains('\n'),
    ensures
        distinct_paths(parse_entries(lines)),
        forall|i: int| 0 <= i < parse_entries(lines).len() ==> {
            &&& !(#[trigger] parse_entries(lines)[i]).0.contains('|')
            &&& !parse_entries(lines)[i].0.contains('\n')
            &&& !parse_entries(lines)[i].1.contains('\n')
        },
    decreases lines.len(),
{
    if lines.len() > 0 {
        let d = lines.drop_last();
        assert forall|i: int| 0 <= i < d.len() implies !(#[trigger] d[i]).contains('\n') by {
            assert(d[i] == lines[i]);
        }
        lemma_parse_entries_props(d);
        let kept = parse_entries(d);
        let line = lines.last();
        assert(!line.contains('\n')) by {
            assert(lines[lines.len() - 1] == line);
        }
        if let Some((name, path)) = split_once(line, '|') {
            if !has_path(kept, path) {
                lemma_split_once_parts(line, '|', '\n');
                let after = kept.push((name, path));
                assert(parse_entries(lines) == after);
                assert forall|i: int, j: int| 0 <= i < j < after.len() implies
                    !same_path(#[trigger] after[i].1, #[trigger] after[j].1) by {
                    if j == kept.len() {
                        assert(after[i] == kept[i]);
                    } else {
                        assert(after[i] == kept[i] && after[j] == kept[j]);
                    }
                }
                assert forall|i: int| 0 <= i < after.len() implies {
                    &&& !(#[trigger] after[i]).0.contains('|')
                    &&& !after[i].0.contains('\n')
                    &&& !after[i].1.contains('\n')
                } by {
                    if i < kept.len() {
                        assert(after[i] == kept[i]);
                    }
                }
            }
        }
    }
}

/// Loading a list whose file was written by loading it before gives the same
/// entries again, so the rewrite on load changes the file only once: loading
/// is idempotent, unless a path read back ends in a carriage return (a last
/// line without a line break that ends in `'\r'`).
pub proof fn lemma_load_twice(contents: Seq<char>)
    requires
        forall|i: int| 0 <= i < parse_entries(lines_of(contents)).len()
            && (#[trigger] parse_entries(lines_of(contents))[i]).1.len() > 0
            ==> parse_entries(lines_of(contents))[i].1.last() != '\r',
    ensures
        parse_entries(lines_of(entries_text(parse_entries(lines_of(contents)))))
            == parse_entries(lines_of(contents)),
{
    let entries = parse_entries(lines_of(contents));
    lemma_lines_free(contents);
    lemma_parse_entries_props(lines_of(contents));
    assert forall|i: int| 0 <= i < entries.len() implies storable(#[trigger] entries[i]) by {
        assert(entries[i].1.len() > 0 ==> entries[i].1.last() != '\r');
    }
    lemma_save_then_load(entries);
}

} // verus!
