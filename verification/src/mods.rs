use vstd::prelude::*;
use crate::paths::{path_extension, path_file_name, lowercase, extension_of, file_name_of, to_lower};
use crate::text::{texts, chars_of, join_with};
use crate::settings::{list_items, lemma_list_round_trip};

verus! {

/// A mod or map file found in a folder: its file name, its full path, and
/// whether it is switched on for the next launch.
pub struct ModItem {
    pub name: String,
    pub path: String,
    pub enabled: bool,
}

/// A `ModItem` as text.
pub struct ModItemView {
    pub name: Seq<char>,
    pub path: Seq<char>,
    pub enabled: bool,
}

impl View for ModItem {
    type V = ModItemView;

    open spec fn view(&self) -> ModItemView {
        ModItemView { name: self.name@, path: self.path@, enabled: self.enabled }
    }
}

/// Each item as text.
pub open spec fn item_views(items: Seq<ModItem>) -> Seq<ModItemView> {
    items.map_values(|it: ModItem| it@)
}

/// Whether a lowercased extension marks a file that the launcher offers:
/// `wad`, `pk3`, `pk7` or `zip`.
pub open spec fn is_mod_extension(ext: Seq<char>) -> bool {
    ||| ext == seq!['w', 'a', 'd']
    ||| ext == seq!['p', 'k', '3']
    ||| ext == seq!['p', 'k', '7']
    ||| ext == seq!['z', 'i', 'p']
}

/// The item offered for a file, if its extension marks a mod or map: named
/// after the file, switched off.
pub open spec fn candidate(path: Seq<char>) -> Option<ModItemView> {
    match path_extension(path) {
        Some(ext) => if is_mod_extension(lowercase(ext)) {
            match path_file_name(path) {
                Some(name) => Some(ModItemView { name, path, enabled: false }),
                None => None,
            }
        } else {
            None
        },
        None => None,
    }
}

/// The items offered for the files of a folder, in the order of the files.
pub open spec fn candidates(paths: Seq<Seq<char>>) -> Seq<ModItemView>
    decreases paths.len(),
{
    if paths.len() == 0 {
        Seq::empty()
    } else {
        match candidate(paths.last()) {
            Some(item) => candidates(paths.drop_last()).push(item),
            None => candidates(paths.drop_last()),
        }
    }
}

/// Text order as `str`'s `<=` has it: character by character, a proper
/// prefix first.
pub open spec fn text_le(a: Seq<char>, b: Seq<char>) -> bool
    decreases a.len(),
{
    if a.len() == 0 {
        true
    } else if b.len() == 0 {
        false
    } else if a[0] != b[0] {
        (a[0] as int) < (b[0] as int)
    } else {
        text_le(a.drop_first(), b.drop_first())
    }
}

pub proof fn lemma_text_le_reflexive(a: Seq<char>)
    ensures
        text_le(a, a),
    decreases a.len(),
{
    if a.len() > 0 {
        lemma_text_le_reflexive(a.drop_first());
    }
}

pub proof fn lemma_text_le_total(a: Seq<char>, b: Seq<char>)
    ensures
        text_le(a, b) || text_le(b, a),
    decreases a.len(),
{
    if a.len() > 0 && b.len() > 0 && a[0] == b[0] {
        lemma_text_le_total(a.drop_first(), b.drop_first());
    }
    if a.len() > 0 && b.len() > 0 && a[0] != b[0] {
        assert((a[0] as int) != (b[0] as int));
    }
}

pub proof fn lemma_text_le_transitive(a: Seq<char>, b: Seq<char>, c: Seq<char>)
    requires
        text_le(a, b),
        text_le(b, c),
    ensures
        text_le(a, c),
    decreases a.len(),
{
    if a.len() > 0 && b.len() > 0 && c.len() > 0 {
        if a[0] == b[0] && b[0] == c[0] {
            lemma_text_le_transitive(a.drop_first(), b.drop_first(), c.drop_first());
        }
    }
}

/// The key by which items are sorted: the lowercased name.
pub open spec fn sort_key(item: ModItemView) -> Seq<char> {
    lowercase(item.name)
}

/// The items whose key is `key`, in order.
pub open spec fn with_key(items: Seq<ModItemView>, key: Seq<char>) -> Seq<ModItemView> {
    items.filter(|x: ModItemView| sort_key(x) == key)
}

/// The items are in key order.
pub open spec fn sorted_by_key(items: Seq<ModItemView>) -> bool {
    forall|i: int, j: int|
        0 <= i < j < items.len() ==> text_le(sort_key(#[trigger] items[i]), sort_key(#[trigger] items[j]))
}

/// `sorted` is a stable sort of `items` by key: in key order, and the items of
/// each key stand in the order they had.
pub open spec fn stable_sort_of(sorted: Seq<ModItemView>, items: Seq<ModItemView>) -> bool {
    &&& sorted_by_key(sorted)
    &&& forall|key: Seq<char>| #[trigger] with_key(sorted, key) == with_key(items, key)
}

/// Whether `a <= b` in text order.
fn text_le_exec(a: &Vec<char>, b: &Vec<char>) -> (le: bool)
    ensures
        le == text_le(a@, b@),
{
    let mut i: usize = 0;
    assert(a@.skip(0) =~= a@);
    assert(b@.skip(0) =~= b@);
    while i < a.len() && i < b.len()
        invariant
            i <= a.len(),
            i <= b.len(),
            text_le(a@, b@) == text_le(a@.skip(i as int), b@.skip(i as int)),
        decreases a.len() - i,
    {
        let ghost sa = a@.skip(i as int);
        let ghost sb = b@.skip(i as int);
        assert(sa[0] == a@[i as int]);
        assert(sb[0] == b@[i as int]);
        if a[i] != b[i] {
            return a[i] < b[i];
        }
        assert(sa.drop_first() =~= a@.skip(i + 1));
        assert(sb.drop_first() =~= b@.skip(i + 1));
        i += 1;
    }
    i == a.len()
}

/// Whether the lowercased extension marks a mod or map file.
fn is_mod_extension_exec(ext: &String) -> (is_mod: bool)
    ensures
        is_mod == is_mod_extension(ext@),
{
    let c = chars_of(ext.as_str());
    if c.len() != 3 {
        return false;
    }
    let r = (c[0] == 'w' && c[1] == 'a' && c[2] == 'd')
        || (c[0] == 'p' && c[1] == 'k' && (c[2] == '3' || c[2] == '7'))
        || (c[0] == 'z' && c[1] == 'i' && c[2] == 'p');
    assert(r ==> (c@ =~= seq!['w', 'a', 'd'] || c@ =~= seq!['p', 'k', '3'] || c@ =~= seq!['p', 'k', '7']
        || c@ =~= seq!['z', 'i', 'p']));
    r
}


/// The items of one key in a single item.
proof fn lemma_with_key_single(x: ModItemView, key: Seq<char>)
    ensures
        with_key(seq![x], key) == if sort_key(x) == key { seq![x] } else { Seq::empty() },
{
    reveal_with_fuel(Seq::filter, 2);
    assert(seq![x].drop_last() =~= Seq::<ModItemView>::empty());
}

/// No item past `pos` has a key at or below `sort_key(x)`, so none has the key
/// of `x`.
proof fn lemma_with_key_tail_empty(tail: Seq<ModItemView>, x: ModItemView)
    requires
        forall|t: int| 0 <= t < tail.len() ==> !text_le(sort_key(#[trigger] tail[t]), sort_key(x)),
    ensures
        with_key(tail, sort_key(x)) == Seq::<ModItemView>::empty(),
{
    let key = sort_key(x);
    lemma_text_le_reflexive(key);
    let pred = |y: ModItemView| sort_key(y) == key;
    assert(tail.all(|y: ModItemView| !pred(y))) by {
        assert forall|t: int| 0 <= t < tail.len() implies !pred(tail[t]) by {
            assert(!text_le(sort_key(tail[t]), key));
        }
    }
    tail.lemma_all_neg_filter_empty(pred);
    assert(with_key(tail, key) =~= Seq::<ModItemView>::empty());
}

/// Inserting an item after all items with keys at or below its own keeps the
/// order sorted, and adds the item last among the items of its key.
proof fn lemma_insert_sorted(items: Seq<ModItemView>, pos: int, x: ModItemView)
    requires
        sorted_by_key(items),
        0 <= pos <= items.len(),
        forall|t: int| 0 <= t < pos ==> text_le(sort_key(#[trigger] items[t]), sort_key(x)),
        forall|t: int| pos <= t < items.len() ==> !text_le(sort_key(#[trigger] items[t]), sort_key(x)),
    ensures
        sorted_by_key(items.insert(pos, x)),
        forall|key: Seq<char>| #[trigger] with_key(items.insert(pos, x), key)
            == if sort_key(x) == key { with_key(items, key).push(x) } else { with_key(items, key) },
{
    let after = items.insert(pos, x);
    assert forall|i: int, j: int| 0 <= i < j < after.len() implies
        text_le(sort_key(#[trigger] after[i]), sort_key(#[trigger] after[j])) by {
        if i < pos {
            assert(after[i] == items[i]);
            if j == pos {
                assert(after[j] == x);
            } else if j < pos {
                assert(after[j] == items[j]);
            } else {
                assert(after[j] == items[j - 1]);
                lemma_text_le_total(sort_key(items[j - 1]), sort_key(x));
                lemma_text_le_transitive(sort_key(items[i]), sort_key(x), sort_key(items[j - 1]));
            }
        } else if i == pos {
            assert(after[i] == x);
            assert(after[j] == items[j - 1]);
            lemma_text_le_total(sort_key(items[j - 1]), sort_key(x));
        } else {
            assert(after[i] == items[i - 1]);
            assert(after[j] == items[j - 1]);
        }
    }
    let head = items.take(pos);
    let tail = items.skip(pos);
    assert(items =~= head + tail);
    assert(after =~= head + seq![x] + tail);
    assert forall|key: Seq<char>| #[trigger] with_key(after, key)
        == if sort_key(x) == key { with_key(items, key).push(x) } else { with_key(items, key) } by {
        let pred = |y: ModItemView| sort_key(y) == key;
        Seq::filter_distributes_over_add(head, tail, pred);
        Seq::filter_distributes_over_add(head, seq![x], pred);
        Seq::filter_distributes_over_add(head + seq![x], tail, pred);
        lemma_with_key_single(x, key);
        if sort_key(x) == key {
            assert forall|t: int| 0 <= t < tail.len() implies
                !text_le(sort_key(#[trigger] tail[t]), sort_key(x)) by {
                assert(tail[t] == items[pos + t]);
            }
            lemma_with_key_tail_empty(tail, x);
            assert(with_key(after, key) =~= with_key(items, key).push(x));
        } else {
            assert(with_key(after, key) =~= with_key(items, key));
        }
    }
}


/// Each key belongs to the item at the same index.
spec fn keys_match(items: Seq<ModItem>, keys: Seq<Vec<char>>) -> bool {
    &&& items.len() == keys.len()
    &&& forall|j: int| 0 <= j < keys.len() ==> (#[trigger] keys[j])@ == sort_key(items[j]@)
}

/// Inserts `item` after every item whose key is at or below its own.
fn insert_sorted(items: &mut Vec<ModItem>, keys: &mut Vec<Vec<char>>, item: ModItem, key: Vec<char>)
    requires
        keys_match(old(items)@, old(keys)@),
        sorted_by_key(item_views(old(items)@)),
        key@ == sort_key(item@),
    ensures
        keys_match(final(items)@, final(keys)@),
        sorted_by_key(item_views(final(items)@)),
        forall|k: Seq<char>| #[trigger] with_key(item_views(final(items)@), k)
            == if sort_key(item@) == k {
                with_key(item_views(old(items)@), k).push(item@)
            } else {
                with_key(item_views(old(items)@), k)
            },
{
    let ghost before = item_views(items@);
    let mut pos: usize = 0;
    while pos < keys.len() && text_le_exec(&keys[pos], &key)
        invariant
            pos <= keys.len(),
            keys_match(items@, keys@),
            before == item_views(items@),
            forall|t: int| 0 <= t < pos ==> text_le(sort_key(#[trigger] before[t]), key@),
        decreases keys.len() - pos,
    {
        assert(keys@[pos as int]@ == sort_key(before[pos as int]));
        pos += 1;
    }
    proof {
        if pos < keys.len() {
            assert(keys@[pos as int]@ == sort_key(before[pos as int]));
            assert forall|t: int| pos <= t < before.len() implies
                !text_le(sort_key(#[trigger] before[t]), key@) by {
                if t > pos && text_le(sort_key(before[t]), key@) {
                    lemma_text_le_transitive(sort_key(before[pos as int]), sort_key(before[t]), key@);
                }
            }
        }
        lemma_insert_sorted(before, pos as int, item@);
    }
    let ghost x = item@;
    items.insert(pos, item);
    keys.insert(pos, key);
    assert(item_views(items@) =~= before.insert(pos as int, x));
    assert forall|j: int| 0 <= j < keys@.len() implies (#[trigger] keys@[j])@ == sort_key(items@[j]@) by {
        assert(items@[j]@ == item_views(items@)[j]);
    }
}

/// The items offered for the files at `paths`: each file whose extension,
/// lowercased, is `wad`, `pk3`, `pk7` or `zip`, named after the file and
/// switched off, sorted by lowercased name; files of equal lowercased names
/// keep their order.
pub fn select_mod_items(paths: &Vec<String>) -> (items: Vec<ModItem>)
    ensures
        stable_sort_of(item_views(items@), candidates(texts(paths@))),
{
    let mut items: Vec<ModItem> = Vec::new();
    let mut keys: Vec<Vec<char>> = Vec::new();
    let mut i: usize = 0;
    assert(item_views(items@) =~= Seq::<ModItemView>::empty());
    assert(texts(paths@).take(0) =~= Seq::<Seq<char>>::empty());
    while i < paths.len()
        invariant
            i <= paths.len(),
            keys_match(items@, keys@),
            stable_sort_of(item_views(items@), candidates(texts(paths@).take(i as int))),
        decreases paths.len() - i,
    {
        let ghost prefix = texts(paths@).take(i + 1);
        let ghost earlier = candidates(texts(paths@).take(i as int));
        assert(prefix.drop_last() =~= texts(paths@).take(i as int));
        assert(prefix.last() == paths@[i as int]@);
        let path = &paths[i];
        let mut found: Option<ModItem> = None;
        if let Some(ext) = extension_of(path.as_str()) {
            let lower = to_lower(ext.as_str());
            if is_mod_extension_exec(&lower) {
                if let Some(name) = file_name_of(path.as_str()) {
                    found = Some(ModItem { name, path: path.clone(), enabled: false });
                }
            }
        }
        match found {
            Some(item) => {
                assert(candidates(prefix) == earlier.push(item@));
                let key = chars_of(to_lower(item.name.as_str()).as_str());
                insert_sorted(&mut items, &mut keys, item, key);
                assert forall|k: Seq<char>| #[trigger] with_key(item_views(items@), k)
                    == with_key(candidates(prefix), k) by {
                    let pred = |y: ModItemView| sort_key(y) == k;
                    Seq::filter_distributes_over_add(earlier, seq![item@], pred);
                    lemma_with_key_single(item@, k);
                    assert(earlier.push(item@) =~= earlier + seq![item@]);
                    assert(with_key(earlier, k) + Seq::<ModItemView>::empty() =~= with_key(earlier, k));
                    assert(with_key(earlier, k) + seq![item@] =~= with_key(earlier, k).push(item@));
                }
            },
            None => {
                assert(candidates(prefix) == earlier);
            },
        }
        i += 1;
    }
    assert(texts(paths@).take(i as int) =~= texts(paths@));
    items
}


/// The item after switching it on when its name is among `names`; an item
/// already switched on stays on.
pub open spec fn with_enabled(item: ModItemView, names: Seq<Seq<char>>) -> ModItemView {
    ModItemView { name: item.name, path: item.path, enabled: item.enabled || names.contains(item.name) }
}

/// The items after switching on those whose name is among `names`.
pub open spec fn applied(items: Seq<ModItemView>, names: Seq<Seq<char>>) -> Seq<ModItemView> {
    items.map_values(|it: ModItemView| with_enabled(it, names))
}

/// Switches on each item whose name is among `enabled_names`, as after a fresh
/// scan, which starts every item switched off.
pub fn apply_enabled(items: &mut Vec<ModItem>, enabled_names: &[String])
    ensures
        item_views(final(items)@) == applied(item_views(old(items)@), texts(enabled_names@)),
{
    let ghost names = texts(enabled_names@);
    let ghost start = item_views(items@);
    let mut i: usize = 0;
    while i < items.len()
        invariant
            i <= items.len(),
            names == texts(enabled_names@),
            items@.len() == start.len(),
            forall|j: int| 0 <= j < i ==> (#[trigger] items@[j])@ == with_enabled(start[j], names),
            forall|j: int| i <= j < items@.len() ==> (#[trigger] items@[j])@ == start[j],
        decreases items.len() - i,
    {
        assert(items@[i as int]@ == start[i as int]);
        let mut found = false;
        let mut k: usize = 0;
        while k < enabled_names.len()
            invariant
                k <= enabled_names.len(),
                i < items.len(),
                names == texts(enabled_names@),
                found == exists|t: int| 0 <= t < k && names[t] == items@[i as int].name@,
            decreases enabled_names.len() - k,
        {
            assert(names[k as int] == enabled_names@[k as int]@);
            if enabled_names[k] == items[i].name {
                found = true;
            }
            k += 1;
        }
        assert(found == names.contains(items@[i as int].name@)) by {
            if names.contains(items@[i as int].name@) {
                let t = choose|t: int| 0 <= t < names.len() && names[t] == items@[i as int].name@;
                assert(0 <= t < k);
            }
        }
        if found && !items[i].enabled {
            let item = ModItem { name: items[i].name.clone(), path: items[i].path.clone(), enabled: true };
            items.set(i, item);
        }
        i += 1;
    }
    assert(item_views(items@) =~= applied(start, names));
}

/// The names of the items that are switched on, in order.
pub open spec fn enabled_names_of(items: Seq<ModItemView>) -> Seq<Seq<char>>
    decreases items.len(),
{
    if items.len() == 0 {
        Seq::empty()
    } else if items.last().enabled {
        enabled_names_of(items.drop_last()).push(items.last().name)
    } else {
        enabled_names_of(items.drop_last())
    }
}

/// The paths of the items that are switched on, in order.
pub open spec fn enabled_paths_of(items: Seq<ModItemView>) -> Seq<Seq<char>>
    decreases items.len(),
{
    if items.len() == 0 {
        Seq::empty()
    } else if items.last().enabled {
        enabled_paths_of(items.drop_last()).push(items.last().path)
    } else {
        enabled_paths_of(items.drop_last())
    }
}

/// The names of the items that are switched on, to be remembered.
pub fn enabled_names(items: &[ModItem]) -> (names: Vec<String>)
    ensures
        texts(names@) == enabled_names_of(item_views(items@)),
{
    let mut names: Vec<String> = Vec::new();
    let mut i: usize = 0;
    while i < items.len()
        invariant
            i <= items.len(),
            texts(names@) == enabled_names_of(item_views(items@).take(i as int)),
        decreases items.len() - i,
    {
        let ghost prefix = item_views(items@).take(i + 1);
        assert(prefix.drop_last() =~= item_views(items@).take(i as int));
        assert(prefix.last() == items@[i as int]@);
        if items[i].enabled {
            let ghost before = texts(names@);
            let name = items[i].name.clone();
            names.push(name);
            assert(texts(names@) =~= before.push(name@));
        }
        i += 1;
    }
    assert(item_views(items@).take(i as int) =~= item_views(items@));
    names
}

/// Appends the paths of the items that are switched on to `paths`.
pub fn push_enabled_paths(items: &[ModItem], paths: &mut Vec<String>)
    ensures
        texts(final(paths)@) == texts(old(paths)@) + enabled_paths_of(item_views(items@)),
{
    let ghost start = texts(paths@);
    let mut i: usize = 0;
    assert(start + enabled_paths_of(item_views(items@).take(0)) =~= start);
    while i < items.len()
        invariant
            i <= items.len(),
            texts(paths@) == start + enabled_paths_of(item_views(items@).take(i as int)),
        decreases items.len() - i,
    {
        let ghost prefix = item_views(items@).take(i + 1);
        assert(prefix.drop_last() =~= item_views(items@).take(i as int));
        assert(prefix.last() == items@[i as int]@);
        if items[i].enabled {
            let ghost before = texts(paths@);
            let path = items[i].path.clone();
            paths.push(path);
            assert(texts(paths@) =~= before.push(path@));
            assert(start + enabled_paths_of(prefix) =~= before.push(path@));
        }
        i += 1;
    }
    assert(item_views(items@).take(i as int) =~= item_views(items@));
}


/// A name is among the enabled names exactly when some item switched on has it.
proof fn lemma_enabled_names_contains(items: Seq<ModItemView>, name: Seq<char>)
    ensures
        enabled_names_of(items).contains(name)
            <==> exists|j: int| 0 <= j < items.len() && (#[trigger] items[j]).enabled && items[j].name == name,
    decreases items.len(),
{
    if items.len() > 0 {
        let d = items.drop_last();
        let last = items.last();
        let e = enabled_names_of(items);
        let ed = enabled_names_of(d);
        lemma_enabled_names_contains(d, name);
        assert(items[items.len() - 1] == last);
        assert forall|t: int| 0 <= t < ed.len() implies e[t] == ed[t] by {
            if last.enabled {
                assert(e == ed.push(last.name));
            }
        }
        if e.contains(name) {
            let t = choose|t: int| 0 <= t < e.len() && e[t] == name;
            if t < ed.len() {
                assert(ed.contains(name));
                let j = choose|j: int| 0 <= j < d.len() && (#[trigger] d[j]).enabled && d[j].name == name;
                assert(items[j] == d[j]);
            } else {
                assert(last.enabled);
                assert(e == ed.push(last.name));
                assert(items[items.len() - 1].enabled && items[items.len() - 1].name == name);
            }
        }
        if exists|j: int| 0 <= j < items.len() && (#[trigger] items[j]).enabled && items[j].name == name {
            let j = choose|j: int| 0 <= j < items.len() && (#[trigger] items[j]).enabled && items[j].name == name;
            if j < d.len() {
                assert(d[j] == items[j]);
                assert(ed.contains(name));
                let t = choose|t: int| 0 <= t < ed.len() && ed[t] == name;
                assert(e[t] == name);
            } else {
                assert(e == ed.push(last.name));
                assert(e[ed.len() as int] == name);
            }
            assert(e.contains(name));
        }
    }
}

/// The same item, switched off, as a fresh scan finds it.
pub open spec fn switched_off(item: ModItemView) -> ModItemView {
    ModItemView { name: item.name, path: item.path, enabled: false }
}

/// Remembering the names of the items switched on, as a setting, and switching
/// them on again after a rescan restores every item's switch, when the names
/// are unique, not empty and hold no `|`.
pub proof fn lemma_remembered_switches_restore(items: Seq<ModItemView>)
    requires
        forall|i: int| 0 <= i < items.len() ==> (#[trigger] items[i]).name.len() > 0,
        forall|i: int| 0 <= i < items.len() ==> !(#[trigger] items[i]).name.contains('|'),
        forall|i: int, j: int| 0 <= i < j < items.len() ==> (#[trigger] items[i]).name != (#[trigger] items[j]).name,
    ensures
        forall|i: int| 0 <= i < items.len() ==> with_enabled(
            switched_off(#[trigger] items[i]),
            list_items(join_with(enabled_names_of(items), '|')),
        ) == items[i],
{
    let names = enabled_names_of(items);
    assert forall|t: int| 0 <= t < names.len() implies
        (#[trigger] names[t]).len() > 0 && !names[t].contains('|') by {
        assert(names.contains(names[t]));
        lemma_enabled_names_contains(items, names[t]);
    }
    lemma_list_round_trip(names);
    let keep = |p: Seq<char>| p.len() > 0;
    assert(names.filter(keep) == names) by {
        lemma_filter_keeps_all(names, keep);
    }
    assert forall|i: int| 0 <= i < items.len() implies with_enabled(
        switched_off(#[trigger] items[i]),
        list_items(join_with(names, '|')),
    ) == items[i] by {
        lemma_enabled_names_contains(items, items[i].name);
        if names.contains(items[i].name) {
            let j = choose|j: int| 0 <= j < items.len() && (#[trigger] items[j]).enabled && items[j].name == items[i].name;
            if j != i {
                if j < i {
                    assert(items[j].name != items[i].name);
                } else {
                    assert(items[i].name != items[j].name);
                }
            }
        }
    }
}

/// Filtering by a predicate that every element meets keeps them all.
proof fn lemma_filter_keeps_all(s: Seq<Seq<char>>, pred: spec_fn(Seq<char>) -> bool)
    requires
        forall|t: int| 0 <= t < s.len() ==> pred(#[trigger] s[t]),
    ensures
        s.filter(pred) == s,
    decreases s.len(),
{
    reveal(Seq::filter);
    if s.len() > 0 {
        let d = s.drop_last();
        assert forall|t: int| 0 <= t < d.len() implies pred(#[trigger] d[t]) by {
            assert(d[t] == s[t]);
        }
        lemma_filter_keeps_all(d, pred);
        assert(pred(s[s.len() - 1]));
        assert(s.filter(pred) =~= s);
    } else {
        assert(s.filter(pred) =~= s);
    }
}


pub proof fn lemma_text_le_antisymmetric(a: Seq<char>, b: Seq<char>)
    requires
        text_le(a, b),
        text_le(b, a),
    ensures
        a == b,
    decreases a.len(),
{
    if a.len() > 0 && b.len() > 0 {
        if a[0] == b[0] {
            lemma_text_le_antisymmetric(a.drop_first(), b.drop_first());
            assert(a =~= seq![a[0]] + a.drop_first());
            assert(b =~= seq![b[0]] + b.drop_first());
        }
    } else {
        assert(a =~= b);
    }
}

/// The items of one key, split off the last item.
proof fn lemma_with_key_last(items: Seq<ModItemView>, key: Seq<char>)
    requires
        items.len() > 0,
    ensures
        with_key(items, key) == if sort_key(items.last()) == key {
            with_key(items.drop_last(), key).push(items.last())
        } else {
            with_key(items.drop_last(), key)
        },
{
    reveal(Seq::filter);
}

/// Every item of one key is an item of the whole sequence.
proof fn lemma_with_key_member(items: Seq<ModItemView>, key: Seq<char>, x: ModItemView)
    requires
        with_key(items, key).contains(x),
    ensures
        items.contains(x),
    decreases items.len(),
{
    if items.len() == 0 {
        reveal(Seq::filter);
    } else {
        let d = items.drop_last();
        lemma_with_key_last(items, key);
        let w = with_key(items, key);
        let t = choose|t: int| 0 <= t < w.len() && w[t] == x;
        if sort_key(items.last()) == key && t == w.len() - 1 {
            assert(items[items.len() - 1] == x);
        } else {
            assert(with_key(d, key)[t] == x);
            lemma_with_key_member(d, key, x);
            let u = choose|u: int| 0 <= u < d.len() && d[u] == x;
            assert(items[u] == x);
        }
    }
}

/// An item of a sequence sorted by key has a key at or below that of the last item.
proof fn lemma_key_le_last(items: Seq<ModItemView>, x: ModItemView)
    requires
        sorted_by_key(items),
        items.contains(x),
    ensures
        text_le(sort_key(x), sort_key(items.last())),
{
    let m = choose|m: int| 0 <= m < items.len() && items[m] == x;
    if m < items.len() - 1 {
        assert(text_le(sort_key(items[m]), sort_key(items[items.len() - 1])));
    } else {
        lemma_text_le_reflexive(sort_key(x));
    }
}

/// A stable sort is determined by what it sorts: two sequences sorted by key,
/// with the same items of each key in the same order, are equal.
pub proof fn lemma_stable_sort_unique(a: Seq<ModItemView>, b: Seq<ModItemView>)
    requires
        sorted_by_key(a),
        sorted_by_key(b),
        forall|key: Seq<char>| #[trigger] with_key(a, key) == with_key(b, key),
    ensures
        a == b,
    decreases a.len() + b.len(),
{
    if a.len() == 0 || b.len() == 0 {
        reveal(Seq::filter);
        if a.len() > 0 {
            let k = sort_key(a.last());
            lemma_with_key_last(a, k);
            assert(with_key(b, k).len() == 0);
        }
        if b.len() > 0 {
            let k = sort_key(b.last());
            lemma_with_key_last(b, k);
            assert(with_key(a, k).len() == 0);
        }
        assert(a =~= b);
    } else {
        let x = a.last();
        let y = b.last();
        let kx = sort_key(x);
        let ky = sort_key(y);
        lemma_with_key_last(a, kx);
        lemma_with_key_last(b, ky);
        assert(with_key(a, kx).contains(x)) by {
            assert(with_key(a, kx)[with_key(a, kx).len() - 1] == x);
        }
        assert(with_key(b, ky).contains(y)) by {
            assert(with_key(b, ky)[with_key(b, ky).len() - 1] == y);
        }
        assert(with_key(a, kx) == with_key(b, kx));
        assert(with_key(b, ky) == with_key(a, ky));
        lemma_with_key_member(b, kx, x);
        lemma_with_key_member(a, ky, y);
        lemma_key_le_last(b, x);
        lemma_key_le_last(a, y);
        lemma_text_le_antisymmetric(kx, ky);
        let ad = a.drop_last();
        let bd = b.drop_last();
        assert(x == y) by {
            assert(with_key(a, kx).last() == x);
            assert(with_key(b, kx).last() == y);
        }
        assert forall|key: Seq<char>| #[trigger] with_key(ad, key) == with_key(bd, key) by {
            lemma_with_key_last(a, key);
            lemma_with_key_last(b, key);
            if key == kx {
                assert(with_key(ad, key) =~= with_key(a, key).drop_last());
                assert(with_key(bd, key) =~= with_key(b, key).drop_last());
            }
        }
        assert(sorted_by_key(ad)) by {
            assert forall|i: int, j: int| 0 <= i < j < ad.len() implies
                text_le(sort_key(#[trigger] ad[i]), sort_key(#[trigger] ad[j])) by {
                assert(ad[i] == a[i] && ad[j] == a[j]);
            }
        }
        assert(sorted_by_key(bd)) by {
            assert forall|i: int, j: int| 0 <= i < j < bd.len() implies
                text_le(sort_key(#[trigger] bd[i]), sort_key(#[trigger] bd[j])) by {
                assert(bd[i] == b[i] && bd[j] == b[j]);
            }
        }
        lemma_stable_sort_unique(ad, bd);
        assert(a =~= ad.push(x));
        assert(b =~= bd.push(y));
    }
}


/// The files passed on are the paths of the items switched on, in order, and
/// the names remembered are their names: the items switched on, mapped to
/// their path or name.
pub proof fn lemma_enabled_fields(items: Seq<ModItemView>)
    ensures
        enabled_paths_of(items) == items.filter(|it: ModItemView| it.enabled).map_values(
            |it: ModItemView| it.path,
        ),
        enabled_names_of(items) == items.filter(|it: ModItemView| it.enabled).map_values(
            |it: ModItemView| it.name,
        ),
    decreases items.len(),
{
    reveal(Seq::filter);
    if items.len() == 0 {
        assert(items.filter(|it: ModItemView| it.enabled) =~= Seq::<ModItemView>::empty());
        assert(enabled_paths_of(items) =~= items.filter(|it: ModItemView| it.enabled).map_values(
            |it: ModItemView| it.path,
        ));
        assert(enabled_names_of(items) =~= items.filter(|it: ModItemView| it.enabled).map_values(
            |it: ModItemView| it.name,
        ));
    } else {
        lemma_enabled_fields(items.drop_last());
        let on = items.filter(|it: ModItemView| it.enabled);
        let on_before = items.drop_last().filter(|it: ModItemView| it.enabled);
        if items.last().enabled {
            assert(on == on_before.push(items.last()));
        } else {
            assert(on == on_before);
        }
        assert(enabled_paths_of(items) =~= on.map_values(|it: ModItemView| it.path));
        assert(enabled_names_of(items) =~= on.map_values(|it: ModItemView| it.name));
    }
}

/// Text order compares the first character where two texts differ, by its
/// code, whatever the texts' lengths.
pub proof fn lemma_text_le_first_difference(a: Seq<char>, b: Seq<char>, k: int)
    requires
        0 <= k < a.len(),
        k < b.len(),
        forall|j: int| 0 <= j < k ==> a[j] == b[j],
        a[k] != b[k],
    ensures
        text_le(a, b) == ((a[k] as int) < (b[k] as int)),
    decreases k,
{
    if k > 0 {
        assert(a[0] == b[0]);
        let a1 = a.drop_first();
        let b1 = b.drop_first();
        assert forall|j: int| 0 <= j < k - 1 implies a1[j] == b1[j] by {
            assert(a1[j] == a[j + 1] && b1[j] == b[j + 1]);
        }
        lemma_text_le_first_difference(a1, b1, k - 1);
    }
}

/// A text comes at or before every text it is a prefix of, and a longer text
/// never comes before its own proper prefix.
pub proof fn lemma_text_le_prefix(a: Seq<char>, b: Seq<char>)
    requires
        a.len() <= b.len(),
        forall|j: int| 0 <= j < a.len() ==> a[j] == b[j],
    ensures
        text_le(a, b),
        a.len() < b.len() ==> !text_le(b, a),
    decreases a.len(),
{
    if a.len() > 0 {
        let a1 = a.drop_first();
        let b1 = b.drop_first();
        assert(a[0] == b[0]);
        assert forall|j: int| 0 <= j < a1.len() implies a1[j] == b1[j] by {
            assert(a1[j] == a[j + 1] && b1[j] == b[j + 1]);
        }
        lemma_text_le_prefix(a1, b1);
    }
}

/// A file is offered exactly when it has a file name and its extension,
/// lowercased, is `wad`, `pk3`, `pk7` or `zip`; the item is that file, under
/// its file name, switched off. A file with any other extension, such as
/// `wav`, `txt` or `deh`, is not offered.
pub proof fn lemma_candidate(path: Seq<char>)
    ensures
        candidate(path) is Some <==> {
            &&& path_file_name(path) is Some
            &&& path_extension(path) is Some
            &&& {
                let ext = lowercase(path_extension(path)->0);
                ||| ext == seq!['w', 'a', 'd']
                ||| ext == seq!['p', 'k', '3']
                ||| ext == seq!['p', 'k', '7']
                ||| ext == seq!['z', 'i', 'p']
            }
        },
        candidate(path) matches Some(item) ==> {
            &&& item.path == path
            &&& !item.enabled
            &&& path_file_name(path) == Some(item.name)
        },
{
}

/// The items offered for a folder are, in order, those of the files that are
/// offered.
pub proof fn lemma_candidates(paths: Seq<Seq<char>>)
    ensures
        candidates(paths) == paths.filter(|p: Seq<char>| candidate(p) is Some).map_values(
            |p: Seq<char>| candidate(p)->0,
        ),
    decreases paths.len(),
{
    reveal(Seq::filter);
    let offered = paths.filter(|p: Seq<char>| candidate(p) is Some);
    if paths.len() == 0 {
        assert(offered =~= Seq::<Seq<char>>::empty());
        assert(candidates(paths) =~= offered.map_values(|p: Seq<char>| candidate(p)->0));
    } else {
        lemma_candidates(paths.drop_last());
        let before = paths.drop_last().filter(|p: Seq<char>| candidate(p) is Some);
        if candidate(paths.last()) is Some {
            assert(offered == before.push(paths.last()));
        } else {
            assert(offered == before);
        }
        assert(candidates(paths) =~= offered.map_values(|p: Seq<char>| candidate(p)->0));
    }
}

/// Switching on by remembered names only ever switches items on: an item
/// named in the list is on afterwards, an item on before stays on, any other
/// item stays off, and its name and path do not change. Doing it twice is the
/// same as doing it once.
pub proof fn lemma_with_enabled(items: Seq<ModItemView>, names: Seq<Seq<char>>)
    ensures
        forall|i: int| 0 <= i < items.len() ==> {
            let after = #[trigger] applied(items, names)[i];
            &&& after.name == items[i].name
            &&& after.path == items[i].path
            &&& names.contains(items[i].name) ==> after.enabled
            &&& items[i].enabled ==> after.enabled
            &&& !names.contains(items[i].name) && !items[i].enabled ==> !after.enabled
        },
        applied(applied(items, names), names) == applied(items, names),
{
    let once = applied(items, names);
    assert(applied(once, names) =~= once);
}

} // verus!
