use vstd::prelude::*;
use vstd::string::StringExecFns;

verus! {

/// The text of each string of a sequence.
pub open spec fn texts(strings: Seq<String>) -> Seq<Seq<char>> {
    strings.map_values(|s: String| s@)
}

/// The pieces of `s` between the occurrences of `sep`, as `str::split` with a
/// `char` pattern yields them: one more piece than `s` has separators.
pub open spec fn split_on(s: Seq<char>, sep: char) -> Seq<Seq<char>>
    decreases s.len(),
{
    if s.len() == 0 {
        seq![Seq::empty()]
    } else {
        let pieces = split_on(s.drop_last(), sep);
        if s.last() == sep {
            pieces.push(Seq::empty())
        } else {
            pieces.update(pieces.len() - 1, pieces.last().push(s.last()))
        }
    }
}

pub proof fn lemma_split_on_nonempty(s: Seq<char>, sep: char)
    ensures
        split_on(s, sep).len() >= 1,
    decreases s.len(),
{
    if s.len() > 0 {
        lemma_split_on_nonempty(s.drop_last(), sep);
    }
}

/// Calls `String::push`. Claimed: the text gains `c` at its end.
#[verifier::external_body]
fn push_char(s: &mut String, c: char)
    ensures
        final(s)@ == old(s)@.push(c),
{
    s.push(c);
}

/// The characters of `s`, in order.
pub fn chars_of(s: &str) -> (chars: Vec<char>)
    ensures
        chars@ == s@,
{
    broadcast use vstd::string::group_string_axioms;
    let mut chars: Vec<char> = Vec::new();
    for c in it: s.chars()
        invariant
            chars@ == it.seq().take(it.index()),
    {
        chars.push(c);
    }
    chars
}


/// A `String` holding `chars[from..to]`.
pub fn string_of(chars: &Vec<char>, from: usize, to: usize) -> (s: String)
    requires
        from <= to <= chars.len(),
    ensures
        s@ == chars@.subrange(from as int, to as int),
{
    let mut s = String::new();
    let mut i = from;
    while i < to
        invariant
            from <= i <= to <= chars.len(),
            s@ == chars@.subrange(from as int, i as int),
        decreases to - i,
    {
        push_char(&mut s, chars[i]);
        i += 1;
        assert(s@ =~= chars@.subrange(from as int, i as int));
    }
    s
}

/// The pieces of `chars` between the occurrences of `sep`.
pub fn split_chars(chars: &Vec<char>, sep: char) -> (pieces: Vec<String>)
    ensures
        texts(pieces@) == split_on(chars@, sep),
{
    let mut pieces: Vec<String> = Vec::new();
    let mut start: usize = 0;
    let mut i: usize = 0;
    assert(chars@.take(0) =~= Seq::<char>::empty());
    while i < chars.len()
        invariant
            start <= i <= chars.len(),
            texts(pieces@).push(chars@.subrange(start as int, i as int)) == split_on(chars@.take(i as int), sep),
        decreases chars.len() - i,
    {
        let ghost before = chars@.take(i as int);
        let ghost after = chars@.take(i + 1);
        let ghost done = texts(pieces@);
        let ghost cur = chars@.subrange(start as int, i as int);
        assert(after.drop_last() =~= before);
        assert(after.last() == chars@[i as int]);
        proof { lemma_split_on_nonempty(before, sep); }
        if chars[i] == sep {
            let piece = string_of(chars, start, i);
            pieces.push(piece);
            start = i + 1;
            assert(texts(pieces@) =~= done.push(cur));
            assert(split_on(after, sep) == done.push(cur).push(Seq::empty()));
            i += 1;
            assert(chars@.subrange(start as int, i as int) =~= Seq::<char>::empty());
        } else {
            assert(split_on(after, sep) =~= done.push(cur.push(chars@[i as int])));
            assert(chars@.subrange(start as int, i + 1) =~= cur.push(chars@[i as int]));
            i += 1;
        }
    }
    let last = string_of(chars, start, i);
    assert(chars@.take(i as int) =~= chars@);
    pieces.push(last);
    assert(texts(pieces@) =~= texts(pieces@).drop_last().push(last@));
    pieces
}


/// The index of the first `c` in `s`, or the length of `s` when `s` holds none.
pub open spec fn first_index(s: Seq<char>, c: char) -> int
    decreases s.len(),
{
    if s.len() == 0 {
        0
    } else if s[0] == c {
        0
    } else {
        1 + first_index(s.drop_first(), c)
    }
}

pub proof fn lemma_first_index(s: Seq<char>, c: char, i: int)
    requires
        0 <= i <= s.len(),
        forall|j: int| 0 <= j < i ==> s[j] != c,
        i == s.len() || s[i] == c,
    ensures
        first_index(s, c) == i,
    decreases s.len(),
{
    if s.len() > 0 && i > 0 {
        assert forall|j: int| 0 <= j < i - 1 implies s.drop_first()[j] != c by {
            assert(s.drop_first()[j] == s[j + 1]);
        }
        lemma_first_index(s.drop_first(), c, i - 1);
    }
}

/// `str::split_once` with a `char` pattern: the text before the first `c` and
/// the text after it, or `None` when `s` holds no `c`.
pub open spec fn split_once(s: Seq<char>, c: char) -> Option<(Seq<char>, Seq<char>)> {
    let i = first_index(s, c);
    if i < s.len() {
        Some((s.take(i), s.skip(i + 1)))
    } else {
        None
    }
}

/// Splits `chars` at its first `c`.
pub fn split_once_chars(chars: &Vec<char>, c: char) -> (parts: Option<(String, String)>)
    ensures
        match parts {
            Some((before, after)) => split_once(chars@, c) == Some((before@, after@)),
            None => split_once(chars@, c) is None,
        },
{
    let mut i: usize = 0;
    while i < chars.len()
        invariant
            i <= chars.len(),
            forall|j: int| 0 <= j < i ==> chars@[j] != c,
        decreases chars.len() - i,
    {
        if chars[i] == c {
            proof { lemma_first_index(chars@, c, i as int); }
            let before = string_of(chars, 0, i);
            let after = string_of(chars, i + 1, chars.len());
            assert(before@ =~= chars@.take(i as int));
            assert(after@ =~= chars@.skip(i + 1));
            return Some((before, after));
        }
        i += 1;
    }
    proof { lemma_first_index(chars@, c, i as int); }
    None
}

/// A line without the `'\r'` that ends it, if one does.
pub open spec fn strip_cr(line: Seq<char>) -> Seq<char> {
    if line.len() > 0 && line.last() == '\r' {
        line.drop_last()
    } else {
        line
    }
}

/// The lines of `s`, as `str::lines` yields them: split at `'\n'`, a `'\r'`
/// just before a `'\n'` dropped, and no empty line after a final `'\n'`.
pub open spec fn lines_of(s: Seq<char>) -> Seq<Seq<char>> {
    let pieces = split_on(s, '\n');
    let ended = pieces.drop_last().map_values(|p: Seq<char>| strip_cr(p));
    if pieces.last().len() == 0 {
        ended
    } else {
        ended.push(pieces.last())
    }
}

fn strip_cr_string(line: &String) -> (stripped: String)
    ensures
        stripped@ == strip_cr(line@),
{
    let chars = chars_of(line.as_str());
    if chars.len() > 0 && chars[chars.len() - 1] == '\r' {
        let s = string_of(&chars, 0, chars.len() - 1);
        assert(s@ =~= line@.drop_last());
        s
    } else {
        line.clone()
    }
}

/// The lines of `chars`.
pub fn lines_of_chars(chars: &Vec<char>) -> (lines: Vec<String>)
    ensures
        texts(lines@) == lines_of(chars@),
{
    let pieces = split_chars(chars, '\n');
    proof { lemma_split_on_nonempty(chars@, '\n'); }
    let ghost all = split_on(chars@, '\n');
    let n = pieces.len();
    let mut lines: Vec<String> = Vec::new();
    let mut k: usize = 0;
    while k + 1 < n
        invariant
            n == pieces.len() >= 1,
            texts(pieces@) == all,
            k + 1 <= n,
            texts(lines@) == all.take(k as int).map_values(|p: Seq<char>| strip_cr(p)),
        decreases n - k,
    {
        let line = strip_cr_string(&pieces[k]);
        let ghost before = texts(lines@);
        assert(all[k as int] == pieces@[k as int]@);
        lines.push(line);
        assert(texts(lines@) =~= before.push(line@));
        k += 1;
        assert(texts(lines@) =~= all.take(k as int).map_values(|p: Seq<char>| strip_cr(p)));
    }
    assert(all.take(k as int) =~= all.drop_last());
    let last = &pieces[n - 1];
    if last.as_str().is_empty() {
        lines
    } else {
        let ghost before = texts(lines@);
        lines.push(last.clone());
        assert(texts(lines@) =~= before.push(all.last()));
        lines
    }
}

/// The items joined into one text with `sep` between each two, as
/// `[T]::join` does.
pub open spec fn join_with(items: Seq<Seq<char>>, sep: char) -> Seq<char>
    decreases items.len(),
{
    if items.len() == 0 {
        Seq::empty()
    } else if items.len() == 1 {
        items[0]
    } else {
        join_with(items.drop_last(), sep).push(sep) + items.last()
    }
}

/// Joins `items` with `sep` between each two.
pub fn join_strings(items: &[String], sep: char) -> (joined: String)
    ensures
        joined@ == join_with(texts(items@), sep),
{
    let mut joined = String::new();
    let mut i: usize = 0;
    while i < items.len()
        invariant
            i <= items.len(),
            joined@ == join_with(texts(items@).take(i as int), sep),
        decreases items.len() - i,
    {
        let ghost prefix = texts(items@).take(i + 1);
        assert(prefix.drop_last() =~= texts(items@).take(i as int));
        if i > 0 {
            push_char(&mut joined, sep);
        } else {
            assert(texts(items@).take(0) =~= Seq::<Seq<char>>::empty());
        }
        joined.append(items[i].as_str());
        i += 1;
        assert(joined@ =~= join_with(prefix, sep));
    }
    assert(texts(items@).take(i as int) =~= texts(items@));
    joined
}


/// The lines joined into one text, each followed by `'\n'`.
pub open spec fn terminated(lines: Seq<Seq<char>>) -> Seq<char>
    decreases lines.len(),
{
    if lines.len() == 0 {
        Seq::empty()
    } else {
        terminated(lines.drop_last()) + lines.last().push('\n')
    }
}

/// Appending text free of `sep` extends the last piece.
proof fn lemma_split_on_extend(x: Seq<char>, y: Seq<char>, sep: char)
    requires
        !y.contains(sep),
    ensures
        split_on(x, sep).len() >= 1,
        split_on(x + y, sep) == split_on(x, sep).update(
            split_on(x, sep).len() - 1,
            split_on(x, sep).last() + y,
        ),
    decreases y.len(),
{
    lemma_split_on_nonempty(x, sep);
    if y.len() == 0 {
        assert(x + y =~= x);
        assert(split_on(x, sep).last() + y =~= split_on(x, sep).last());
        assert(split_on(x, sep).update(split_on(x, sep).len() - 1, split_on(x, sep).last())
            =~= split_on(x, sep));
    } else {
        let y0 = y.drop_last();
        assert(!y0.contains(sep)) by {
            if y0.contains(sep) {
                let j = choose|j: int| 0 <= j < y0.len() && y0[j] == sep;
                assert(y[j] == sep);
            }
        }
        assert(y.last() != sep) by {
            assert(y[y.len() - 1] == y.last());
        }
        lemma_split_on_extend(x, y0, sep);
        assert((x + y).drop_last() =~= x + y0);
        assert((x + y).last() == y.last());
        lemma_split_on_nonempty(x + y0, sep);
        assert(split_on(x, sep).last() + y =~= (split_on(x, sep).last() + y0).push(y.last()));
        assert(split_on(x + y, sep) =~= split_on(x, sep).update(
            split_on(x, sep).len() - 1,
            split_on(x, sep).last() + y,
        ));
    }
}

/// Splitting at `sep` gives back the items that were joined with it, when
/// there is at least one item and none holds `sep`.
pub proof fn lemma_split_join(items: Seq<Seq<char>>, sep: char)
    requires
        items.len() >= 1,
        forall|i: int| 0 <= i < items.len() ==> !(#[trigger] items[i]).contains(sep),
    ensures
        split_on(join_with(items, sep), sep) == items,
    decreases items.len(),
{
    if items.len() == 1 {
        lemma_split_on_extend(Seq::empty(), items[0], sep);
        assert(Seq::<char>::empty() + items[0] =~= items[0]);
        assert(split_on(Seq::<char>::empty(), sep) =~= seq![Seq::<char>::empty()]);
        assert(split_on(items[0], sep) =~= items);
    } else {
        let d = items.drop_last();
        assert forall|i: int| 0 <= i < d.len() implies !(#[trigger] d[i]).contains(sep) by {
            assert(d[i] == items[i]);
        }
        lemma_split_join(d, sep);
        let head = join_with(d, sep).push(sep);
        assert(!items.last().contains(sep)) by {
            assert(items[items.len() - 1] == items.last());
        }
        lemma_split_on_extend(head, items.last(), sep);
        assert(head.drop_last() =~= join_with(d, sep));
        assert(split_on(head, sep) == d.push(Seq::empty()));
        assert(Seq::<char>::empty() + items.last() =~= items.last());
        assert(split_on(join_with(items, sep), sep) =~= items);
    }
}

/// The pieces at `'\n'` of lines that each end in `'\n'`: the lines and an
/// empty piece after the last `'\n'`.
proof fn lemma_split_terminated(ls: Seq<Seq<char>>)
    requires
        forall|i: int| 0 <= i < ls.len() ==> !(#[trigger] ls[i]).contains('\n'),
    ensures
        split_on(terminated(ls), '\n') == ls.push(Seq::empty()),
    decreases ls.len(),
{
    if ls.len() == 0 {
        assert(split_on(Seq::<char>::empty(), '\n') =~= seq![Seq::<char>::empty()]);
        assert(ls.push(Seq::empty()) =~= seq![Seq::<char>::empty()]);
    } else {
        let d = ls.drop_last();
        assert forall|i: int| 0 <= i < d.len() implies !(#[trigger] d[i]).contains('\n') by {
            assert(d[i] == ls[i]);
        }
        lemma_split_terminated(d);
        assert(!ls.last().contains('\n')) by {
            assert(ls[ls.len() - 1] == ls.last());
        }
        let body = terminated(d) + ls.last();
        lemma_split_on_extend(terminated(d), ls.last(), '\n');
        assert(terminated(ls) =~= body.push('\n'));
        assert(body.push('\n').drop_last() =~= body);
        assert(Seq::<char>::empty() + ls.last() =~= ls.last());
        assert(split_on(body, '\n') =~= ls);
        assert(split_on(terminated(ls), '\n') =~= ls.push(Seq::empty()));
    }
}

/// Reading back the lines of text written one per line gives the lines, when
/// none holds `'\n'` and none ends in `'\r'`.
pub proof fn lemma_lines_of_terminated(ls: Seq<Seq<char>>)
    requires
        forall|i: int| 0 <= i < ls.len() ==> !(#[trigger] ls[i]).contains('\n'),
        forall|i: int|
            0 <= i < ls.len() && (#[trigger] ls[i]).len() > 0 ==> ls[i].last() != '\r',
    ensures
        lines_of(terminated(ls)) == ls,
{
    lemma_split_terminated(ls);
    let pieces = ls.push(Seq::<char>::empty());
    assert(pieces.drop_last() =~= ls);
    assert(pieces.last().len() == 0);
    assert(ls.map_values(|p: Seq<char>| strip_cr(p)) =~= ls);
}


/// No piece of a split holds the separator.
pub proof fn lemma_split_on_pieces_free(s: Seq<char>, sep: char)
    ensures
        forall|i: int| 0 <= i < split_on(s, sep).len() ==> !(#[trigger] split_on(s, sep)[i]).contains(sep),
    decreases s.len(),
{
    if s.len() > 0 {
        let d = s.drop_last();
        let pieces = split_on(d, sep);
        lemma_split_on_pieces_free(d, sep);
        lemma_split_on_nonempty(d, sep);
        assert(s.last() == s[s.len() - 1]);
        if s.last() != sep {
            let grown = pieces.last().push(s.last());
            assert(!pieces[pieces.len() - 1].contains(sep));
            assert(!grown.contains(sep)) by {
                if grown.contains(sep) {
                    let j = choose|j: int| 0 <= j < grown.len() && grown[j] == sep;
                    assert(pieces.last()[j] == sep);
                    assert(pieces.last().contains(sep));
                }
            }
            assert forall|i: int| 0 <= i < split_on(s, sep).len() implies
                !(#[trigger] split_on(s, sep)[i]).contains(sep) by {
                if i < pieces.len() - 1 {
                    assert(split_on(s, sep)[i] == pieces[i]);
                }
            }
        } else {
            assert forall|i: int| 0 <= i < split_on(s, sep).len() implies
                !(#[trigger] split_on(s, sep)[i]).contains(sep) by {
                if i < pieces.len() {
                    assert(split_on(s, sep)[i] == pieces[i]);
                } else {
                    assert(split_on(s, sep)[i] =~= Seq::<char>::empty());
                }
            }
        }
    }
}

/// No line holds a `'\n'`.
pub proof fn lemma_lines_free(s: Seq<char>)
    ensures
        forall|i: int| 0 <= i < lines_of(s).len() ==> !(#[trigger] lines_of(s)[i]).contains('\n'),
{
    let pieces = split_on(s, '\n');
    lemma_split_on_pieces_free(s, '\n');
    lemma_split_on_nonempty(s, '\n');
    let ended = pieces.drop_last().map_values(|p: Seq<char>| strip_cr(p));
    assert forall|i: int| 0 <= i < ended.len() implies !(#[trigger] ended[i]).contains('\n') by {
        let p = pieces[i];
        assert(!p.contains('\n'));
        if ended[i].contains('\n') {
            let j = choose|j: int| 0 <= j < ended[i].len() && ended[i][j] == '\n';
            assert(p[j] == '\n');
            assert(p.contains('\n'));
        }
    }
    assert(!pieces[pieces.len() - 1].contains('\n'));
    assert forall|i: int| 0 <= i < lines_of(s).len() implies !(#[trigger] lines_of(s)[i]).contains('\n') by {
        if i < ended.len() {
            assert(lines_of(s)[i] == ended[i]);
        } else {
            assert(lines_of(s)[i] == pieces.last());
        }
    }
}

/// The first `c` comes after characters that are not `c`.
pub proof fn lemma_first_index_facts(s: Seq<char>, c: char)
    ensures
        0 <= first_index(s, c) <= s.len(),
        first_index(s, c) < s.len() ==> s[first_index(s, c)] == c,
        forall|j: int| 0 <= j < first_index(s, c) ==> s[j] != c,
    decreases s.len(),
{
    if s.len() > 0 && s[0] != c {
        let rest = s.drop_first();
        lemma_first_index_facts(rest, c);
        assert forall|j: int| 0 <= j < first_index(s, c) implies s[j] != c by {
            if j > 0 {
                assert(s[j] == rest[j - 1]);
            }
        }
    }
}

/// Splitting once at `c`: the part before holds no `c`, and neither part holds
/// a character that the whole does not hold.
pub proof fn lemma_split_once_parts(s: Seq<char>, c: char, x: char)
    requires
        split_once(s, c) is Some,
    ensures
        !split_once(s, c).unwrap().0.contains(c),
        !s.contains(x) ==> !split_once(s, c).unwrap().0.contains(x),
        !s.contains(x) ==> !split_once(s, c).unwrap().1.contains(x),
{
    lemma_first_index_facts(s, c);
    let i = first_index(s, c);
    let a = s.take(i);
    let b = s.skip(i + 1);
    if a.contains(c) {
        let j = choose|j: int| 0 <= j < a.len() && a[j] == c;
        assert(s[j] == c);
    }
    if !s.contains(x) {
        if a.contains(x) {
            let j = choose|j: int| 0 <= j < a.len() && a[j] == x;
            assert(s[j] == x);
        }
        if b.contains(x) {
            let j = choose|j: int| 0 <= j < b.len() && b[j] == x;
            assert(s[i + 1 + j] == x);
        }
    }
}


/// Splitting once at `c` cuts the text at its first `c`: the two parts with
/// that `c` between them give back the text, and the part before holds no
/// `c`. There is no split exactly when the text holds no `c`.
pub proof fn lemma_split_once_cuts(s: Seq<char>, c: char)
    ensures
        split_once(s, c) is None <==> !s.contains(c),
        split_once(s, c) is Some ==> {
            &&& s == split_once(s, c).unwrap().0.push(c) + split_once(s, c).unwrap().1
            &&& !split_once(s, c).unwrap().0.contains(c)
        },
{
    lemma_first_index_facts(s, c);
    let i = first_index(s, c);
    if s.contains(c) {
        let j = choose|j: int| 0 <= j < s.len() && s[j] == c;
        assert(i <= j);
    }
    if i < s.len() {
        assert(s =~= s.take(i).push(c) + s.skip(i + 1));
        lemma_split_once_parts(s, c, c);
    }
}

/// Splitting at `sep` cuts the text at every `sep`: the pieces joined with
/// `sep` give back the text, and no piece holds `sep`.
pub proof fn lemma_split_on_cuts(s: Seq<char>, sep: char)
    ensures
        join_with(split_on(s, sep), sep) == s,
        forall|i: int| 0 <= i < split_on(s, sep).len() ==> !(#[trigger] split_on(s, sep)[i]).contains(sep),
    decreases s.len(),
{
    lemma_split_on_pieces_free(s, sep);
    if s.len() == 0 {
        assert(split_on(s, sep) =~= seq![Seq::<char>::empty()]);
        assert(join_with(seq![Seq::<char>::empty()], sep) == Seq::<char>::empty());
        assert(s =~= Seq::<char>::empty());
    } else {
        let d = s.drop_last();
        lemma_split_on_cuts(d, sep);
        lemma_split_on_nonempty(d, sep);
        let pieces = split_on(d, sep);
        assert(s =~= d.push(s.last()));
        if s.last() == sep {
            let after = pieces.push(Seq::<char>::empty());
            assert(after.drop_last() =~= pieces);
            assert(join_with(after, sep) =~= join_with(pieces, sep).push(sep) + Seq::<char>::empty());
        } else {
            lemma_join_with_last(pieces, sep, s.last());
        }
    }
}

/// Appending a character to the last item appends it to the joined text.
proof fn lemma_join_with_last(items: Seq<Seq<char>>, sep: char, c: char)
    requires
        items.len() >= 1,
    ensures
        join_with(items.update(items.len() - 1, items.last().push(c)), sep) == join_with(items, sep).push(c),
{
    let grown = items.update(items.len() - 1, items.last().push(c));
    if items.len() == 1 {
        assert(grown[0] == items[0].push(c));
    } else {
        assert(grown.drop_last() =~= items.drop_last());
        assert(grown.last() == items.last().push(c));
        assert(join_with(grown, sep) =~= join_with(items, sep).push(c));
    }
}

} // verus!
