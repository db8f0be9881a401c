//! The mathematical model of a secrets file: what its lines are, which entry
//! each line denotes, and the mapping the whole file folds into. The
//! executable parser and store are specified against these functions.

use vstd::prelude::*;

verus! {

/// ASCII whitespace, as trimming understands it.
pub open spec fn is_space(c: char) -> bool {
    c == ' ' || c == '\t' || c == '\n' || c == '\r' || c == '\x0c'
}

/// `s` with its leading whitespace removed.
pub open spec fn trim_left(s: Seq<char>) -> Seq<char>
    decreases s.len(),
{
    if s.len() > 0 && is_space(s.first()) {
        trim_left(s.drop_first())
    } else {
        s
    }
}

/// `s` with its trailing whitespace removed.
pub open spec fn trim_right(s: Seq<char>) -> Seq<char>
    decreases s.len(),
{
    if s.len() > 0 && is_space(s.last()) {
        trim_right(s.drop_last())
    } else {
        s
    }
}

/// `s` with leading and trailing whitespace removed.
pub open spec fn trim(s: Seq<char>) -> Seq<char> {
    trim_right(trim_left(s))
}

/// Trimming on the left removes exactly the chars before the first
/// non-whitespace position `k`.
pub proof fn lemma_trim_left_at(s: Seq<char>, k: int)
    requires
        0 <= k <= s.len(),
        forall|i: int| 0 <= i < k ==> is_space(s[i]),
        k < s.len() ==> !is_space(s[k]),
    ensures
        trim_left(s) == s.subrange(k, s.len() as int),
    decreases k,
{
    if k == 0 {
        assert(s.subrange(0, s.len() as int) =~= s);
    } else {
        lemma_trim_left_at(s.drop_first(), k - 1);
        assert(s.drop_first().subrange(k - 1, s.drop_first().len() as int) =~= s.subrange(
            k,
            s.len() as int,
        ));
    }
}

/// Trimming on the right removes exactly the chars from the position `k`
/// after the last non-whitespace char onward.
pub proof fn lemma_trim_right_at(s: Seq<char>, k: int)
    requires
        0 <= k <= s.len(),
        forall|i: int| k <= i < s.len() ==> is_space(s[i]),
        k > 0 ==> !is_space(s[k - 1]),
    ensures
        trim_right(s) == s.subrange(0, k),
    decreases s.len(),
{
    if k == s.len() {
        assert(s.subrange(0, s.len() as int) =~= s);
    } else {
        assert(is_space(s.last()));
        lemma_trim_right_at(s.drop_last(), k);
        assert(s.drop_last().subrange(0, k) =~= s.subrange(0, k));
    }
}

/// Trimming a string whose whitespace prefix ends at `a` and whose
/// whitespace suffix starts at `b` keeps exactly the chars in `[a, b)`.
pub proof fn lemma_trim_bounds(s: Seq<char>, a: int, b: int)
    requires
        0 <= a <= b <= s.len(),
        forall|i: int| 0 <= i < a ==> is_space(s[i]),
        forall|i: int| b <= i < s.len() ==> is_space(s[i]),
        a < s.len() ==> !is_space(s[a]),
        b > a ==> !is_space(s[b - 1]),
    ensures
        trim(s) == s.subrange(a, b),
{
    lemma_trim_left_at(s, a);
    let t = s.subrange(a, s.len() as int);
    lemma_trim_right_at(t, b - a);
    assert(t.subrange(0, b - a) =~= s.subrange(a, b));
}

/// Whether the character `c` occurs in `s`.
pub open spec fn contains_char(s: Seq<char>, c: char) -> bool {
    exists|i: int| 0 <= i < s.len() && s[i] == c
}

/// The index of the first occurrence of `c` in `s`; `s.len()` if there is none.
pub open spec fn first_index_of(s: Seq<char>, c: char) -> int
    decreases s.len(),
{
    if s.len() == 0 {
        0
    } else if s.first() == c {
        0
    } else {
        1 + first_index_of(s.drop_first(), c)
    }
}

/// `first_index_of` points at the first occurrence: an occurrence of `c` with
/// none before it, or one past the end when `c` does not occur at all.
pub proof fn lemma_first_index_of(s: Seq<char>, c: char)
    ensures
        contains_char(s, c) ==> 0 <= first_index_of(s, c) < s.len() && s[first_index_of(s, c)]
            == c,
        contains_char(s, c) ==> forall|i: int| 0 <= i < first_index_of(s, c) ==> s[i] != c,
        !contains_char(s, c) ==> first_index_of(s, c) == s.len(),
    decreases s.len(),
{
    if s.len() == 0 {
    } else if s.first() == c {
    } else {
        lemma_first_index_of(s.drop_first(), c);
        if contains_char(s, c) {
            let w = choose|i: int| 0 <= i < s.len() && s[i] == c;
            assert(s.drop_first()[w - 1] == c);
            assert(contains_char(s.drop_first(), c));
            assert(forall|i: int|
                0 <= i < first_index_of(s, c) ==> #[trigger] s[i] == s.drop_first()[i - 1] || i
                    == 0);
        }
        if contains_char(s.drop_first(), c) {
            let w = choose|i: int| 0 <= i < s.drop_first().len() && s.drop_first()[i] == c;
            assert(s[w + 1] == c);
            assert(contains_char(s, c));
        }
    }
}

/// The (key, value) entry a line denotes: a line without a delimiter denotes
/// none; otherwise the key is everything before the first `=` and the value
/// everything after it, both trimmed.
pub open spec fn line_entry(line: Seq<char>) -> Option<(Seq<char>, Seq<char>)> {
    if contains_char(line, '=') {
        let j = first_index_of(line, '=');
        Some((trim(line.take(j)), trim(line.skip(j + 1))))
    } else {
        None
    }
}

/// Whether `line` denotes an entry for the key `k`.
pub open spec fn line_defines(line: Seq<char>, k: Seq<char>) -> bool {
    line_entry(line) matches Some(kv) && kv.0 == k
}

/// One line folded into a mapping: an entry is inserted unconditionally, a
/// line without one leaves the mapping as it is.
pub open spec fn apply_line(m: Map<Seq<char>, Seq<char>>, line: Seq<char>) -> Map<
    Seq<char>,
    Seq<char>,
> {
    match line_entry(line) {
        Some(kv) => m.insert(kv.0, kv.1),
        None => m,
    }
}

/// All of `lines` folded into `m`, in order: a later entry for a key
/// overwrites an earlier one.
pub open spec fn fold_lines(m: Map<Seq<char>, Seq<char>>, lines: Seq<Seq<char>>) -> Map<
    Seq<char>,
    Seq<char>,
>
    decreases lines.len(),
{
    if lines.len() == 0 {
        m
    } else {
        fold_lines(apply_line(m, lines.first()), lines.drop_first())
    }
}

/// The lines of `cur + rest`, where `cur` is the already-read prefix of the
/// current line: reading stops a line at each newline character.
pub open spec fn split_from(rest: Seq<char>, cur: Seq<char>) -> Seq<Seq<char>>
    decreases rest.len(),
{
    if rest.len() == 0 {
        seq![cur]
    } else if rest.first() == '\n' {
        seq![cur] + split_from(rest.drop_first(), Seq::empty())
    } else {
        split_from(rest.drop_first(), cur.push(rest.first()))
    }
}

/// The text split at newline characters. Empty text has one (empty) line,
/// which denotes no entry.
pub open spec fn split_lines(text: Seq<char>) -> Seq<Seq<char>> {
    split_from(text, Seq::empty())
}

/// The mapping a whole file denotes: every line folded in, in file order.
pub open spec fn parse_spec(text: Seq<char>) -> Map<Seq<char>, Seq<char>> {
    fold_lines(Map::empty(), split_lines(text))
}

/// The result a lookup owes: the stored value when the key is present,
/// nothing when it is absent.
pub open spec fn lookup(m: Map<Seq<char>, Seq<char>>, k: Seq<char>) -> Option<Seq<char>> {
    if m.contains_key(k) {
        Some(m[k])
    } else {
        None
    }
}

/// The mapping held by a sequence of (key, value) pairs, a later pair
/// overwriting an earlier one with the same key.
pub open spec fn pairs_map(s: Seq<(Seq<char>, Seq<char>)>) -> Map<Seq<char>, Seq<char>>
    decreases s.len(),
{
    if s.len() == 0 {
        Map::empty()
    } else {
        pairs_map(s.drop_last()).insert(s.last().0, s.last().1)
    }
}

/// A pair whose key no later pair repeats gives the mapping's value at that key.
pub proof fn lemma_pairs_map_match(s: Seq<(Seq<char>, Seq<char>)>, i: int)
    requires
        0 <= i < s.len(),
        forall|j: int| i < j < s.len() ==> (#[trigger] s[j]).0 != s[i].0,
    ensures
        pairs_map(s).contains_key(s[i].0),
        pairs_map(s)[s[i].0] == s[i].1,
    decreases s.len(),
{
    if i < s.len() - 1 {
        lemma_pairs_map_match(s.drop_last(), i);
    }
}

/// Folding lines none of which defines `k` leaves the mapping unchanged at `k`.
proof fn lemma_fold_no_definition(m: Map<Seq<char>, Seq<char>>, lines: Seq<Seq<char>>, k: Seq<char>)
    requires
        forall|j: int| 0 <= j < lines.len() ==> !line_defines(#[trigger] lines[j], k),
    ensures
        fold_lines(m, lines).contains_key(k) == m.contains_key(k),
        m.contains_key(k) ==> fold_lines(m, lines)[k] == m[k],
    decreases lines.len(),
{
    if lines.len() > 0 {
        assert(!line_defines(lines[0], k));
        assert(forall|j: int|
            0 <= j < lines.drop_first().len() ==> #[trigger] lines.drop_first()[j] == lines[j + 1]);
        lemma_fold_no_definition(apply_line(m, lines.first()), lines.drop_first(), k);
    }
}

/// Folding gives `k` the value of the last line that defines it, whatever the
/// mapping held before.
proof fn lemma_fold_last_definition(
    m: Map<Seq<char>, Seq<char>>,
    lines: Seq<Seq<char>>,
    i: int,
    k: Seq<char>,
    v: Seq<char>,
)
    requires
        0 <= i < lines.len(),
        line_entry(lines[i]) == Some((k, v)),
        forall|j: int| i < j < lines.len() ==> !line_defines(#[trigger] lines[j], k),
    ensures
        fold_lines(m, lines).contains_key(k),
        fold_lines(m, lines)[k] == v,
    decreases lines.len(),
{
    assert(forall|j: int|
        0 <= j < lines.drop_first().len() ==> #[trigger] lines.drop_first()[j] == lines[j + 1]);
    if i == 0 {
        assert(apply_line(m, lines.first()) == m.insert(k, v));
        lemma_fold_no_definition(m.insert(k, v), lines.drop_first(), k);
    } else {
        lemma_fold_last_definition(apply_line(m, lines.first()), lines.drop_first(), i - 1, k, v);
    }
}

/// The last definition wins: when line `i` of the file defines key `k` with
/// value `v` and no later line defines `k`, the parsed mapping holds `k` and
/// sends it to `v`. In particular, with `A=1` followed later by `A=2`, the
/// mapping sends `A` to `2`, and a lookup after construction returns the
/// trimmed value most recently associated with the key in file order.
pub proof fn lemma_last_definition_wins(text: Seq<char>, i: int, k: Seq<char>, v: Seq<char>)
    requires
        0 <= i < split_lines(text).len(),
        line_entry(split_lines(text)[i]) == Some((k, v)),
        forall|j: int|
            i < j < split_lines(text).len() ==> !line_defines(#[trigger] split_lines(text)[j], k),
    ensures
        parse_spec(text).contains_key(k),
        lookup(parse_spec(text), k) == Some(v),
{
    lemma_fold_last_definition(Map::empty(), split_lines(text), i, k, v);
}

/// Lookup is read-only and deterministic: one mapping and one key resolve to
/// one value, so repeated lookups of the same key return identical values.
pub proof fn lemma_lookup_idempotent(
    m: Map<Seq<char>, Seq<char>>,
    k: Seq<char>,
    v1: Seq<char>,
    v2: Seq<char>,
)
    requires
        lookup(m, k) == Some(v1),
        lookup(m, k) == Some(v2),
    ensures
        v1 == v2,
{
}

/// Lines that define no entry — blank lines and lines without a delimiter
/// among them — are skipped without effect: inserting such a line anywhere
/// leaves the folded mapping unchanged. No error arises either: folding is
/// total.
pub proof fn lemma_skip_invariance(
    m: Map<Seq<char>, Seq<char>>,
    lines: Seq<Seq<char>>,
    i: int,
    line: Seq<char>,
)
    requires
        0 <= i <= lines.len(),
        !contains_char(line, '='),
    ensures
        fold_lines(m, lines.insert(i, line)) == fold_lines(m, lines),
    decreases lines.len(),
{
    let grown = lines.insert(i, line);
    if i == 0 {
        assert(grown.first() == line);
        assert(apply_line(m, line) == m);
        assert(grown.drop_first() =~= lines);
    } else {
        assert(grown.first() == lines[0]);
        assert(grown.drop_first() =~= lines.drop_first().insert(i - 1, line));
        lemma_skip_invariance(apply_line(m, lines.first()), lines.drop_first(), i - 1, line);
    }
}

/// A whitespace prefix is trimmed away entirely.
proof fn lemma_trim_left_spaces(lead: Seq<char>, s: Seq<char>)
    requires
        forall|i: int| 0 <= i < lead.len() ==> is_space(lead[i]),
    ensures
        trim_left(lead + s) == trim_left(s),
    decreases lead.len(),
{
    if lead.len() == 0 {
        assert(lead + s =~= s);
    } else {
        assert((lead + s).first() == lead[0]);
        assert((lead + s).drop_first() =~= lead.drop_first() + s);
        lemma_trim_left_spaces(lead.drop_first(), s);
    }
}

/// A whitespace suffix is trimmed away entirely.
proof fn lemma_trim_right_spaces(s: Seq<char>, trail: Seq<char>)
    requires
        forall|i: int| 0 <= i < trail.len() ==> is_space(trail[i]),
    ensures
        trim_right(s + trail) == trim_right(s),
    decreases trail.len(),
{
    if trail.len() == 0 {
        assert(s + trail =~= s);
    } else {
        assert((s + trail).last() == trail.last());
        assert((s + trail).drop_last() =~= s + trail.drop_last());
        assert(forall|i: int|
            0 <= i < trail.drop_last().len() ==> is_space(#[trigger] trail.drop_last()[i]));
        lemma_trim_right_spaces(s, trail.drop_last());
    }
}

/// A whitespace suffix does not survive the two-sided trim either.
proof fn lemma_trim_concat_trail(s: Seq<char>, trail: Seq<char>)
    requires
        forall|i: int| 0 <= i < trail.len() ==> is_space(trail[i]),
    ensures
        trim(s + trail) == trim(s),
    decreases s.len(),
{
    if s.len() == 0 {
        assert(s + trail =~= trail);
        lemma_trim_left_at(trail, trail.len() as int);
        assert(trim_left(trail) =~= Seq::<char>::empty());
        assert(trim_left(s) =~= Seq::<char>::empty());
    } else if is_space(s.first()) {
        assert((s + trail).first() == s.first());
        assert((s + trail).drop_first() =~= s.drop_first() + trail);
        lemma_trim_concat_trail(s.drop_first(), trail);
    } else {
        assert(trim_left(s + trail) == s + trail);
        assert(trim_left(s) == s);
        lemma_trim_right_spaces(s, trail);
    }
}

/// Whitespace invariance: surrounding whitespace never reaches the stored
/// text, so `value` framed by any amount of it trims to `value` trimmed bare.
pub proof fn lemma_whitespace_invariance(lead: Seq<char>, s: Seq<char>, trail: Seq<char>)
    requires
        forall|i: int| 0 <= i < lead.len() ==> is_space(lead[i]),
        forall|i: int| 0 <= i < trail.len() ==> is_space(trail[i]),
    ensures
        trim(lead + s + trail) == trim(s),
{
    assert(lead + s + trail =~= lead + (s + trail));
    lemma_trim_left_spaces(lead, s + trail);
    lemma_trim_concat_trail(s, trail);
}

/// Whitespace invariance at the line level: a line whose value is padded with
/// whitespace denotes the same entry as the line written without the padding.
pub proof fn lemma_line_whitespace_invariance(
    key: Seq<char>,
    lead: Seq<char>,
    value: Seq<char>,
    trail: Seq<char>,
)
    requires
        !contains_char(key, '='),
        forall|i: int| 0 <= i < lead.len() ==> is_space(lead[i]),
        forall|i: int| 0 <= i < trail.len() ==> is_space(trail[i]),
    ensures
        line_entry(key + seq!['='] + lead + value + trail) == line_entry(key + seq!['='] + value),
{
    let l1 = key + seq!['='] + lead + value + trail;
    let l2 = key + seq!['='] + value;
    lemma_entry_at_delimiter(l1, key, lead + value + trail);
    lemma_entry_at_delimiter(l2, key, value);
    lemma_whitespace_invariance(lead, value, trail);
    assert(lead + value + trail =~= lead + (value + trail));
}

/// A line made of a delimiter-free key, one `=`, and a raw value denotes the
/// entry (key trimmed, raw value trimmed).
proof fn lemma_entry_at_delimiter(line: Seq<char>, key: Seq<char>, raw: Seq<char>)
    requires
        !contains_char(key, '='),
        line =~= key + seq!['='] + raw,
    ensures
        line_entry(line) == Some((trim(key), trim(raw))),
{
    assert(line[key.len() as int] == '=');
    assert(contains_char(line, '='));
    lemma_first_index_of(line, '=');
    let j = first_index_of(line, '=');
    assert(forall|i: int| 0 <= i < key.len() ==> line[i] == key[i]);
    if j < key.len() {
        assert(key[j] == '=');
        assert(contains_char(key, '='));
    }
    assert(j == key.len());
    assert(line.take(j) =~= key);
    assert(line.skip(j + 1) =~= raw);
}

/// A key that no pair holds is absent from the mapping.
pub proof fn lemma_pairs_map_no_match(s: Seq<(Seq<char>, Seq<char>)>, k: Seq<char>)
    requires
        forall|j: int| 0 <= j < s.len() ==> (#[trigger] s[j]).0 != k,
    ensures
        !pairs_map(s).contains_key(k),
    decreases s.len(),
{
    if s.len() > 0 {
        lemma_pairs_map_no_match(s.drop_last(), k);
    }
}

} // verus!

