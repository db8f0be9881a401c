//! The store: an immutable mapping built once from the text of a secrets
//! file, and a lookup over it.

use vstd::prelude::*;
use vstd::string::StrSliceExecFns;

use crate::model::apply_line;
use crate::model::fold_lines;
use crate::model::lemma_pairs_map_match;
use crate::model::lemma_pairs_map_no_match;
use crate::model::lookup;
use crate::model::pairs_map;
use crate::model::parse_spec;
use crate::model::split_from;
use crate::parse::separate_values_by_eq;

verus! {

/// The ways reading or querying a secrets file can fail.
#[derive(Debug)]
pub enum SecretError {
    /// The file could not be read, or its contents were not text.
    IOError,
    /// A line could not be split into a key and a value; carries the line.
    MalformedLine(String),
    /// No entry exists for the queried key; carries the key.
    KeyNotFound(String),
}

/// An immutable store of the key/value entries of one secrets file.
pub struct Secret {
    data: Vec<(String, String)>,
}

/// The views of a sequence of owned (key, value) pairs.
spec fn entry_views(s: Seq<(String, String)>) -> Seq<(Seq<char>, Seq<char>)> {
    Seq::new(s.len(), |i: int| (s[i].0@, s[i].1@))
}

impl View for Secret {
    type V = Map<Seq<char>, Seq<char>>;

    closed spec fn view(&self) -> Map<Seq<char>, Seq<char>> {
        pairs_map(entry_views(self.data@))
    }
}

/// Whether two string slices hold the same characters.
fn str_eq(a: &str, b: &str) -> (r: bool)
    ensures
        r == (a@ == b@),
{
    let n = a.unicode_len();
    if n != b.unicode_len() {
        return false;
    }
    let mut i: usize = 0;
    while i < n
        invariant
            i <= n,
            n == a@.len(),
            n == b@.len(),
            forall|j: int| 0 <= j < i ==> a@[j] == b@[j],
        decreases n - i,
    {
        if a.get_char(i) != b.get_char(i) {
            return false;
        }
        i += 1;
    }
    proof {
        assert(a@ =~= b@);
    }
    true
}

impl Secret {
    /// Builds the store from the full text of a secrets file. Each line with
    /// a delimiter contributes the entry it denotes, in file order, a later
    /// duplicate key overwriting an earlier one; every other line is skipped.
    pub fn new(contents: &str) -> (s: Secret)
        ensures
            s@ == parse_spec(contents@),
    {
        let mut store = Secret { data: Vec::new() };
        let n = contents.unicode_len();
        let mut start: usize = 0;
        let mut i: usize = 0;
        proof {
            assert(entry_views(store.data@) =~= Seq::<(Seq<char>, Seq<char>)>::empty());
            assert(store@ =~= Map::<Seq<char>, Seq<char>>::empty());
            assert(contents@.skip(0) =~= contents@);
            assert(contents@.subrange(0, 0) =~= Seq::<char>::empty());
        }
        while i < n
            invariant
                start <= i <= n,
                n == contents@.len(),
                forall|j: int| start <= j < i ==> contents@[j] != '\n',
                fold_lines(
                    store@,
                    split_from(
                        contents@.skip(i as int),
                        contents@.subrange(start as int, i as int),
                    ),
                ) == parse_spec(contents@),
            decreases n - i,
        {
            let ghost rest = contents@.skip(i as int);
            let ghost cur = contents@.subrange(start as int, i as int);
            if contents.get_char(i) == '\n' {
                let line = contents.substring_char(start, i);
                proof {
                    assert(rest.first() == contents@[i as int]);
                    assert(rest.drop_first() =~= contents@.skip(i + 1));
                    let lines = split_from(rest, cur);
                    assert(lines == seq![cur] + split_from(contents@.skip(i + 1), Seq::empty()));
                    assert(lines.first() == cur);
                    assert(lines.drop_first() =~= split_from(contents@.skip(i + 1), Seq::empty()));
                    assert(fold_lines(store@, lines) == fold_lines(
                        apply_line(store@, cur),
                        split_from(contents@.skip(i + 1), Seq::empty()),
                    ));
                    assert(contents@.subrange(i + 1, i + 1) =~= Seq::<char>::empty());
                }
                store.push_line(line);
                start = i + 1;
            } else {
                proof {
                    assert(rest.first() == contents@[i as int]);
                    assert(rest.drop_first() =~= contents@.skip(i + 1));
                    assert(cur.push(contents@[i as int]) =~= contents@.subrange(
                        start as int,
                        i + 1,
                    ));
                }
            }
            i += 1;
        }
        let line = contents.substring_char(start, n);
        proof {
            let rest = contents@.skip(n as int);
            let cur = contents@.subrange(start as int, n as int);
            assert(rest =~= Seq::<char>::empty());
            let lines = split_from(rest, cur);
            assert(lines == seq![cur]);
            assert(lines.first() == cur);
            assert(lines.drop_first() =~= Seq::<Seq<char>>::empty());
            assert(fold_lines(store@, lines) == fold_lines(
                apply_line(store@, cur),
                Seq::<Seq<char>>::empty(),
            ));
            assert(fold_lines(apply_line(store@, cur), Seq::<Seq<char>>::empty()) == apply_line(
                store@,
                cur,
            ));
        }
        store.push_line(line);
        store
    }

    /// Folds one line into the store: the entry the line denotes is inserted,
    /// and a line without a delimiter changes nothing.
    fn push_line(&mut self, line: &str)
        ensures
            final(self)@ == apply_line(old(self)@, line@),
    {
        match separate_values_by_eq(line) {
            Ok((key, value)) => {
                let ghost k = key@;
                let ghost v = value@;
                self.data.push((key, value));
                proof {
                    let evs = entry_views(self.data@);
                    assert(evs.drop_last() =~= entry_views(old(self).data@));
                    assert(evs.last() == (k, v));
                }
            },
            Err(_) => {},
        }
    }

    /// Returns the value stored for `key`, or a `KeyNotFound` error carrying
    /// the key when the store holds no entry for it. Reads only; the store
    /// never changes after construction.
    pub fn tell(&self, key: &str) -> (r: Result<String, SecretError>)
        ensures
            r matches Ok(v) ==> lookup(self@, key@) == Some(v@),
            r matches Err(e) ==> (e matches SecretError::KeyNotFound(missing) && missing@ == key@
                && lookup(self@, key@) is None),
    {
        let mut i: usize = self.data.len();
        while i > 0
            invariant
                i <= self.data@.len(),
                forall|j: int| i <= j < self.data@.len() ==> (#[trigger] self.data@[j]).0@ != key@,
            decreases i,
        {
            i -= 1;
            if str_eq(key, self.data[i].0.as_str()) {
                proof {
                    let evs = entry_views(self.data@);
                    assert(evs[i as int] == (self.data@[i as int].0@, self.data@[i as int].1@));
                    lemma_pairs_map_match(evs, i as int);
                }
                return Ok(self.data[i].1.clone());
            }
        }
        proof {
            lemma_pairs_map_no_match(entry_views(self.data@), key@);
        }
        Err(SecretError::KeyNotFound(key.to_owned()))
    }
}

} // verus!
