//! Encoder options.

use vstd::prelude::*;

use crate::text::str_eq;

verus! {

/// Options shared by the encoders: whether to attach human-readable text,
/// plus free-form `key=value` extras (`eclevel`, `version`, `shape`).
#[derive(Debug)]
pub struct Options {
    pub include_text: bool,
    pub extras: Vec<(String, String)>,
}

/// Index of the first extra whose key is `key`, if any.
pub open spec fn first_key_index(extras: Seq<(String, String)>, key: Seq<char>) -> Option<int>
    decreases extras.len(),
{
    if extras.len() == 0 {
        None
    } else if extras[0].0@ == key {
        Some(0)
    } else {
        match first_key_index(extras.drop_first(), key) {
            Some(i) => Some(i + 1),
            None => None,
        }
    }
}

/// Value of the first extra whose key is `key`.
pub open spec fn option_value(o: Options, key: Seq<char>) -> Option<Seq<char>> {
    match first_key_index(o.extras@, key) {
        Some(i) => Some(o.extras@[i].1@),
        None => None,
    }
}

impl Default for Options {
    fn default() -> (o: Options)
        ensures
            !o.include_text,
            o.extras@.len() == 0,
    {
        Options { include_text: false, extras: Vec::new() }
    }
}

proof fn lemma_first_key_index_at(extras: Seq<(String, String)>, key: Seq<char>, i: int)
    requires
        0 <= i < extras.len(),
        extras[i].0@ == key,
        forall|j: int| 0 <= j < i ==> extras[j].0@ != key,
    ensures
        first_key_index(extras, key) == Some(i),
    decreases i,
{
    if i > 0 {
        lemma_first_key_index_at(extras.drop_first(), key, i - 1);
    }
}

proof fn lemma_first_key_index_none(extras: Seq<(String, String)>, key: Seq<char>)
    requires
        forall|j: int| 0 <= j < extras.len() ==> extras[j].0@ != key,
    ensures
        first_key_index(extras, key) is None,
    decreases extras.len(),
{
    if extras.len() > 0 {
        lemma_first_key_index_none(extras.drop_first(), key);
    }
}

proof fn lemma_first_key_index_push(extras: Seq<(String, String)>, x: (String, String), key: Seq<char>)
    ensures
        first_key_index(extras.push(x), key) == match first_key_index(extras, key) {
            Some(i) => Some(i),
            None => if x.0@ == key {
                Some(extras.len() as int)
            } else {
                None
            },
        },
    decreases extras.len(),
{
    let e2 = extras.push(x);
    if extras.len() == 0 {
        assert(e2.drop_first() =~= Seq::<(String, String)>::empty());
        assert(e2[0] == x);
        assert(first_key_index(e2.drop_first(), key) is None);
    } else {
        assert(e2.drop_first() =~= extras.drop_first().push(x));
        assert(e2[0] == extras[0]);
        lemma_first_key_index_push(extras.drop_first(), x, key);
    }
}

proof fn lemma_first_key_index_bound(extras: Seq<(String, String)>, key: Seq<char>)
    ensures
        first_key_index(extras, key) matches Some(i) ==> 0 <= i < extras.len(),
    decreases extras.len(),
{
    if extras.len() > 0 {
        lemma_first_key_index_bound(extras.drop_first(), key);
    }
}

/// Adding an option with [`Options::with`] is read back by
/// [`Options::get`] unless the key was already set, and leaves every other
/// key as it was.
pub proof fn law_with_then_get(o: Options, o2: Options, key: Seq<char>, value: Seq<char>, other: Seq<char>)
    requires
        o2.extras@.len() == o.extras@.len() + 1,
        forall|j: int| 0 <= j < o.extras@.len() ==> o2.extras@[j] == o.extras@[j],
        o2.extras@.last().0@ == key,
        o2.extras@.last().1@ == value,
        other != key,
    ensures
        option_value(o2, key) == match option_value(o, key) {
            Some(v) => Some(v),
            None => Some(value),
        },
        option_value(o2, other) == option_value(o, other),
{
    let x = o2.extras@.last();
    assert(o2.extras@ =~= o.extras@.push(x));
    lemma_first_key_index_push(o.extras@, x, key);
    lemma_first_key_index_push(o.extras@, x, other);
    lemma_first_key_index_bound(o.extras@, key);
    lemma_first_key_index_bound(o.extras@, other);
}

impl Options {
    /// The value of the first extra named `key`.
    pub fn get(&self, key: &str) -> (r: Option<&str>)
        ensures
            match r {
                Some(v) => option_value(*self, key@) == Some(v@),
                None => option_value(*self, key@) is None,
            },
    {
        let mut i: usize = 0;
        while i < self.extras.len()
            invariant
                i <= self.extras@.len(),
                forall|j: int| 0 <= j < i ==> self.extras@[j].0@ != key@,
            decreases self.extras@.len() - i,
        {
            if str_eq(self.extras[i].0.as_str(), key) {
                proof {
                    lemma_first_key_index_at(self.extras@, key@, i as int);
                }
                return Some(self.extras[i].1.as_str());
            }
            i = i + 1;
        }
        proof {
            lemma_first_key_index_none(self.extras@, key@);
        }
        None
    }

    /// The same options with `key=value` appended to the extras.
    pub fn with(self, key: &str, value: &str) -> (o: Options)
        ensures
            o.include_text == self.include_text,
            o.extras@.len() == self.extras@.len() + 1,
            forall|j: int| 0 <= j < self.extras@.len() ==> o.extras@[j] == self.extras@[j],
            o.extras@.last().0@ == key@,
            o.extras@.last().1@ == value@,
    {
        let mut o = self;
        o.extras.push((String::from_str(key), String::from_str(value)));
        o
    }
}

} // verus!
