//! The header mapping of a request or a response: an ordered list of
//! `(name, value)` pairs with case-sensitive names, last-write-wins
//! insertion, and lookup by exact name.

use vstd::prelude::*;
use crate::strutil::str_eq;

verus! {

/// A mapping from header names to values. Iteration order is the order of
/// first insertion; inserting an existing name overwrites its value in
/// place.
pub struct Headers {
    entries: Vec<(String, String)>,
}

impl View for Headers {
    type V = Seq<(Seq<char>, Seq<char>)>;

    closed spec fn view(&self) -> Seq<(Seq<char>, Seq<char>)> {
        Seq::new(self.entries@.len(), |i: int| (self.entries@[i].0@, self.entries@[i].1@))
    }
}

/// The value mapped to `name`: the value of the first entry carrying it.
pub open spec fn spec_header_get(hs: Seq<(Seq<char>, Seq<char>)>, name: Seq<char>) -> Option<
    Seq<char>,
>
    decreases hs.len(),
{
    if hs.len() == 0 {
        None
    } else if hs[0].0 == name {
        Some(hs[0].1)
    } else {
        spec_header_get(hs.drop_first(), name)
    }
}

/// Insertion with last-write-wins: the first entry carrying `name` gets the
/// new value; when none does, a new entry is appended.
pub open spec fn spec_header_insert(
    hs: Seq<(Seq<char>, Seq<char>)>,
    name: Seq<char>,
    value: Seq<char>,
) -> Seq<(Seq<char>, Seq<char>)>
    decreases hs.len(),
{
    if hs.len() == 0 {
        seq![(name, value)]
    } else if hs[0].0 == name {
        seq![(name, value)] + hs.drop_first()
    } else {
        seq![hs[0]] + spec_header_insert(hs.drop_first(), name, value)
    }
}

/// No two entries carry the same name.
pub open spec fn unique_names(hs: Seq<(Seq<char>, Seq<char>)>) -> bool {
    forall|i: int, j: int| 0 <= i < j < hs.len() ==> hs[i].0 != hs[j].0
}

proof fn lemma_header_get_at(hs: Seq<(Seq<char>, Seq<char>)>, name: Seq<char>, i: int)
    requires
        0 <= i < hs.len(),
        hs[i].0 == name,
        forall|j: int| 0 <= j < i ==> hs[j].0 != name,
    ensures
        spec_header_get(hs, name) == Some(hs[i].1),
    decreases i,
{
    if i > 0 {
        assert(forall|j: int| 0 <= j < i - 1 ==> hs.drop_first()[j].0 == hs[j + 1].0);
        lemma_header_get_at(hs.drop_first(), name, i - 1);
    }
}

proof fn lemma_header_get_absent(hs: Seq<(Seq<char>, Seq<char>)>, name: Seq<char>)
    requires
        forall|j: int| 0 <= j < hs.len() ==> hs[j].0 != name,
    ensures
        spec_header_get(hs, name) is None,
    decreases hs.len(),
{
    if hs.len() > 0 {
        assert(forall|j: int| 0 <= j < hs.len() - 1 ==> hs.drop_first()[j].0 == hs[j + 1].0);
        lemma_header_get_absent(hs.drop_first(), name);
    }
}

proof fn lemma_header_insert_at(
    hs: Seq<(Seq<char>, Seq<char>)>,
    name: Seq<char>,
    value: Seq<char>,
    i: int,
)
    requires
        0 <= i < hs.len(),
        hs[i].0 == name,
        forall|j: int| 0 <= j < i ==> hs[j].0 != name,
    ensures
        spec_header_insert(hs, name, value) == hs.update(i, (name, value)),
    decreases i,
{
    if i == 0 {
        assert(seq![(name, value)] + hs.drop_first() =~= hs.update(0, (name, value)));
    } else {
        assert(forall|j: int| 0 <= j < i - 1 ==> hs.drop_first()[j].0 == hs[j + 1].0);
        lemma_header_insert_at(hs.drop_first(), name, value, i - 1);
        assert(seq![hs[0]] + hs.drop_first().update(i - 1, (name, value)) =~= hs.update(
            i,
            (name, value),
        ));
    }
}

proof fn lemma_header_insert_absent(
    hs: Seq<(Seq<char>, Seq<char>)>,
    name: Seq<char>,
    value: Seq<char>,
)
    requires
        forall|j: int| 0 <= j < hs.len() ==> hs[j].0 != name,
    ensures
        spec_header_insert(hs, name, value) == hs.push((name, value)),
    decreases hs.len(),
{
    if hs.len() == 0 {
        assert(seq![(name, value)] =~= hs.push((name, value)));
    } else {
        assert(forall|j: int| 0 <= j < hs.len() - 1 ==> hs.drop_first()[j].0 == hs[j + 1].0);
        lemma_header_insert_absent(hs.drop_first(), name, value);
        assert(seq![hs[0]] + hs.drop_first().push((name, value)) =~= hs.push((name, value)));
    }
}

/// Last write wins: after inserting `name`, looking `name` up yields the
/// value just inserted.
pub proof fn lemma_header_insert_get_same(
    hs: Seq<(Seq<char>, Seq<char>)>,
    name: Seq<char>,
    value: Seq<char>,
)
    ensures
        spec_header_get(spec_header_insert(hs, name, value), name) == Some(value),
    decreases hs.len(),
{
    if hs.len() > 0 && hs[0].0 != name {
        lemma_header_insert_get_same(hs.drop_first(), name, value);
        assert((seq![hs[0]] + spec_header_insert(hs.drop_first(), name, value)).drop_first()
            =~= spec_header_insert(hs.drop_first(), name, value));
    }
}

/// Inserting under one name leaves what every other name maps to unchanged.
pub proof fn lemma_header_insert_get_other(
    hs: Seq<(Seq<char>, Seq<char>)>,
    name: Seq<char>,
    value: Seq<char>,
    other: Seq<char>,
)
    requires
        other != name,
    ensures
        spec_header_get(spec_header_insert(hs, name, value), other) == spec_header_get(hs, other),
    decreases hs.len(),
{
    let r = spec_header_insert(hs, name, value);
    if hs.len() == 0 {
        assert(r == seq![(name, value)]);
        assert(r[0].0 == name);
        assert(r.drop_first() =~= Seq::<(Seq<char>, Seq<char>)>::empty());
        assert(spec_header_get(r, other) == spec_header_get(r.drop_first(), other));
    } else if hs[0].0 == name {
        assert(r == seq![(name, value)] + hs.drop_first());
        assert(r[0].0 == name);
        assert(r.drop_first() =~= hs.drop_first());
        assert(spec_header_get(r, other) == spec_header_get(hs.drop_first(), other));
        assert(spec_header_get(hs, other) == spec_header_get(hs.drop_first(), other));
    } else {
        lemma_header_insert_get_other(hs.drop_first(), name, value, other);
        let t = spec_header_insert(hs.drop_first(), name, value);
        assert(r == seq![hs[0]] + t);
        assert(r[0] == hs[0]);
        assert(r.drop_first() =~= t);
        assert(r.len() > 0);
        if hs[0].0 == other {
            assert(spec_header_get(r, other) == Some(r[0].1));
            assert(spec_header_get(hs, other) == Some(hs[0].1));
        } else {
            assert(spec_header_get(r, other) == spec_header_get(t, other));
            assert(spec_header_get(hs, other) == spec_header_get(hs.drop_first(), other));
        }
    }
}

/// Insertion keeps header names unique, so the list stays a mapping.
pub proof fn lemma_header_insert_unique(
    hs: Seq<(Seq<char>, Seq<char>)>,
    name: Seq<char>,
    value: Seq<char>,
)
    requires
        unique_names(hs),
    ensures
        unique_names(spec_header_insert(hs, name, value)),
    decreases hs.len(),
{
    if hs.len() == 0 {
    } else if hs[0].0 == name {
        let r = seq![(name, value)] + hs.drop_first();
        assert forall|i: int, j: int| 0 <= i < j < r.len() implies r[i].0 != r[j].0 by {
            assert(forall|k: int| 0 <= k < hs.len() - 1 ==> #[trigger] r[k + 1] == hs[k + 1]);
        }
    } else {
        assert(forall|i: int, j: int|
            0 <= i < j < hs.drop_first().len() ==> hs.drop_first()[i].0 != hs.drop_first()[j].0);
        lemma_header_insert_unique(hs.drop_first(), name, value);
        let t = spec_header_insert(hs.drop_first(), name, value);
        let r = seq![hs[0]] + t;
        lemma_header_insert_names(hs.drop_first(), name, value);
        assert forall|i: int, j: int| 0 <= i < j < r.len() implies r[i].0 != r[j].0 by {
            if i == 0 {
                assert(r[j].0 == t[j - 1].0);
            }
        }
    }
}

/// Every name in the inserted list is either `name` or a name that was
/// already there.
proof fn lemma_header_insert_names(
    hs: Seq<(Seq<char>, Seq<char>)>,
    name: Seq<char>,
    value: Seq<char>,
)
    ensures
        forall|i: int|
            0 <= i < spec_header_insert(hs, name, value).len() ==> (spec_header_insert(
                hs,
                name,
                value,
            )[i].0 == name || (exists|j: int|
                0 <= j < hs.len() && hs[j].0 == spec_header_insert(hs, name, value)[i].0)),
    decreases hs.len(),
{
    if hs.len() == 0 {
    } else if hs[0].0 == name {
        let r = seq![(name, value)] + hs.drop_first();
        assert forall|i: int| 0 <= i < r.len() && r[i].0 != name implies (exists|j: int|
            0 <= j < hs.len() && hs[j].0 == r[i].0) by {
            assert(r[i] == hs[i]);
        }
    } else {
        lemma_header_insert_names(hs.drop_first(), name, value);
        let t = spec_header_insert(hs.drop_first(), name, value);
        let r = seq![hs[0]] + t;
        assert forall|i: int| 0 <= i < r.len() && r[i].0 != name implies (exists|j: int|
            0 <= j < hs.len() && hs[j].0 == r[i].0) by {
            if i == 0 {
                assert(hs[0].0 == r[0].0);
            } else {
                assert(r[i] == t[i - 1]);
                let ghost t_name: Seq<char> = t[i - 1].0;
                let j = choose|j: int|
                    0 <= j < hs.drop_first().len() && hs.drop_first()[j].0 == t_name;
                assert(hs[j + 1].0 == r[i].0);
            }
        }
    }
}

impl Headers {
    /// An empty mapping.
    pub fn new() -> (h: Headers)
        ensures
            h@ == Seq::<(Seq<char>, Seq<char>)>::empty(),
    {
        let h = Headers { entries: Vec::new() };
        proof {
            assert(h@ =~= Seq::<(Seq<char>, Seq<char>)>::empty());
        }
        h
    }

    /// The number of entries.
    pub fn len(&self) -> (n: usize)
        ensures
            n == self@.len(),
    {
        self.entries.len()
    }

    /// The entry at position `i`, in iteration order.
    pub fn pair_at(&self, i: usize) -> (p: &(String, String))
        requires
            i < self@.len(),
        ensures
            p.0@ == self@[i as int].0,
            p.1@ == self@[i as int].1,
    {
        &self.entries[i]
    }

    /// Maps `name` to `value`, overwriting any value `name` already had.
    #[verifier::loop_isolation(false)]
    pub fn insert(&mut self, name: String, value: String)
        ensures
            final(self)@ == spec_header_insert(old(self)@, name@, value@),
    {
        let n = self.entries.len();
        let mut i: usize = 0;
        while i < n
            invariant
                i <= n,
                n == self@.len(),
                *self == *old(self),
                forall|j: int| 0 <= j < i ==> self@[j].0 != name@,
            decreases n - i,
        {
            if str_eq(self.entries[i].0.as_str(), name.as_str()) {
                proof {
                    lemma_header_insert_at(self@, name@, value@, i as int);
                }
                self.entries[i] = (name, value);
                proof {
                    assert(final(self)@ =~= old(self)@.update(i as int, (name@, value@)));
                }
                return ;
            }
            i = i + 1;
        }
        proof {
            lemma_header_insert_absent(self@, name@, value@);
        }
        self.entries.push((name, value));
        proof {
            assert(final(self)@ =~= old(self)@.push((name@, value@)));
        }
    }

    /// The value mapped to `name`, when `name` is present.
    #[verifier::loop_isolation(false)]
    pub fn get(&self, name: &str) -> (r: Option<&String>)
        ensures
            match r {
                Some(v) => spec_header_get(self@, name@) == Some(v@),
                None => spec_header_get(self@, name@) is None,
            },
    {
        let n = self.entries.len();
        let mut i: usize = 0;
        while i < n
            invariant
                i <= n,
                n == self@.len(),
                forall|j: int| 0 <= j < i ==> self@[j].0 != name@,
            decreases n - i,
        {
            if str_eq(self.entries[i].0.as_str(), name) {
                proof {
                    lemma_header_get_at(self@, name@, i as int);
                }
                return Some(&self.entries[i].1);
            }
            i = i + 1;
        }
        proof {
            lemma_header_get_absent(self@, name@);
        }
        None
    }
}

} // verus!
