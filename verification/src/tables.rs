//! Ordered key-value tables for the session's inputs.
//!
//! Both the driver abbreviation table (driver code to driver identifier)
//! and the positional dataset (driver identifier to sample series) are
//! order-preserving association lists: iteration order is the canonical
//! driver enumeration order, and a lookup returns the value of the first
//! entry whose key matches.  Keys are unique in a well-formed table, so the
//! first match is the only one.

use vstd::prelude::*;

verus! {

/// Value of the first entry of `entries` whose key equals `key`.
pub open spec fn assoc_get<V>(entries: Seq<(Seq<char>, V)>, key: Seq<char>) -> Option<V>
    decreases entries.len(),
{
    if entries.len() == 0 {
        None
    } else if entries[0].0 == key {
        Some(entries[0].1)
    } else {
        assoc_get(entries.drop_first(), key)
    }
}

/// No two entries of `entries` share a key.
pub open spec fn unique_keys<V>(entries: Seq<(Seq<char>, V)>) -> bool {
    forall|i: int, j: int| 0 <= i < j < entries.len() ==> entries[i].0 != entries[j].0
}

/// When no entry among the first `i` matches `key`, the lookup is decided
/// by the remaining entries.
proof fn lemma_assoc_get_skip<V>(entries: Seq<(Seq<char>, V)>, key: Seq<char>, i: int)
    requires
        0 <= i <= entries.len(),
        forall|j: int| 0 <= j < i ==> entries[j].0 != key,
    ensures
        assoc_get(entries, key) == assoc_get(entries.skip(i), key),
    decreases i,
{
    if i > 0 {
        assert(entries[0].0 != key);
        assert forall|j: int| 0 <= j < i - 1 implies entries.drop_first()[j].0 != key by {
            assert(entries.drop_first()[j] == entries[j + 1]);
        }
        lemma_assoc_get_skip(entries.drop_first(), key, i - 1);
        assert(entries.drop_first().skip(i - 1) =~= entries.skip(i));
    } else {
        assert(entries.skip(0) =~= entries);
    }
}

/// Ordered table from driver code (short abbreviation) to driver
/// identifier (car-number string).  Entry order is the canonical driver
/// enumeration order of the whole pipeline.
pub struct AbbrevTable {
    pub entries: Vec<(String, String)>,
}

impl View for AbbrevTable {
    type V = Seq<(Seq<char>, Seq<char>)>;

    open spec fn view(&self) -> Seq<(Seq<char>, Seq<char>)> {
        Seq::new(self.entries@.len(), |i: int| (self.entries@[i].0@, self.entries@[i].1@))
    }
}

impl AbbrevTable {
    /// Driver codes are unique.
    pub open spec fn wf(self) -> bool {
        unique_keys(self@)
    }

    /// Identifier of the first entry for `code`.
    pub open spec fn spec_get(self, code: Seq<char>) -> Option<Seq<char>> {
        assoc_get(self@, code)
    }

    pub fn new() -> (t: AbbrevTable)
        ensures
            t@ =~= Seq::<(Seq<char>, Seq<char>)>::empty(),
    {
        AbbrevTable { entries: Vec::new() }
    }

    /// Appends an entry at the end of the enumeration order.
    pub fn push(&mut self, code: String, id: String)
        ensures
            final(self)@ =~= old(self)@.push((code@, id@)),
    {
        self.entries.push((code, id));
    }

    pub fn len(&self) -> (n: usize)
        ensures
            n == self@.len(),
    {
        self.entries.len()
    }

    /// Looks the driver code up; returns the identifier of the first
    /// matching entry.
    pub fn get(&self, code: &String) -> (r: Option<&String>)
        ensures
            match r {
                Some(id) => self.spec_get(code@) == Some(id@),
                None => self.spec_get(code@) is None,
            },
    {
        let mut i: usize = 0;
        while i < self.entries.len()
            invariant
                i <= self@.len(),
                forall|j: int| 0 <= j < i ==> self@[j].0 != code@,
            decreases self@.len() - i,
        {
            if self.entries[i].0 == *code {
                proof {
                    lemma_assoc_get_skip(self@, code@, i as int);
                    assert(self@.skip(i as int)[0] == self@[i as int]);
                }
                return Some(&self.entries[i].1);
            }
            i += 1;
        }
        proof {
            lemma_assoc_get_skip(self@, code@, i as int);
            assert(self@.skip(i as int) =~= Seq::<(Seq<char>, Seq<char>)>::empty());
        }
        None
    }

    /// True when the driver codes are unique, so that the table is a map.
    pub fn is_wf(&self) -> (b: bool)
        ensures
            b == self.wf(),
    {
        let mut i: usize = 0;
        while i < self.entries.len()
            invariant
                i <= self@.len(),
                forall|p: int, q: int| 0 <= p < q < self@.len() && p < i ==> self@[p].0 != self@[q].0,
            decreases self@.len() - i,
        {
            let mut j: usize = i + 1;
            while j < self.entries.len()
                invariant
                    i < j <= self@.len(),
                    forall|q: int| i < q < j ==> self@[i as int].0 != self@[q].0,
                decreases self@.len() - j,
            {
                if self.entries[i].0 == self.entries[j].0 {
                    proof {
                        assert(self@[i as int].0 == self@[j as int].0);
                    }
                    return false;
                }
                j += 1;
            }
            i += 1;
        }
        true
    }
}

/// Ordered table from driver identifier to that driver's positional
/// series, one sample per arrival-order index.
pub struct Dataset<T> {
    pub entries: Vec<(String, Vec<T>)>,
}

impl<T> View for Dataset<T> {
    type V = Seq<(Seq<char>, Seq<T>)>;

    open spec fn view(&self) -> Seq<(Seq<char>, Seq<T>)> {
        Seq::new(self.entries@.len(), |i: int| (self.entries@[i].0@, self.entries@[i].1@))
    }
}

impl<T> Dataset<T> {
    /// Driver identifiers are unique.
    pub open spec fn wf(self) -> bool {
        unique_keys(self@)
    }

    /// Series of the first entry for `id`.
    pub open spec fn spec_get(self, id: Seq<char>) -> Option<Seq<T>> {
        assoc_get(self@, id)
    }

    pub fn new() -> (d: Dataset<T>)
        ensures
            d@ =~= Seq::<(Seq<char>, Seq<T>)>::empty(),
    {
        Dataset { entries: Vec::new() }
    }

    /// Appends a driver's series at the end of the enumeration order.
    pub fn push(&mut self, id: String, series: Vec<T>)
        ensures
            final(self)@ =~= old(self)@.push((id@, series@)),
    {
        self.entries.push((id, series));
    }

    pub fn len(&self) -> (n: usize)
        ensures
            n == self@.len(),
    {
        self.entries.len()
    }

    /// Looks the driver identifier up; returns the series of the first
    /// matching entry.
    pub fn get(&self, id: &String) -> (r: Option<&Vec<T>>)
        ensures
            match r {
                Some(series) => self.spec_get(id@) == Some(series@),
                None => self.spec_get(id@) is None,
            },
    {
        let mut i: usize = 0;
        while i < self.entries.len()
            invariant
                i <= self@.len(),
                forall|j: int| 0 <= j < i ==> self@[j].0 != id@,
            decreases self@.len() - i,
        {
            if self.entries[i].0 == *id {
                proof {
                    lemma_assoc_get_skip(self@, id@, i as int);
                    assert(self@.skip(i as int)[0] == self@[i as int]);
                }
                return Some(&self.entries[i].1);
            }
            i += 1;
        }
        proof {
            lemma_assoc_get_skip(self@, id@, i as int);
            assert(self@.skip(i as int) =~= Seq::<(Seq<char>, Seq<T>)>::empty());
        }
        None
    }
}

} // verus!
