//! Document indices by event name.

use vstd::prelude::*;
use vstd::slice::slice_to_vec;

use crate::text::{
    comes_before, lemma_text_before_irreflexive, lemma_text_before_total,
    lemma_text_before_transitive, same_text, text_before,
};

verus! {

/// The names are in ascending order, each once.
pub open spec fn names_ascending(entries: Seq<(Seq<char>, Seq<usize>)>) -> bool {
    forall|i: int, j: int|
        0 <= i < j < entries.len() ==> text_before(#[trigger] entries[i].0, #[trigger] entries[j].0)
}

/// Number of leading names that come before `name`.
pub open spec fn name_slot(entries: Seq<(Seq<char>, Seq<usize>)>, name: Seq<char>) -> int
    decreases entries.len(),
{
    if entries.len() > 0 && text_before(entries[0].0, name) {
        1 + name_slot(entries.drop_first(), name)
    } else {
        0
    }
}

/// The entries with `name` given `indices`, in place of what it had.
pub open spec fn with_entry(
    entries: Seq<(Seq<char>, Seq<usize>)>,
    name: Seq<char>,
    indices: Seq<usize>,
) -> Seq<(Seq<char>, Seq<usize>)> {
    let p = name_slot(entries, name);
    if p < entries.len() && entries[p].0 == name {
        entries.update(p, (name, indices))
    } else {
        entries.insert(p, (name, indices))
    }
}

/// What `name` has.
pub open spec fn entry_of(
    entries: Seq<(Seq<char>, Seq<usize>)>,
    name: Seq<char>,
) -> Option<Seq<usize>> {
    let p = name_slot(entries, name);
    if p < entries.len() && entries[p].0 == name {
        Some(entries[p].1)
    } else {
        None
    }
}

pub proof fn lemma_name_slot(entries: Seq<(Seq<char>, Seq<usize>)>, name: Seq<char>)
    requires
        names_ascending(entries),
    ensures
        0 <= name_slot(entries, name) <= entries.len(),
        forall|i: int|
            0 <= i < name_slot(entries, name) ==> text_before(#[trigger] entries[i].0, name),
        forall|i: int|
            name_slot(entries, name) <= i < entries.len() ==> !text_before(
                #[trigger] entries[i].0,
                name,
            ),
        forall|i: int|
            0 <= i < entries.len() && #[trigger] entries[i].0 == name ==> i == name_slot(
                entries,
                name,
            ),
    decreases entries.len(),
{
    lemma_text_before_irreflexive(name);
    if entries.len() > 0 {
        let rest = entries.drop_first();
        if text_before(entries[0].0, name) {
            assert forall|i: int, j: int| 0 <= i < j < rest.len() implies text_before(
                #[trigger] rest[i].0,
                #[trigger] rest[j].0,
            ) by {
                assert(rest[i] == entries[i + 1] && rest[j] == entries[j + 1]);
            }
            lemma_name_slot(rest, name);
            assert forall|i: int| 0 <= i < entries.len() implies (text_before(
                #[trigger] entries[i].0,
                name,
            ) <==> i < name_slot(entries, name)) by {
                if i > 0 {
                    assert(entries[i] == rest[i - 1]);
                }
            }
            assert forall|i: int|
                0 <= i < entries.len() && #[trigger] entries[i].0 == name implies i == name_slot(
                entries,
                name,
            ) by {
                assert(entries[i] == rest[i - 1]);
            }
        } else {
            assert forall|i: int| 0 <= i < entries.len() implies !text_before(
                #[trigger] entries[i].0,
                name,
            ) by {
                if i > 0 && text_before(entries[i].0, name) {
                    lemma_text_before_transitive(entries[0].0, entries[i].0, name);
                }
            }
            assert forall|i: int|
                0 <= i < entries.len() && #[trigger] entries[i].0 == name implies i
                == 0 by {
                if i > 0 {
                    assert(text_before(entries[0].0, entries[i].0));
                }
            }
        }
    }
}

/// A name has one place.
pub proof fn lemma_position(
    entries: Seq<(Seq<char>, Seq<usize>)>,
    name: Seq<char>,
    p: int,
)
    requires
        names_ascending(entries),
        0 <= p < entries.len(),
        entries[p].0 == name,
    ensures
        p == name_slot(entries, name),
{
    lemma_name_slot(entries, name);
}

/// Giving a name new indices keeps the names in order, makes them what the
/// name has, and leaves every other name alone.
pub proof fn lemma_with_entry(
    entries: Seq<(Seq<char>, Seq<usize>)>,
    name: Seq<char>,
    indices: Seq<usize>,
    other: Seq<char>,
)
    requires
        names_ascending(entries),
    ensures
        names_ascending(with_entry(entries, name, indices)),
        entries.len() <= with_entry(entries, name, indices).len() <= entries.len() + 1,
        entry_of(with_entry(entries, name, indices), name) == Some(indices),
        other != name ==> entry_of(with_entry(entries, name, indices), other) == entry_of(
            entries,
            other,
        ),
{
    let p = name_slot(entries, name);
    let r = with_entry(entries, name, indices);
    lemma_name_slot(entries, name);
    let replaced = p < entries.len() && entries[p].0 == name;
    assert forall|i: int, j: int| 0 <= i < j < r.len() implies text_before(
        #[trigger] r[i].0,
        #[trigger] r[j].0,
    ) by {
        if replaced {
            assert(r[i].0 == entries[i].0 && r[j].0 == entries[j].0);
        } else {
            let a = if i <= p {
                i
            } else {
                i - 1
            };
            let b = if j <= p {
                j
            } else {
                j - 1
            };
            if i == p {
                assert(r[j] == entries[j - 1]);
                lemma_text_before_total(entries[j - 1].0, name);
            } else if j == p {
                assert(r[i] == entries[i]);
            } else {
                assert(r[i] == entries[a] && r[j] == entries[b]);
            }
        }
    }
    lemma_name_slot(r, name);
    assert(r[p].0 == name);
    lemma_name_slot(r, other);
    lemma_name_slot(entries, other);
    if other != name {
        let q = name_slot(entries, other);
        let s = name_slot(r, other);
        if q < entries.len() && entries[q].0 == other {
            let t = if replaced || q < p {
                q
            } else {
                q + 1
            };
            assert(r[t] == entries[q]);
        }
        if s < r.len() && r[s].0 == other {
            let t = if replaced || s < p {
                s
            } else {
                s - 1
            };
            assert(r[s] == entries[t]);
        }
    }
}

/// Document indices by event name, in the order of the names.
#[derive(Debug)]
pub struct NamedScope {
    entries: Vec<(String, Vec<usize>)>,
}

impl View for NamedScope {
    type V = Seq<(Seq<char>, Seq<usize>)>;

    closed spec fn view(&self) -> Seq<(Seq<char>, Seq<usize>)> {
        Seq::new(self.entries@.len(), |i: int| (self.entries@[i].0@, self.entries@[i].1@))
    }
}

impl NamedScope {
    pub open spec fn wf(&self) -> bool {
        names_ascending(self@)
    }

    pub fn new() -> (scope: Self)
        ensures
            scope.wf(),
            scope@ == Seq::<(Seq<char>, Seq<usize>)>::empty(),
    {
        let scope = NamedScope { entries: Vec::new() };
        assert(scope@ =~= Seq::empty());
        scope
    }

    pub fn len(&self) -> (n: usize)
        ensures
            n == self@.len(),
    {
        self.entries.len()
    }

    pub fn is_empty(&self) -> (b: bool)
        ensures
            b == (self@.len() == 0),
    {
        self.entries.len() == 0
    }

    /// The name at place `i`.
    pub fn name(&self, i: usize) -> (name: &str)
        requires
            i < self@.len(),
        ensures
            name@ == self@[i as int].0,
    {
        self.entries[i].0.as_str()
    }

    /// The indices of the name at place `i`.
    pub fn indices(&self, i: usize) -> (indices: &[usize])
        requires
            i < self@.len(),
        ensures
            indices@ == self@[i as int].1,
    {
        self.entries[i].1.as_slice()
    }

    /// Number of names that come before `name`.
    fn slot(&self, name: &str) -> (p: usize)
        requires
            self.wf(),
        ensures
            p == name_slot(self@, name@),
            p <= self@.len(),
    {
        let mut i: usize = 0;
        assert(self@.skip(0) =~= self@);
        while i < self.entries.len() && comes_before(self.entries[i].0.as_str(), name)
            invariant
                i <= self@.len(),
                name_slot(self@, name@) == i + name_slot(self@.skip(i as int), name@),
            decreases self@.len() - i,
        {
            assert(self@.skip(i as int).drop_first() =~= self@.skip(i + 1));
            assert(self@.skip(i as int)[0] == self@[i as int]);
            i = i + 1;
        }
        assert(i < self@.len() ==> self@.skip(i as int)[0] == self@[i as int]);
        i
    }

    /// Whether `name` stands at place `p`.
    fn names_at(&self, p: usize, name: &str) -> (b: bool)
        ensures
            b == (p < self@.len() && self@[p as int].0 == name@),
    {
        p < self.entries.len() && same_text(self.entries[p].0.as_str(), name)
    }

    /// The place of `name`.
    pub fn position(&self, name: &str) -> (p: Option<usize>)
        requires
            self.wf(),
        ensures
            p matches Some(p) ==> p < self@.len() && self@[p as int].0 == name@,
            p is None ==> forall|i: int| 0 <= i < self@.len() ==> #[trigger] self@[i].0 != name@,
            p is Some <==> entry_of(self@, name@) is Some,
    {
        proof {
            lemma_name_slot(self@, name@);
        }
        let p: usize = self.slot(name);
        if self.names_at(p, name) {
            Some(p)
        } else {
            None
        }
    }

    /// What `name` has.
    pub fn get(&self, name: &str) -> (indices: Option<&[usize]>)
        requires
            self.wf(),
        ensures
            indices is Some <==> entry_of(self@, name@) is Some,
            indices matches Some(indices) ==> entry_of(self@, name@) == Some(indices@),
    {
        let p: usize = self.slot(name);
        if self.names_at(p, name) {
            Some(self.entries[p].1.as_slice())
        } else {
            None
        }
    }

    /// Give `name` the indices, in place of what it had.
    pub fn insert(&mut self, name: String, indices: Vec<usize>)
        requires
            old(self).wf(),
        ensures
            final(self).wf(),
            final(self)@ == with_entry(old(self)@, name@, indices@),
            final(self)@.len() <= old(self)@.len() + 1,
    {
        proof {
            lemma_with_entry(self@, name@, indices@, name@);
        }
        let p: usize = self.slot(name.as_str());
        if self.names_at(p, name.as_str()) {
            self.entries[p] = (name, indices);
        } else {
            self.entries.insert(p, (name, indices));
        }
        assert(self@ =~= with_entry(old(self)@, name@, indices@));
    }

    /// Add one index to what `name` has.
    pub fn push_index(&mut self, name: &str, index: usize)
        requires
            old(self).wf(),
        ensures
            final(self).wf(),
            final(self)@ == with_entry(
                old(self)@,
                name@,
                (match entry_of(old(self)@, name@) {
                    Some(indices) => indices,
                    None => Seq::empty(),
                }).push(index),
            ),
    {
        let mut indices: Vec<usize> = match self.get(name) {
            Some(indices) => slice_to_vec(indices),
            None => Vec::new(),
        };
        indices.push(index);
        self.insert(name.to_owned(), indices);
    }
}

impl Clone for NamedScope {
    fn clone(&self) -> (copy: Self)
        ensures
            copy@ == self@,
    {
        let mut entries: Vec<(String, Vec<usize>)> = Vec::new();
        let mut i: usize = 0;
        while i < self.entries.len()
            invariant
                i <= self.entries@.len(),
                entries@.len() == i,
                forall|j: int|
                    #![trigger entries@[j]]
                    0 <= j < i ==> entries@[j].0@ == self.entries@[j].0@ && entries@[j].1@
                        == self.entries@[j].1@,
            decreases self.entries@.len() - i,
        {
            entries.push((self.entries[i].0.clone(), slice_to_vec(self.entries[i].1.as_slice())));
            i = i + 1;
        }
        let copy = NamedScope { entries };
        assert(copy@ =~= self@);
        copy
    }
}

/// What a name stands for is what is listed under it.
pub proof fn lemma_entry_of(entries: Seq<(Seq<char>, Seq<usize>)>, name: Seq<char>, p: int)
    requires
        names_ascending(entries),
    ensures
        0 <= p < entries.len() && entries[p].0 == name ==> entry_of(entries, name) == Some(
            entries[p].1,
        ),
        (forall|i: int| 0 <= i < entries.len() ==> (#[trigger] entries[i]).0 != name) ==> entry_of(
            entries,
            name,
        ) is None,
{
    lemma_name_slot(entries, name);
    if 0 <= p < entries.len() && entries[p].0 == name {
        lemma_position(entries, name, p);
    }
}

} // verus!
