//! The named options of one invocation of the tool.

use vstd::prelude::*;
use vstd::string::StringExecFns;

verus! {

/// An option's name and its value.
pub type Entry = (Seq<char>, Seq<char>);

/// Whether no name occurs twice in `entries`.
pub open spec fn distinct_names(entries: Seq<Entry>) -> bool {
    forall|i: int, j: int|
        0 <= i < j < entries.len() ==> (#[trigger] entries[i]).0 != (#[trigger] entries[j]).0
}

/// The position of the entry called `name`, or the length where there is
/// none.
pub open spec fn position(entries: Seq<Entry>, name: Seq<char>) -> nat
    decreases entries.len(),
{
    if entries.len() == 0 || entries[0].0 == name {
        0
    } else {
        1 + position(entries.drop_first(), name)
    }
}

/// The value of the entry called `name`, if there is one.
pub open spec fn lookup(entries: Seq<Entry>, name: Seq<char>) -> Option<Seq<char>> {
    if position(entries, name) < entries.len() {
        Some(entries[position(entries, name) as int].1)
    } else {
        None
    }
}

/// `entries` with the value `value` for the name `name`: in the place of the
/// entry of that name, or at the end where there is none.
pub open spec fn with_entry(entries: Seq<Entry>, name: Seq<char>, value: Seq<char>) -> Seq<Entry> {
    if position(entries, name) < entries.len() {
        entries.update(position(entries, name) as int, (name, value))
    } else {
        entries.push((name, value))
    }
}

/// `position` is the least position that holds `name`.
pub proof fn lemma_position(entries: Seq<Entry>, name: Seq<char>)
    ensures
        position(entries, name) <= entries.len(),
        position(entries, name) < entries.len() ==> entries[position(entries, name) as int].0
            == name,
        forall|j: int| 0 <= j < position(entries, name) ==> (#[trigger] entries[j]).0 != name,
    decreases entries.len(),
{
    if entries.len() == 0 || entries[0].0 == name {
    } else {
        let rest = entries.drop_first();
        lemma_position(rest, name);
        assert forall|j: int| 0 <= j < position(entries, name) implies (#[trigger] entries[j]).0
            != name by {
            if j > 0 {
                assert(entries[j] == rest[j - 1]);
            }
        }
    }
}

/// The entries behave as a mapping: a name has the value that it was given
/// last, the other names keep theirs, and no name comes to occur twice.
pub proof fn lemma_with_entry(
    entries: Seq<Entry>,
    name: Seq<char>,
    value: Seq<char>,
    other: Seq<char>,
)
    requires
        distinct_names(entries),
    ensures
        distinct_names(with_entry(entries, name, value)),
        lookup(with_entry(entries, name, value), name) == Some(value),
        other != name ==> lookup(with_entry(entries, name, value), other) == lookup(entries, other),
{
    let after = with_entry(entries, name, value);
    let at = position(entries, name) as int;
    lemma_position(entries, name);
    lemma_position(entries, other);
    lemma_position(after, name);
    lemma_position(after, other);
    assert(after[at].0 == name);
    assert forall|j: int| 0 <= j < after.len() && j != at implies (#[trigger] after[j]).0
        != name by {
        if j < at {
            assert(entries[j].0 != name);
        } else {
            assert(entries[at].0 != entries[j].0);
        }
    }
    assert(position(after, name) == at) by {
        if position(after, name) < at {
            assert(after[position(after, name) as int].0 == name);
        }
    }
    if other != name {
        let was = position(entries, other) as int;
        let is = position(after, other) as int;
        if was < entries.len() {
            assert(after[was] == entries[was]);
            if is < was {
                assert(after[is].0 == other);
                assert(entries[is].0 != other);
            }
        } else if is < after.len() {
            assert(after[is].0 == other);
            if is < entries.len() {
                assert(entries[is].0 != other);
            }
        }
    }
}

/// A mapping from option names to values: the names without the leading
/// dash, no name twice. The entries keep the order in which their names
/// first came in.
pub struct Options {
    entries: Vec<(String, String)>,
}

impl Options {
    #[verifier::type_invariant]
    spec fn valid(&self) -> bool {
        distinct_names(self.entries.deep_view())
    }

    /// The entries, in order.
    pub closed spec fn entries(&self) -> Seq<Entry> {
        self.entries.deep_view()
    }

    /// The mapping without entries.
    pub fn new() -> (r: Options)
        ensures
            r.entries() == Seq::<Entry>::empty(),
    {
        let r = Options { entries: Vec::new() };
        assert(r.entries.deep_view() =~= Seq::<Entry>::empty());
        r
    }

    /// The number of entries. No name occurs twice among them.
    pub fn len(&self) -> (n: usize)
        ensures
            n == self.entries().len(),
            distinct_names(self.entries()),
    {
        proof {
            use_type_invariant(self);
        }
        self.entries.len()
    }

    /// The name and the value of the entry at position `i`, if there are
    /// that many.
    pub fn entry(&self, i: usize) -> (r: Option<(&String, &String)>)
        ensures
            match r {
                Some((name, value)) => i < self.entries().len() && (name@, value@)
                    == self.entries()[i as int],
                None => i >= self.entries().len(),
            },
    {
        if i < self.entries.len() {
            let held = &self.entries[i];
            Some((&held.0, &held.1))
        } else {
            None
        }
    }

    /// The position of the entry called `name`, or the length.
    fn find(&self, name: &str) -> (i: usize)
        ensures
            i == position(self.entries(), name@),
            i <= self.entries().len(),
    {
        let wanted = String::from_str(name);
        let mut i: usize = 0;
        while i < self.entries.len() && self.entries[i].0 != wanted
            invariant
                wanted@ == name@,
                i <= self.entries@.len(),
                forall|j: int| 0 <= j < i ==> (#[trigger] self.entries.deep_view()[j]).0 != name@,
            decreases self.entries@.len() - i,
        {
            assert(self.entries.deep_view()[i as int].0 == self.entries@[i as int].0@);
            i += 1;
        }
        proof {
            if i < self.entries@.len() {
                assert(self.entries.deep_view()[i as int].0 == self.entries@[i as int].0@);
            }
            lemma_position(self.entries(), name@);
        }
        i
    }

    /// The value of the option called `name`.
    pub fn get(&self, name: &str) -> (r: Option<&String>)
        ensures
            r.deep_view() == lookup(self.entries(), name@),
    {
        let i = self.find(name);
        if i < self.entries.len() {
            Some(&self.entries[i].1)
        } else {
            None
        }
    }

    /// Gives the option called `name` the value `value`. An entry of that
    /// name keeps its place and hands out the value it had; a new name goes
    /// to the end.
    pub fn insert(&mut self, name: &str, value: &str) -> (r: Option<String>)
        ensures
            r.deep_view() == lookup(old(self).entries(), name@),
            final(self).entries() == with_entry(old(self).entries(), name@, value@),
    {
        proof {
            use_type_invariant(&*self);
            lemma_position(self.entries(), name@);
        }
        let ghost before = self.entries.deep_view();
        let i = self.find(name);
        let entry = (String::from_str(name), String::from_str(value));
        // The entries leave the mapping while they change: in between, a
        // name may be missing from them.
        let mut entries: Vec<(String, String)> = Vec::new();
        core::mem::swap(&mut entries, &mut self.entries);
        let had = if i < entries.len() {
            let held = entries.remove(i);
            entries.insert(i, entry);
            assert(entries.deep_view() =~= before.update(i as int, (name@, value@)));
            Some(held.1)
        } else {
            entries.push(entry);
            assert(entries.deep_view() =~= before.push((name@, value@)));
            None
        };
        self.entries = entries;
        had
    }
}

} // verus!
