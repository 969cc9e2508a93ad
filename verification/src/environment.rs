//! Variable bindings: each scope maps names to values and may look further
//! in the scope around it.

use vstd::prelude::*;

verus! {

/// The bindings of the entries `entries`, a later entry for a name taking
/// the place of an earlier one.
pub open spec fn entries_map<V>(entries: Seq<(String, V)>) -> Map<Seq<char>, V>
    decreases entries.len(),
{
    if entries.len() == 0 {
        Map::empty()
    } else {
        entries_map(entries.drop_last()).insert(entries.last().0@, entries.last().1)
    }
}

/// No two entries of `entries` are for the same name.
pub open spec fn distinct_names<V>(entries: Seq<(String, V)>) -> bool {
    forall|i: int, j: int|
        0 <= i < j < entries.len() ==> (#[trigger] entries[i]).0@ != (#[trigger] entries[j]).0@
}

/// The entry at `i` gives the binding of its name.
proof fn lemma_entries_lookup<V>(entries: Seq<(String, V)>, i: int)
    requires
        distinct_names(entries),
        0 <= i < entries.len(),
    ensures
        entries_map(entries).contains_key(entries[i].0@),
        entries_map(entries)[entries[i].0@] == entries[i].1,
    decreases entries.len(),
{
    if i < entries.len() - 1 {
        let rest = entries.drop_last();
        assert(rest[i] == entries[i]);
        assert(distinct_names(rest)) by {
            assert forall|a: int, b: int| 0 <= a < b < rest.len() implies (#[trigger] rest[a]).0@
                != (#[trigger] rest[b]).0@ by {
                assert(rest[a] == entries[a]);
                assert(rest[b] == entries[b]);
            }
        }
        lemma_entries_lookup(rest, i);
        assert(entries[i].0@ != entries[entries.len() - 1].0@);
    }
}

/// A name without an entry has no binding.
proof fn lemma_entries_missing<V>(entries: Seq<(String, V)>, name: Seq<char>)
    requires
        forall|i: int| 0 <= i < entries.len() ==> (#[trigger] entries[i]).0@ != name,
    ensures
        !entries_map(entries).contains_key(name),
    decreases entries.len(),
{
    if entries.len() > 0 {
        let rest = entries.drop_last();
        assert forall|i: int| 0 <= i < rest.len() implies (#[trigger] rest[i]).0@ != name by {
            assert(rest[i] == entries[i]);
        }
        lemma_entries_missing(rest, name);
    }
}

/// Giving the entry at `i` a new value rebinds its name.
proof fn lemma_entries_update<V>(entries: Seq<(String, V)>, i: int, entry: (String, V))
    requires
        distinct_names(entries),
        0 <= i < entries.len(),
        entry.0@ == entries[i].0@,
    ensures
        entries_map(entries.update(i, entry)) == entries_map(entries).insert(entry.0@, entry.1),
    decreases entries.len(),
{
    let updated = entries.update(i, entry);
    let rest = entries.drop_last();
    if i == entries.len() - 1 {
        assert(updated.drop_last() =~= rest);
        assert(entries_map(updated) =~= entries_map(entries).insert(entry.0@, entry.1));
    } else {
        assert(updated.drop_last() =~= rest.update(i, entry));
        assert(distinct_names(rest)) by {
            assert forall|a: int, b: int| 0 <= a < b < rest.len() implies (#[trigger] rest[a]).0@
                != (#[trigger] rest[b]).0@ by {
                assert(rest[a] == entries[a]);
                assert(rest[b] == entries[b]);
            }
        }
        assert(rest[i] == entries[i]);
        lemma_entries_update(rest, i, entry);
        let last = entries.last();
        assert(last.0@ != entry.0@);
        assert(updated.last() == last);
        assert(entries_map(updated) =~= entries_map(entries).insert(entry.0@, entry.1));
    }
}

/// A scope of variable bindings, with the scope around it, if any.
pub struct Environment<'a, V> {
    values: Vec<(String, V)>,
    enclosing: Option<&'a Environment<'a, V>>,
}

impl<'a, V> Environment<'a, V> {
    /// The bindings defined in this scope itself.
    pub closed spec fn local(&self) -> Map<Seq<char>, V> {
        entries_map(self.values@)
    }

    /// Every binding visible from this scope: its own, and those of the
    /// scopes around it that it does not hide.
    pub closed spec fn visible(&self) -> Map<Seq<char>, V>
        decreases self,
    {
        match self.enclosing {
            Some(outer) => outer.visible().union_prefer_right(self.local()),
            None => self.local(),
        }
    }

    /// The scope and the scopes around it bind each name at most once.
    pub closed spec fn wf(&self) -> bool
        decreases self,
    {
        &&& distinct_names(self.values@)
        &&& match self.enclosing {
            Some(outer) => outer.wf(),
            None => true,
        }
    }

    /// A scope with no bindings and none around it.
    pub fn new_global() -> (r: Self)
        ensures
            r.wf(),
            r.visible() == Map::<Seq<char>, V>::empty(),
    {
        let r = Environment { values: Vec::new(), enclosing: None };
        proof {
            assert(r.local() =~= Map::<Seq<char>, V>::empty());
        }
        r
    }

    /// A scope with no bindings of its own inside `enclosing`: it sees what
    /// `enclosing` binds.
    pub fn new_local(enclosing: &'a Environment<'a, V>) -> (r: Self)
        requires
            enclosing.wf(),
        ensures
            r.wf(),
            r.visible() == enclosing.visible(),
    {
        let r = Environment { values: Vec::new(), enclosing: Some(enclosing) };
        proof {
            assert(r.local() =~= Map::<Seq<char>, V>::empty());
            assert(r.visible() =~= enclosing.visible());
        }
        r
    }

    /// Binds `name` to `value` in this scope, in place of any binding of
    /// `name` it had; the scopes around it keep theirs.
    pub fn define(&mut self, name: String, value: V)
        requires
            old(self).wf(),
        ensures
            final(self).wf(),
            final(self).visible() == old(self).visible().insert(name@, value),
            final(self).local() == old(self).local().insert(name@, value),
    {
        let ghost before = self.values@;
        let ghost old_env = *self;
        let ghost key = name@;
        let ghost val = value;
        let mut i: usize = 0;
        while i < self.values.len()
            invariant
                i <= self.values@.len(),
                self.values@ == before,
                self.enclosing == old_env.enclosing,
                old_env == *old(self),
                old_env.wf(),
                old_env.values@ == before,
                key == name@,
                val == value,
                forall|j: int| 0 <= j < i ==> (#[trigger] self.values@[j]).0@ != name@,
            decreases self.values@.len() - i,
        {
            if self.values[i].0 == name {
                let ghost entry = (name, value);
                proof {
                    lemma_entries_update(before, i as int, entry);
                }
                self.values.set(i, (name, value));
                proof {
                    assert(self.values@ == before.update(i as int, entry));
                    assert(entry.0@ == key && entry.1 == val);
                    assert(distinct_names(self.values@)) by {
                        assert forall|a: int, b: int| 0 <= a < b < self.values@.len() implies (
                        #[trigger] self.values@[a]).0@ != (#[trigger] self.values@[b]).0@ by {
                            if a != i && b != i {
                                assert(self.values@[a] == before[a]);
                                assert(self.values@[b] == before[b]);
                            } else if a == i {
                                assert(self.values@[b] == before[b]);
                            } else {
                                assert(self.values@[a] == before[a]);
                            }
                        }
                    }
                    assert(self.local() == old_env.local().insert(key, val));
                    self.lemma_visible_insert(&old_env, key, val);
                }
                return;
            }
            i += 1;
        }
        self.values.push((name, value));
        proof {
            assert(self.values@.drop_last() =~= before);
            assert(distinct_names(self.values@)) by {
                assert forall|a: int, b: int| 0 <= a < b < self.values@.len() implies (
                #[trigger] self.values@[a]).0@ != (#[trigger] self.values@[b]).0@ by {
                    assert(self.values@[a] == before[a]);
                    if b < before.len() {
                        assert(self.values@[b] == before[b]);
                    }
                }
            }
            assert(self.local() == old_env.local().insert(key, val));
            self.lemma_visible_insert(&old_env, key, val);
        }
    }

    /// A scope whose own bindings gain a binding of `name` to `value`
    /// gains it among its visible ones.
    proof fn lemma_visible_insert(&self, old_env: &Self, name: Seq<char>, value: V)
        requires
            self.enclosing == old_env.enclosing,
            self.local() == old_env.local().insert(name, value),
        ensures
            self.visible() == old_env.visible().insert(name, value),
    {
        match self.enclosing {
            Some(outer) => {
                assert(self.visible() =~= old_env.visible().insert(name, value));
            },
            None => {},
        }
    }

    /// The value `name` is bound to, looking in this scope first and then
    /// in the scopes around it; `None` when no scope binds it.
    pub fn get(&self, name: &str) -> (r: Option<&V>)
        requires
            self.wf(),
        ensures
            r is Some == self.visible().contains_key(name@),
            r is Some ==> *r->Some_0 == self.visible()[name@],
        decreases self,
    {
        let key = name.to_owned();
        let mut i: usize = 0;
        while i < self.values.len()
            invariant
                i <= self.values@.len(),
                key@ == name@,
                distinct_names(self.values@),
                forall|j: int| 0 <= j < i ==> (#[trigger] self.values@[j]).0@ != name@,
            decreases self.values@.len() - i,
        {
            if self.values[i].0 == key {
                proof {
                    lemma_entries_lookup(self.values@, i as int);
                }
                return Some(&self.values[i].1);
            }
            i += 1;
        }
        proof {
            lemma_entries_missing(self.values@, name@);
        }
        match self.enclosing {
            Some(outer) => outer.get(name),
            None => None,
        }
    }
}

/// Looking up a name just defined gives back the value defined, and every
/// other name keeps what it was bound to.
pub proof fn lemma_get_after_define<V>(
    visible: Map<Seq<char>, V>,
    name: Seq<char>,
    value: V,
    other: Seq<char>,
)
    ensures
        visible.insert(name, value).contains_key(name),
        visible.insert(name, value)[name] == value,
        other != name ==> visible.insert(name, value).contains_key(other) == visible.contains_key(
            other,
        ),
        other != name && visible.contains_key(other) ==> visible.insert(name, value)[other]
            == visible[other],
{
}

} // verus!
