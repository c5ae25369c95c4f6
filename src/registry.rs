//! The callback registry: which callback handles the events of each timer
//! name, and the default for names without one.
use vstd::prelude::*;
use crate::event::CallbackRef;
use crate::names::same_name;

verus! {

/// The names in `s` are pairwise different.
pub open spec fn unique_names(s: Seq<(String, CallbackRef)>) -> bool {
    forall|i: int, j: int| 0 <= i < s.len() && 0 <= j < s.len() && i != j ==> s[i].0@ != s[j].0@
}

/// The entries as a map from name to callback.
pub open spec fn entries_map(s: Seq<(String, CallbackRef)>) -> Map<Seq<char>, CallbackRef>
    decreases s.len(),
{
    if s.len() == 0 {
        Map::empty()
    } else {
        entries_map(s.drop_last()).insert(s.last().0@, s.last().1)
    }
}

proof fn lemma_entries_map(s: Seq<(String, CallbackRef)>)
    requires
        unique_names(s),
    ensures
        forall|i: int|
            0 <= i < s.len() ==> #[trigger] entries_map(s).contains_key(s[i].0@) && entries_map(
                s,
            )[s[i].0@] == s[i].1,
        forall|k: Seq<char>|
            #[trigger] entries_map(s).contains_key(k) ==> exists|i: int|
                0 <= i < s.len() && s[i].0@ == k,
    decreases s.len(),
{
    if s.len() > 0 {
        let p = s.drop_last();
        assert forall|i: int, j: int|
            0 <= i < p.len() && 0 <= j < p.len() && i != j implies p[i].0@ != p[j].0@ by {
            assert(p[i] == s[i] && p[j] == s[j]);
        }
        lemma_entries_map(p);
        assert forall|i: int| 0 <= i < s.len() implies #[trigger] entries_map(s).contains_key(
            s[i].0@,
        ) && entries_map(s)[s[i].0@] == s[i].1 by {
            if i < s.len() - 1 {
                assert(p[i] == s[i]);
                assert(s[i].0@ != s[s.len() - 1].0@);
                assert(entries_map(p).contains_key(p[i].0@));
            }
        }
        assert forall|k: Seq<char>| #[trigger] entries_map(s).contains_key(k) implies exists|i: int|
            0 <= i < s.len() && s[i].0@ == k by {
            if k != s.last().0@ {
                assert(entries_map(p).contains_key(k));
                let j = choose|j: int| 0 <= j < p.len() && p[j].0@ == k;
                assert(s[j] == p[j]);
            }
        }
    }
}

proof fn lemma_entries_map_update(s: Seq<(String, CallbackRef)>, i: int, v: (String, CallbackRef))
    requires
        unique_names(s),
        0 <= i < s.len(),
        s[i].0@ == v.0@,
    ensures
        entries_map(s.update(i, v)) == entries_map(s).insert(v.0@, v.1),
        unique_names(s.update(i, v)),
    decreases s.len(),
{
    let u = s.update(i, v);
    assert(u.drop_last() =~= if i == s.len() - 1 {
        s.drop_last()
    } else {
        s.drop_last().update(i, v)
    });
    if i < s.len() - 1 {
        lemma_entries_map_update(s.drop_last(), i, v);
        assert(s.last().0@ != v.0@);
        assert(entries_map(u) =~= entries_map(s).insert(v.0@, v.1));
    } else {
        assert(entries_map(u) =~= entries_map(s).insert(v.0@, v.1));
    }
}

/// Callbacks by timer name, and an optional default.
pub struct CallbackRegistry {
    entries: Vec<(String, CallbackRef)>,
    default_callback: Option<CallbackRef>,
}

impl CallbackRegistry {
    /// The name-specific callbacks.
    pub closed spec fn callbacks(&self) -> Map<Seq<char>, CallbackRef> {
        entries_map(self.entries@)
    }

    /// The default callback.
    pub closed spec fn default_callback(&self) -> Option<CallbackRef> {
        self.default_callback
    }

    /// The registry's internal invariant.
    pub closed spec fn wf(&self) -> bool {
        unique_names(self.entries@)
    }

    /// The callback for events of `name`: its own, else the default.
    pub open spec fn handler_spec(&self, name: Seq<char>) -> Option<CallbackRef> {
        if self.callbacks().contains_key(name) {
            Some(self.callbacks()[name])
        } else {
            self.default_callback()
        }
    }

    /// An empty registry with no default.
    pub fn new() -> (r: CallbackRegistry)
        ensures
            r.wf(),
            r.callbacks() == Map::<Seq<char>, CallbackRef>::empty(),
            r.default_callback() is None,
    {
        CallbackRegistry { entries: Vec::new(), default_callback: None }
    }

    fn find(&self, name: &str) -> (r: Option<usize>)
        requires
            self.wf(),
        ensures
            r matches Some(i) ==> i < self.entries@.len() && self.entries@[i as int].0@ == name@,
            r is None ==> !self.callbacks().contains_key(name@),
    {
        proof {
            lemma_entries_map(self.entries@);
        }
        let mut i: usize = 0;
        while i < self.entries.len()
            invariant
                i <= self.entries@.len(),
                forall|j: int| 0 <= j < i ==> self.entries@[j].0@ != name@,
            decreases self.entries@.len() - i,
        {
            if same_name(self.entries[i].0.as_str(), name) {
                return Some(i);
            }
            i = i + 1;
        }
        None
    }

    /// The callback registered for `name`, if any.
    pub fn get(&self, name: &str) -> (r: Option<CallbackRef>)
        requires
            self.wf(),
        ensures
            r == (if self.callbacks().contains_key(name@) {
                Some(self.callbacks()[name@])
            } else {
                None::<CallbackRef>
            }),
    {
        proof {
            lemma_entries_map(self.entries@);
        }
        match self.find(name) {
            Some(i) => Some(self.entries[i].1),
            None => None,
        }
    }

    /// Whether `name` has a callback of its own.
    pub fn contains(&self, name: &str) -> (r: bool)
        requires
            self.wf(),
        ensures
            r == self.callbacks().contains_key(name@),
    {
        proof {
            lemma_entries_map(self.entries@);
        }
        self.find(name).is_some()
    }

    /// The default callback, if any.
    pub fn get_default(&self) -> (r: Option<CallbackRef>)
        ensures
            r == self.default_callback(),
    {
        self.default_callback
    }

    /// The callback for events of `name`: its own, else the default.
    pub fn handler_for(&self, name: &str) -> (r: Option<CallbackRef>)
        requires
            self.wf(),
        ensures
            r == self.handler_spec(name@),
    {
        match self.get(name) {
            Some(c) => Some(c),
            None => self.default_callback,
        }
    }

    /// Binds `callback` to `name`, replacing any earlier binding.
    pub fn register(&mut self, name: &str, callback: CallbackRef)
        requires
            old(self).wf(),
        ensures
            final(self).wf(),
            final(self).callbacks() == old(self).callbacks().insert(name@, callback),
            final(self).default_callback() == old(self).default_callback(),
    {
        let entry = (name.to_owned(), callback);
        match self.find(name) {
            Some(i) => {
                proof {
                    lemma_entries_map_update(self.entries@, i as int, entry);
                }
                self.entries.set(i, entry);
            },
            None => {
                proof {
                    lemma_entries_map(self.entries@);
                }
                let ghost before = self.entries@;
                self.entries.push(entry);
                assert(self.entries@.drop_last() =~= before);
                assert forall|i: int, j: int|
                    0 <= i < self.entries@.len() && 0 <= j < self.entries@.len() && i
                        != j implies self.entries@[i].0@ != self.entries@[j].0@ by {
                    if i < before.len() && j < before.len() {
                        assert(before[i] == self.entries@[i]);
                        assert(before[j] == self.entries@[j]);
                    } else if i < before.len() {
                        assert(before[i] == self.entries@[i]);
                    } else if j < before.len() {
                        assert(before[j] == self.entries@[j]);
                    }
                }
            },
        }
    }

    /// Sets the default callback, replacing any earlier one.
    pub fn register_default(&mut self, callback: CallbackRef)
        requires
            old(self).wf(),
        ensures
            final(self).wf(),
            final(self).callbacks() == old(self).callbacks(),
            final(self).default_callback() == Some(callback),
    {
        self.default_callback = Some(callback);
    }
}

} // verus!
