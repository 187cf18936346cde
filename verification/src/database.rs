//! The database manager: groups of key-value data, each group an
//! independently persisted namespace.  Contracts are stated over finite maps
//! from key to value model, and over a per-group model carrying the dirty
//! flag and the last-persist timestamp.

use vstd::prelude::*;
use crate::kv::{assoc_map, unique_keys, lemma_assoc_contains, lemma_assoc_index,
    lemma_assoc_remove, lemma_assoc_push, lemma_unique_push};
use crate::value::{DataValue, ValueModel};

verus! {

/// One group: a key-value store with a dirty flag and the time it was last
/// persisted.
pub struct Database {
    pub data: Vec<(String, DataValue)>,
    pub dirty: bool,
    pub last_save: i64,
}

/// The views of a group's entries.
pub open spec fn entry_views(s: Seq<(String, DataValue)>) -> Seq<(Seq<char>, ValueModel)> {
    s.map_values(|e: (String, DataValue)| (e.0@, e.1.model()))
}

/// Model of one group.
#[verifier::ext_equal]
pub ghost struct DbModel {
    pub content: Map<Seq<char>, ValueModel>,
    pub dirty: bool,
    pub last_save: int,
}

impl Database {
    /// Keys are unique.
    pub open spec fn wf(self) -> bool {
        unique_keys(entry_views(self.data@))
    }

    /// The mapping this group holds.
    pub open spec fn content(self) -> Map<Seq<char>, ValueModel> {
        assoc_map(entry_views(self.data@))
    }

    pub open spec fn db_model(self) -> DbModel {
        DbModel { content: self.content(), dirty: self.dirty, last_save: self.last_save as int }
    }

    /// A fresh, empty, clean group.
    pub fn new() -> (r: Database)
        ensures
            r.wf(),
            r.db_model() == (DbModel {
                content: Map::<Seq<char>, ValueModel>::empty(),
                dirty: false,
                last_save: 0,
            }),
    {
        let r = Database { data: Vec::new(), dirty: false, last_save: 0 };
        proof {
            assert(entry_views(r.data@) =~= Seq::<(Seq<char>, ValueModel)>::empty());
            assert(r.content() =~= Map::<Seq<char>, ValueModel>::empty());
        }
        r
    }

    /// Index of the entry holding `key`, if any.
    fn find(&self, key: &str) -> (r: Option<usize>)
        ensures
            match r {
                Some(i) => i < self.data@.len() && self.data@[i as int].0@ == key@,
                None => forall|j: int|
                    0 <= j < self.data@.len() ==> (#[trigger] self.data@[j]).0@ != key@,
            },
    {
        let mut i: usize = 0;
        let n = self.data.len();
        while i < n
            invariant
                0 <= i <= n,
                n == self.data@.len(),
                forall|j: int| 0 <= j < i ==> (#[trigger] self.data@[j]).0@ != key@,
            decreases n - i,
        {
            if crate::value::str_eq(self.data[i].0.as_str(), key) {
                return Some(i);
            }
            i += 1;
        }
        None
    }

    /// Reads a key.
    pub fn get<'a>(&'a self, key: &str) -> (r: Option<&'a DataValue>)
        requires
            self.wf(),
        ensures
            match r {
                Some(v) => self.content().contains_key(key@) && v.model() == self.content()[key@],
                None => !self.content().contains_key(key@),
            },
    {
        match self.find(key) {
            Some(i) => {
                proof {
                    lemma_assoc_index(entry_views(self.data@), i as int);
                }
                Some(&self.data[i].1)
            },
            None => {
                proof {
                    lemma_assoc_contains(entry_views(self.data@), key@);
                }
                None
            },
        }
    }

    /// Writes a key, creating it if absent and overwriting it if present;
    /// marks the group dirty.
    pub fn set(&mut self, key: &str, value: DataValue)
        requires
            old(self).wf(),
        ensures
            final(self).wf(),
            final(self).content() == old(self).content().insert(key@, value.model()),
            final(self).dirty,
            final(self).last_save == old(self).last_save,
    {
        let ghost s0 = entry_views(self.data@);
        let found = self.find(key);
        match found {
            Some(i) => {
                self.data.remove(i);
                proof {
                    assert(entry_views(self.data@) =~= s0.remove(i as int));
                    lemma_assoc_remove(s0, i as int);
                    assert(forall|j: int|
                        0 <= j < entry_views(self.data@).len() ==> (#[trigger] entry_views(
                            self.data@,
                        )[j]).0 != key@);
                }
            },
            None => {
                proof {
                    assert(forall|j: int|
                        0 <= j < entry_views(self.data@).len() ==> (#[trigger] entry_views(
                            self.data@,
                        )[j]).0 != key@);
                    lemma_assoc_contains(s0, key@);
                    assert(assoc_map(s0).remove(key@) =~= assoc_map(s0));
                }
            },
        }
        let ghost s1 = entry_views(self.data@);
        self.data.push((key.to_owned(), value));
        self.dirty = true;
        proof {
            assert(entry_views(self.data@) =~= s1.push((key@, value.model())));
            lemma_assoc_push(s1, key@, value.model());
            lemma_unique_push(s1, key@, value.model());
            assert(final(self).content() =~= old(self).content().insert(key@, value.model()));
        }
    }

    /// Removes a key if present; reports whether one was removed.
    pub fn remove(&mut self, key: &str) -> (r: bool)
        requires
            old(self).wf(),
        ensures
            final(self).wf(),
            r == old(self).content().contains_key(key@),
            final(self).content() == old(self).content().remove(key@),
            final(self).dirty == (old(self).dirty || r),
            final(self).last_save == old(self).last_save,
    {
        let ghost s0 = entry_views(self.data@);
        match self.find(key) {
            Some(i) => {
                proof {
                    lemma_assoc_index(s0, i as int);
                    lemma_assoc_remove(s0, i as int);
                }
                self.data.remove(i);
                self.dirty = true;
                proof {
                    assert(entry_views(self.data@) =~= s0.remove(i as int));
                }
                true
            },
            None => {
                proof {
                    assert(forall|j: int|
                        0 <= j < s0.len() ==> (#[trigger] s0[j]).0 != key@);
                    lemma_assoc_contains(s0, key@);
                    assert(old(self).content().remove(key@) =~= old(self).content());
                }
                false
            },
        }
    }

    /// Removes all keys and marks the group dirty; the group stays alive.
    pub fn clear(&mut self)
        ensures
            final(self).wf(),
            final(self).content() == Map::<Seq<char>, ValueModel>::empty(),
            final(self).dirty,
            final(self).last_save == old(self).last_save,
    {
        self.data = Vec::new();
        self.dirty = true;
        proof {
            assert(entry_views(self.data@) =~= Seq::<(Seq<char>, ValueModel)>::empty());
            assert(final(self).content() =~= Map::<Seq<char>, ValueModel>::empty());
        }
    }
}

// ---- the manager ----

/// The views of the manager's group list.
pub open spec fn group_views(s: Seq<(String, Database)>) -> Seq<(Seq<char>, DbModel)> {
    s.map_values(|e: (String, Database)| (e.0@, e.1.db_model()))
}

/// Owns every group and the configured default group name.
pub struct DataBaseManager {
    pub db_list: Vec<(String, Database)>,
    pub default_group: String,
}

/// A group that does not exist yet reads as empty and clean.
pub open spec fn empty_db() -> DbModel {
    DbModel { content: Map::empty(), dirty: false, last_save: 0 }
}

pub open spec fn db_or_empty(groups: Map<Seq<char>, DbModel>, g: Seq<char>) -> DbModel {
    if groups.contains_key(g) {
        groups[g]
    } else {
        empty_db()
    }
}

/// The map of groups after a write of `k := v` in group `g`.
pub open spec fn set_spec(
    groups: Map<Seq<char>, DbModel>,
    g: Seq<char>,
    k: Seq<char>,
    v: ValueModel,
) -> Map<Seq<char>, DbModel> {
    groups.insert(
        g,
        DbModel {
            content: db_or_empty(groups, g).content.insert(k, v),
            dirty: true,
            last_save: db_or_empty(groups, g).last_save,
        },
    )
}

/// The map of groups after a bulk clear of group `g`.
pub open spec fn clear_spec(groups: Map<Seq<char>, DbModel>, g: Seq<char>) -> Map<
    Seq<char>,
    DbModel,
> {
    if groups.contains_key(g) {
        groups.insert(
            g,
            DbModel { content: Map::empty(), dirty: true, last_save: groups[g].last_save },
        )
    } else {
        groups
    }
}

/// The map of groups after removing key `k` from group `g`.
pub open spec fn remove_spec(groups: Map<Seq<char>, DbModel>, g: Seq<char>, k: Seq<char>) -> Map<
    Seq<char>,
    DbModel,
> {
    if groups.contains_key(g) {
        groups.insert(
            g,
            DbModel {
                content: groups[g].content.remove(k),
                dirty: groups[g].dirty || groups[g].content.contains_key(k),
                last_save: groups[g].last_save,
            },
        )
    } else {
        groups
    }
}

/// What a read of key `k` in group `g` yields.
pub open spec fn lookup_spec(
    groups: Map<Seq<char>, DbModel>,
    g: Seq<char>,
    k: Seq<char>,
) -> Option<ValueModel> {
    if groups.contains_key(g) && groups[g].content.contains_key(k) {
        Some(groups[g].content[k])
    } else {
        None
    }
}

impl DataBaseManager {
    pub open spec fn wf(self) -> bool {
        &&& unique_keys(group_views(self.db_list@))
        &&& forall|i: int|
            0 <= i < self.db_list@.len() ==> (#[trigger] self.db_list@[i]).1.wf()
    }

    pub open spec fn groups(self) -> Map<Seq<char>, DbModel> {
        assoc_map(group_views(self.db_list@))
    }

    pub fn new(default_group: String) -> (r: DataBaseManager)
        ensures
            r.wf(),
            r.groups() == Map::<Seq<char>, DbModel>::empty(),
            r.default_group@ == default_group@,
    {
        let r = DataBaseManager { db_list: Vec::new(), default_group };
        proof {
            assert(group_views(r.db_list@) =~= Seq::<(Seq<char>, DbModel)>::empty());
            assert(r.groups() =~= Map::<Seq<char>, DbModel>::empty());
        }
        r
    }

    /// Index of the group named `name`, if any.
    fn find_group(&self, name: &str) -> (r: Option<usize>)
        ensures
            match r {
                Some(i) => i < self.db_list@.len() && self.db_list@[i as int].0@ == name@,
                None => forall|j: int|
                    0 <= j < self.db_list@.len() ==> (#[trigger] self.db_list@[j]).0@ != name@,
            },
    {
        let mut i: usize = 0;
        let n = self.db_list.len();
        while i < n
            invariant
                0 <= i <= n,
                n == self.db_list@.len(),
                forall|j: int| 0 <= j < i ==> (#[trigger] self.db_list@[j]).0@ != name@,
            decreases n - i,
        {
            if crate::value::str_eq(self.db_list[i].0.as_str(), name) {
                return Some(i);
            }
            i += 1;
        }
        None
    }

    /// Whether a group of this name exists.
    pub fn group_exists(&self, name: &str) -> (r: bool)
        requires
            self.wf(),
        ensures
            r == self.groups().contains_key(name@),
    {
        proof {
            lemma_assoc_contains(group_views(self.db_list@), name@);
        }
        match self.find_group(name) {
            Some(i) => {
                proof {
                    assert(group_views(self.db_list@)[i as int].0 == name@);
                }
                true
            },
            None => {
                proof {
                    assert(forall|j: int|
                        0 <= j < group_views(self.db_list@).len() ==> (#[trigger] group_views(
                            self.db_list@,
                        )[j]).0 != name@);
                }
                false
            },
        }
    }

    /// Returns the group named `name`, creating an empty one if absent.
    /// Idempotent.
    pub fn select_or_create(&mut self, name: &str)
        requires
            old(self).wf(),
        ensures
            final(self).wf(),
            final(self).groups() == if old(self).groups().contains_key(name@) {
                old(self).groups()
            } else {
                old(self).groups().insert(name@, empty_db())
            },
            final(self).default_group == old(self).default_group,
    {
        let ghost s0 = group_views(self.db_list@);
        proof {
            lemma_assoc_contains(s0, name@);
        }
        match self.find_group(name) {
            Some(i) => {
                proof {
                    assert(group_views(self.db_list@)[i as int].0 == name@);
                }
            },
            None => {
                proof {
                    assert(forall|j: int|
                        0 <= j < s0.len() ==> (#[trigger] s0[j]).0 != name@);
                }
                let db = Database::new();
                self.db_list.push((name.to_owned(), db));
                proof {
                    assert(group_views(self.db_list@) =~= s0.push((name@, empty_db())));
                    lemma_assoc_push(s0, name@, empty_db());
                    lemma_unique_push(s0, name@, empty_db());
                }
            },
        }
    }

    /// Reads a key in a group.
    pub fn get<'a>(&'a self, group: &str, key: &str) -> (r: Option<&'a DataValue>)
        requires
            self.wf(),
        ensures
            match r {
                Some(v) => lookup_spec(self.groups(), group@, key@) == Some(v.model()),
                None => lookup_spec(self.groups(), group@, key@) is None,
            },
    {
        let ghost s0 = group_views(self.db_list@);
        proof {
            lemma_assoc_contains(s0, group@);
        }
        match self.find_group(group) {
            Some(i) => {
                proof {
                    lemma_assoc_index(s0, i as int);
                }
                self.db_list[i].1.get(key)
            },
            None => {
                proof {
                    assert(forall|j: int|
                        0 <= j < s0.len() ==> (#[trigger] s0[j]).0 != group@);
                }
                None
            },
        }
    }

    /// Writes `key := value` in `group`, creating the group if absent;
    /// marks it dirty and leaves every other group untouched.
    pub fn set(&mut self, group: &str, key: &str, value: DataValue)
        requires
            old(self).wf(),
        ensures
            final(self).wf(),
            final(self).groups() == set_spec(old(self).groups(), group@, key@, value.model()),
            final(self).default_group == old(self).default_group,
    {
        let ghost s0 = group_views(self.db_list@);
        proof {
            lemma_assoc_contains(s0, group@);
        }
        match self.find_group(group) {
            Some(i) => {
                proof {
                    lemma_assoc_index(s0, i as int);
                    lemma_assoc_remove(s0, i as int);
                }
                let (name, mut db) = self.db_list.remove(i);
                db.set(key, value);
                self.db_list.push((name, db));
                proof {
                    let s1 = s0.remove(i as int);
                    assert(group_views(old(self).db_list@.remove(i as int)) =~= s1);
                    assert(forall|j: int|
                        0 <= j < s1.len() ==> (#[trigger] s1[j]).0 != group@);
                    assert(group_views(self.db_list@) =~= s1.push((group@, db.db_model())));
                    lemma_assoc_push(s1, group@, db.db_model());
                    lemma_unique_push(s1, group@, db.db_model());
                    assert(final(self).groups() =~~= set_spec(
                        old(self).groups(),
                        group@,
                        key@,
                        value.model(),
                    ));
                }
            },
            None => {
                proof {
                    assert(forall|j: int|
                        0 <= j < s0.len() ==> (#[trigger] s0[j]).0 != group@);
                }
                let mut db = Database::new();
                db.set(key, value);
                self.db_list.push((group.to_owned(), db));
                proof {
                    assert(group_views(self.db_list@) =~= s0.push((group@, db.db_model())));
                    lemma_assoc_push(s0, group@, db.db_model());
                    lemma_unique_push(s0, group@, db.db_model());
                    assert(final(self).groups() =~~= set_spec(
                        old(self).groups(),
                        group@,
                        key@,
                        value.model(),
                    ));
                }
            },
        }
    }

    /// Removes a key in a group; reports whether a key was removed.
    pub fn remove(&mut self, group: &str, key: &str) -> (r: bool)
        requires
            old(self).wf(),
        ensures
            final(self).wf(),
            r == (lookup_spec(old(self).groups(), group@, key@) is Some),
            final(self).groups() == remove_spec(old(self).groups(), group@, key@),
            final(self).default_group == old(self).default_group,
    {
        let ghost s0 = group_views(self.db_list@);
        proof {
            lemma_assoc_contains(s0, group@);
        }
        match self.find_group(group) {
            Some(i) => {
                proof {
                    lemma_assoc_index(s0, i as int);
                    lemma_assoc_remove(s0, i as int);
                }
                let (name, mut db) = self.db_list.remove(i);
                let removed = db.remove(key);
                self.db_list.push((name, db));
                proof {
                    let s1 = s0.remove(i as int);
                    assert(group_views(old(self).db_list@.remove(i as int)) =~= s1);
                    assert(forall|j: int|
                        0 <= j < s1.len() ==> (#[trigger] s1[j]).0 != group@);
                    assert(group_views(self.db_list@) =~= s1.push((group@, db.db_model())));
                    lemma_assoc_push(s1, group@, db.db_model());
                    lemma_unique_push(s1, group@, db.db_model());
                    assert(final(self).groups() =~~= old(self).groups().insert(
                        group@,
                        DbModel {
                            content: old(self).groups()[group@].content.remove(key@),
                            dirty: old(self).groups()[group@].dirty || removed,
                            last_save: old(self).groups()[group@].last_save,
                        },
                    ));
                }
                removed
            },
            None => {
                proof {
                    assert(forall|j: int|
                        0 <= j < s0.len() ==> (#[trigger] s0[j]).0 != group@);
                }
                false
            },
        }
    }

    /// Empties a group's key set; the group stays alive.  A group that does
    /// not exist is left as it is.
    pub fn clear(&mut self, group: &str)
        requires
            old(self).wf(),
        ensures
            final(self).wf(),
            final(self).groups() == clear_spec(old(self).groups(), group@),
            final(self).default_group == old(self).default_group,
    {
        let ghost s0 = group_views(self.db_list@);
        proof {
            lemma_assoc_contains(s0, group@);
        }
        match self.find_group(group) {
            Some(i) => {
                proof {
                    lemma_assoc_index(s0, i as int);
                    lemma_assoc_remove(s0, i as int);
                }
                let (name, mut db) = self.db_list.remove(i);
                db.clear();
                self.db_list.push((name, db));
                proof {
                    let s1 = s0.remove(i as int);
                    assert(group_views(old(self).db_list@.remove(i as int)) =~= s1);
                    assert(forall|j: int|
                        0 <= j < s1.len() ==> (#[trigger] s1[j]).0 != group@);
                    assert(group_views(self.db_list@) =~= s1.push((group@, db.db_model())));
                    lemma_assoc_push(s1, group@, db.db_model());
                    lemma_unique_push(s1, group@, db.db_model());
                    assert(final(self).groups() =~~= clear_spec(old(self).groups(), group@));
                }
            },
            None => {
                proof {
                    assert(forall|j: int|
                        0 <= j < s0.len() ==> (#[trigger] s0[j]).0 != group@);
                }
            },
        }
    }

    /// Records the outcome of persisting a group: success clears the dirty
    /// flag and stamps the time; failure leaves the flag set.
    pub fn note_persist(&mut self, group: &str, ok: bool, now: i64)
        requires
            old(self).wf(),
        ensures
            final(self).wf(),
            final(self).groups() == if old(self).groups().contains_key(group@) && ok {
                old(self).groups().insert(
                    group@,
                    DbModel {
                        content: old(self).groups()[group@].content,
                        dirty: false,
                        last_save: now as int,
                    },
                )
            } else {
                old(self).groups()
            },
            final(self).default_group == old(self).default_group,
    {
        if !ok {
            return;
        }
        let ghost s0 = group_views(self.db_list@);
        proof {
            lemma_assoc_contains(s0, group@);
        }
        match self.find_group(group) {
            Some(i) => {
                proof {
                    lemma_assoc_index(s0, i as int);
                    lemma_assoc_remove(s0, i as int);
                }
                let (name, mut db) = self.db_list.remove(i);
                db.dirty = false;
                db.last_save = now;
                self.db_list.push((name, db));
                proof {
                    let s1 = s0.remove(i as int);
                    assert(group_views(old(self).db_list@.remove(i as int)) =~= s1);
                    assert(forall|j: int|
                        0 <= j < s1.len() ==> (#[trigger] s1[j]).0 != group@);
                    assert(group_views(self.db_list@) =~= s1.push((group@, db.db_model())));
                    lemma_assoc_push(s1, group@, db.db_model());
                    lemma_unique_push(s1, group@, db.db_model());
                    assert(final(self).groups() =~~= old(self).groups().insert(
                        group@,
                        DbModel {
                            content: old(self).groups()[group@].content,
                            dirty: false,
                            last_save: now as int,
                        },
                    ));
                }
            },
            None => {
                proof {
                    assert(forall|j: int|
                        0 <= j < s0.len() ==> (#[trigger] s0[j]).0 != group@);
                }
            },
        }
    }

    /// The names of all groups, for a persistence sweep.
    pub fn group_names(&self) -> (r: Vec<String>)
        ensures
            r@.map_values(|s: String| s@) == self.db_list@.map_values(
                |e: (String, Database)| e.0@,
            ),
    {
        let mut r: Vec<String> = Vec::new();
        let mut i: usize = 0;
        let n = self.db_list.len();
        proof {
            assert(r@.map_values(|s: String| s@) =~= self.db_list@.map_values(
                |e: (String, Database)| e.0@,
            ).take(0));
        }
        while i < n
            invariant
                0 <= i <= n,
                n == self.db_list@.len(),
                r@.map_values(|s: String| s@) == self.db_list@.map_values(
                    |e: (String, Database)| e.0@,
                ).take(i as int),
            decreases n - i,
        {
            let ghost old_r = r@;
            r.push(self.db_list[i].0.clone());
            proof {
                assert(r@.map_values(|s: String| s@) =~= old_r.map_values(|s: String| s@).push(
                    self.db_list@[i as int].0@,
                ));
                assert(r@.map_values(|s: String| s@) =~= self.db_list@.map_values(
                    |e: (String, Database)| e.0@,
                ).take(i as int + 1));
            }
            i += 1;
        }
        proof {
            assert(self.db_list@.map_values(|e: (String, Database)| e.0@).take(n as int)
                =~= self.db_list@.map_values(|e: (String, Database)| e.0@));
        }
        r
    }
}

// ---- laws ----

/// Writing a key then reading it back yields exactly the written value.
pub proof fn lemma_set_then_get(
    groups: Map<Seq<char>, DbModel>,
    g: Seq<char>,
    k: Seq<char>,
    v: ValueModel,
)
    ensures
        lookup_spec(set_spec(groups, g, k, v), g, k) == Some(v),
{
}

/// Group isolation: a write in one group changes no read in another.
pub proof fn lemma_group_isolation(
    groups: Map<Seq<char>, DbModel>,
    g1: Seq<char>,
    g2: Seq<char>,
    k: Seq<char>,
    v: ValueModel,
)
    requires
        g1 != g2,
    ensures
        forall|k2: Seq<char>|
            lookup_spec(set_spec(groups, g1, k, v), g2, k2) == lookup_spec(groups, g2, k2),
{
}

/// A bulk clear removes every key of the group: no read in it succeeds
/// afterwards.
pub proof fn lemma_clean_removes_all(groups: Map<Seq<char>, DbModel>, g: Seq<char>, k: Seq<char>)
    ensures
        lookup_spec(clear_spec(groups, g), g, k) is None,
{
}

/// Two writes to the same key serialize: whichever order the manager's
/// exclusion lock admits them in, the key afterwards holds one of the two
/// written values, whole.
pub proof fn lemma_serialized_sets(
    groups: Map<Seq<char>, DbModel>,
    g: Seq<char>,
    k: Seq<char>,
    v1: ValueModel,
    v2: ValueModel,
)
    ensures
        lookup_spec(set_spec(set_spec(groups, g, k, v1), g, k, v2), g, k) == Some(v2),
        lookup_spec(set_spec(set_spec(groups, g, k, v2), g, k, v1), g, k) == Some(v1),
{
}

} // verus!
