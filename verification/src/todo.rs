use vstd::prelude::*;

use crate::ast::{copy_dims, FileType};
use crate::text::str_is;

verus! {

/// A ritual field whose type names a ritual that is not sized yet: the field's
/// name, the named ritual, and how the field holds it.
#[derive(Debug)]
pub struct TypeHolder {
    pub identifier: String,
    pub prim: String,
    pub pointer: bool,
    pub dimensions: Vec<usize>,
}

/// What a `TypeHolder` denotes.
pub struct HolderModel {
    pub identifier: Seq<char>,
    pub prim: Seq<char>,
    pub pointer: bool,
    pub dimensions: Seq<usize>,
}

impl View for TypeHolder {
    type V = HolderModel;

    open spec fn view(&self) -> HolderModel {
        HolderModel {
            identifier: self.identifier@,
            prim: self.prim@,
            pointer: self.pointer,
            dimensions: self.dimensions@,
        }
    }
}

impl TypeHolder {
    /// A copy of this holder.
    pub fn duplicate(&self) -> (h: TypeHolder)
        ensures
            h@ == self@,
    {
        TypeHolder {
            identifier: self.identifier.clone(),
            prim: self.prim.clone(),
            pointer: self.pointer,
            dimensions: copy_dims(&self.dimensions),
        }
    }
}

/// A copy of a list of holders.
pub fn copy_holders(hs: &Vec<TypeHolder>) -> (r: Vec<TypeHolder>)
    ensures
        r@.map_values(|h: TypeHolder| h@) == hs@.map_values(|h: TypeHolder| h@),
{
    let mut r: Vec<TypeHolder> = Vec::new();
    let mut i: usize = 0;
    while i < hs.len()
        invariant
            i <= hs.len(),
            r.len() == i,
            forall|j: int| 0 <= j < i ==> #[trigger] r@[j]@ == hs@[j]@,
        decreases hs.len() - i,
    {
        r.push(hs[i].duplicate());
        i = i + 1;
    }
    assert(r@.map_values(|h: TypeHolder| h@) =~= hs@.map_values(|h: TypeHolder| h@));
    r
}

/// The key of a pending ritual: its name and the file that declares it.
pub struct TodoKey {
    pub ritual: Seq<char>,
    pub file_name: Seq<char>,
    pub file_type: FileType,
}

/// The pending fields of one ritual.
#[derive(Debug)]
pub struct Todo {
    pub ritual: String,
    pub file_name: String,
    pub file_type: FileType,
    pub holders: Vec<TypeHolder>,
}

/// What a `Todo` denotes.
pub struct TodoModel {
    pub key: TodoKey,
    pub holders: Seq<HolderModel>,
}

impl View for Todo {
    type V = TodoModel;

    open spec fn view(&self) -> TodoModel {
        TodoModel {
            key: TodoKey {
                ritual: self.ritual@,
                file_name: self.file_name@,
                file_type: self.file_type,
            },
            holders: self.holders@.map_values(|h: TypeHolder| h@),
        }
    }
}

/// A table of pending rituals: at most one entry per key, in the order in
/// which their first field was recorded.
#[derive(Debug)]
pub struct TodoTable {
    pub(crate) entries: Vec<Todo>,
}

impl View for TodoTable {
    type V = Seq<TodoModel>;

    closed spec fn view(&self) -> Seq<TodoModel> {
        self.entries@.map_values(|t: Todo| t@)
    }
}

/// The index of the entry for `key`, if any (the first, should there be more).
pub open spec fn table_index(t: Seq<TodoModel>, key: TodoKey) -> Option<int>
    decreases t.len(),
{
    if t.len() == 0 {
        None
    } else {
        match table_index(t.drop_last(), key) {
            Some(i) => Some(i),
            None => if t.last().key == key {
                Some(t.len() - 1)
            } else {
                None
            },
        }
    }
}

/// Whether no two entries of a table have the same key.
pub open spec fn table_wf(t: Seq<TodoModel>) -> bool {
    forall|i: int, j: int| 0 <= i < t.len() && 0 <= j < t.len() && i != j ==> #[trigger] t[i].key != #[trigger] t[j].key
}

/// A table with `holder` added to the entry for `key`, which is made at the end where there is none.
pub open spec fn table_record(t: Seq<TodoModel>, key: TodoKey, holder: HolderModel) -> Seq<TodoModel> {
    match table_index(t, key) {
        Some(i) => t.update(i, TodoModel { key, holders: t[i].holders.push(holder) }),
        None => t.push(TodoModel { key, holders: seq![holder] }),
    }
}

/// A table without the entry for `key`.
pub open spec fn table_remove(t: Seq<TodoModel>, key: TodoKey) -> Seq<TodoModel> {
    match table_index(t, key) {
        Some(i) => t.remove(i),
        None => t,
    }
}

/// Where `table_index` finds an entry, it is one for the key and the first one.
pub proof fn lemma_table_index(t: Seq<TodoModel>, key: TodoKey)
    ensures
        table_index(t, key) matches Some(i) ==> 0 <= i < t.len() && t[i].key == key && forall|
            j: int,
        |
            0 <= j < i ==> t[j].key != key,
        table_index(t, key) is None ==> forall|j: int| 0 <= j < t.len() ==> t[j].key != key,
    decreases t.len(),
{
    if t.len() > 0 {
        let d = t.drop_last();
        lemma_table_index(d, key);
        assert forall|j: int| 0 <= j < d.len() implies t[j] == d[j] by {}
    }
}

/// Recording a pending field keeps every key in a table unique.
pub proof fn lemma_record_keeps_wf(t: Seq<TodoModel>, key: TodoKey, holder: HolderModel)
    requires
        table_wf(t),
    ensures
        table_wf(table_record(t, key, holder)),
{
    lemma_table_index(t, key);
}

/// Removing an entry keeps every key in a table unique.
pub proof fn lemma_remove_keeps_wf(t: Seq<TodoModel>, key: TodoKey)
    requires
        table_wf(t),
    ensures
        table_wf(table_remove(t, key)),
{
    lemma_table_index(t, key);
    if let Some(i) = table_index(t, key) {
        let r = t.remove(i);
        assert forall|a: int, b: int| 0 <= a < r.len() && 0 <= b < r.len() && a != b implies #[trigger] r[a].key
            != #[trigger] r[b].key by {
            let a0 = if a < i {
                a
            } else {
                a + 1
            };
            let b0 = if b < i {
                b
            } else {
                b + 1
            };
            assert(r[a] == t[a0]);
            assert(r[b] == t[b0]);
        }
    }
}

/// After a field is recorded under a key, the table holds an entry for that key
/// whose last pending field is the one recorded, after those it held before.
pub proof fn lemma_record_then_find(t: Seq<TodoModel>, key: TodoKey, holder: HolderModel)
    ensures
        ({
            let r = table_record(t, key, holder);
            &&& table_index(r, key) matches Some(i) && r[i].holders.last() == holder
                && r[i].holders.drop_last() == (match table_index(t, key) {
                Some(j) => t[j].holders,
                None => Seq::<HolderModel>::empty(),
            })
        }),
{
    lemma_table_index(t, key);
    let r = table_record(t, key, holder);
    lemma_table_index(r, key);
    match table_index(t, key) {
        Some(j) => {
            assert(r[j].key == key);
            assert(r[j].holders.drop_last() =~= t[j].holders);
        },
        None => {
            assert(r[t.len() as int].key == key);
            assert(r[t.len() as int].holders.drop_last() =~= Seq::<HolderModel>::empty());
        },
    }
}

/// Once the entry for a key is removed from a table whose keys are unique, the
/// table has no entry for that key.
pub proof fn lemma_remove_then_absent(t: Seq<TodoModel>, key: TodoKey)
    requires
        table_wf(t),
    ensures
        table_index(table_remove(t, key), key) is None,
        table_remove(t, key).len() == t.len() - (if table_index(t, key) is Some {
            1int
        } else {
            0int
        }),
{
    lemma_table_index(t, key);
    let r = table_remove(t, key);
    lemma_table_index(r, key);
    if let Some(i) = table_index(t, key) {
        if let Some(k) = table_index(r, key) {
            let k0 = if k < i {
                k
            } else {
                k + 1
            };
            assert(r[k] == t[k0]);
        }
    }
}

impl TodoTable {
    /// No two entries of the table have the same key.
    #[verifier::type_invariant]
    pub(crate) open spec fn keys_unique(self) -> bool {
        table_wf(self@)
    }

    /// The table's entries are what it denotes.
    pub(crate) proof fn lemma_view(&self)
        ensures
            self@ == self.entries@.map_values(|t: Todo| t@),
    {
    }

    /// An empty table.
    pub fn new() -> (t: TodoTable)
        ensures
            t@ == Seq::<TodoModel>::empty(),
            table_wf(t@),
    {
        let t = TodoTable { entries: Vec::new() };
        assert(t@ =~= Seq::<TodoModel>::empty());
        t
    }

    /// The number of entries.
    pub fn len(&self) -> (n: usize)
        ensures
            n == self@.len(),
    {
        self.entries.len()
    }

    /// The index of the entry for the given key, if any.
    pub fn index_of(&self, ritual: &str, file_name: &str, file_type: FileType) -> (r: Option<usize>)
        ensures
            ({
                let key = TodoKey { ritual: ritual@, file_name: file_name@, file_type };
                &&& r is None <==> table_index(self@, key) is None
                &&& r matches Some(i) ==> table_index(self@, key) == Some(i as int) && i < self@.len()
            }),
    {
        let ghost key = TodoKey { ritual: ritual@, file_name: file_name@, file_type };
        let ghost t = self@;
        let mut i: usize = 0;
        while i < self.entries.len()
            invariant
                t == self@,
                key == (TodoKey { ritual: ritual@, file_name: file_name@, file_type }),
                t.len() == self.entries.len(),
                i <= t.len(),
                forall|j: int| 0 <= j < i ==> t[j].key != key,
            decreases t.len() - i,
        {
            let e = &self.entries[i];
            assert(t[i as int] == e@);
            let same_ritual = str_is(e.ritual.as_str(), ritual);
            let same_name = str_is(e.file_name.as_str(), file_name);
            if same_ritual && same_name && e.file_type == file_type {
                proof {
                    lemma_table_index(t, key);
                    assert(t[i as int].key == key);
                }
                return Some(i);
            }
            i = i + 1;
        }
        proof {
            lemma_table_index(t, key);
        }
        None
    }

    /// The key and a copy of the pending fields of the entry at `i`.
    pub fn entry(&self, i: usize) -> (r: (String, String, FileType, Vec<TypeHolder>))
        requires
            i < self@.len(),
        ensures
            r.0@ == self@[i as int].key.ritual,
            r.1@ == self@[i as int].key.file_name,
            r.2 == self@[i as int].key.file_type,
            r.3@.map_values(|h: TypeHolder| h@) == self@[i as int].holders,
    {
        let e = &self.entries[i];
        (e.ritual.clone(), e.file_name.clone(), e.file_type, copy_holders(&e.holders))
    }

    /// Adds `holder` to the pending fields of the ritual `ritual` of the given
    /// file, making an entry for it at the end where there is none.
    pub fn record(
        &mut self,
        ritual: String,
        file_name: String,
        file_type: FileType,
        holder: TypeHolder,
    )
        ensures
            final(self)@ == table_record(
                old(self)@,
                TodoKey { ritual: ritual@, file_name: file_name@, file_type },
                holder@,
            ),
            table_wf(final(self)@),
    {
        let ghost key = TodoKey { ritual: ritual@, file_name: file_name@, file_type };
        proof {
            use_type_invariant(&*self);
            lemma_record_keeps_wf(self@, key, holder@);
        }
        let ghost h = holder@;
        let ghost t0 = self@;
        let found = self.index_of(ritual.as_str(), file_name.as_str(), file_type);
        let mut entries: Vec<Todo> = Vec::new();
        std::mem::swap(&mut entries, &mut self.entries);
        assert(entries@.map_values(|t: Todo| t@) == t0);
        match found {
            Some(i) => {
                let ghost e0 = entries@[i as int];
                entries[i].holders.push(holder);
                assert(entries@[i as int].holders@.map_values(|x: TypeHolder| x@) =~= e0@.holders.push(h));
                proof {
                    lemma_table_index(t0, key);
                }
                assert(entries@.map_values(|t: Todo| t@) =~= t0.update(i as int, TodoModel { key, holders: t0[i as int].holders.push(h) }));
            },
            None => {
                let mut hs: Vec<TypeHolder> = Vec::new();
                hs.push(holder);
                assert(hs@.map_values(|x: TypeHolder| x@) =~= seq![h]);
                entries.push(Todo { ritual, file_name, file_type, holders: hs });
                assert(entries@.map_values(|t: Todo| t@) =~= t0.push(TodoModel { key, holders: seq![h] }));
            },
        }
        self.entries = entries;
    }

    /// Removes the entry for the given key, if there is one.
    pub fn remove(&mut self, ritual: &str, file_name: &str, file_type: FileType)
        ensures
            final(self)@ == table_remove(
                old(self)@,
                TodoKey { ritual: ritual@, file_name: file_name@, file_type },
            ),
            table_wf(final(self)@),
    {
        let ghost t0 = self@;
        proof {
            use_type_invariant(&*self);
            lemma_remove_keeps_wf(t0, TodoKey { ritual: ritual@, file_name: file_name@, file_type });
        }
        match self.index_of(ritual, file_name, file_type) {
            Some(i) => {
                let mut entries: Vec<Todo> = Vec::new();
                std::mem::swap(&mut entries, &mut self.entries);
                assert(entries@.map_values(|t: Todo| t@) == t0);
                entries.remove(i);
                assert(entries@.map_values(|t: Todo| t@) =~= t0.remove(i as int));
                self.entries = entries;
            },
            None => {},
        }
    }
}

impl Todo {
    /// A copy of this entry.
    pub fn duplicate(&self) -> (t: Todo)
        ensures
            t@ == self@,
    {
        Todo {
            ritual: self.ritual.clone(),
            file_name: self.file_name.clone(),
            file_type: self.file_type,
            holders: copy_holders(&self.holders),
        }
    }
}

} // verus!
