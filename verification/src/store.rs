//! The per-shard backing store of a view: keyed row sets and the shard's
//! current timestamp.

use crate::value::{deep_clone_rows, key_eq, Datas, Row, ValueModel};
use vstd::prelude::*;

verus! {

/// One key's entry in a shard's store.
#[derive(Debug, Clone, PartialEq, Eq)]
pub struct StoreEntry {
    pub key: Row,
    pub rows: Datas,
    /// The entry is still being computed by partial replay; only a blocking
    /// probe may read it.
    pub pending: bool,
}

/// Mathematical model of a [`StoreEntry`].
pub struct EntryModel {
    pub key: Seq<ValueModel>,
    pub rows: Seq<Seq<ValueModel>>,
    pub pending: bool,
}

impl View for StoreEntry {
    type V = EntryModel;

    open spec fn view(&self) -> EntryModel {
        EntryModel { key: self.key.deep_view(), rows: self.rows.deep_view(), pending: self.pending }
    }
}

impl DeepView for StoreEntry {
    type V = EntryModel;

    open spec fn deep_view(&self) -> EntryModel {
        self.view()
    }
}

/// One shard's backing store for a view.
#[derive(Debug, Clone, PartialEq, Eq)]
pub struct ShardStore {
    pub ts: i64,
    pub entries: Vec<StoreEntry>,
}

/// Mathematical model of a [`ShardStore`].
pub struct StoreModel {
    pub ts: i64,
    pub entries: Seq<EntryModel>,
}

impl View for ShardStore {
    type V = StoreModel;

    open spec fn view(&self) -> StoreModel {
        StoreModel { ts: self.ts, entries: self.entries.deep_view() }
    }
}

impl DeepView for ShardStore {
    type V = StoreModel;

    open spec fn deep_view(&self) -> StoreModel {
        self.view()
    }
}

/// Well-formedness: each key appears at most once.
pub open spec fn store_wf(s: StoreModel) -> bool {
    forall|i: int, j: int|
        0 <= i < j < s.entries.len() ==> s.entries[i].key != s.entries[j].key
}

/// The entry holding `key`, if any: the first match in entry order.
pub open spec fn spec_find_entry(entries: Seq<EntryModel>, key: Seq<ValueModel>) -> Option<
    EntryModel,
>
    decreases entries.len(),
{
    if entries.len() == 0 {
        None
    } else if entries[0].key == key {
        Some(entries[0])
    } else {
        spec_find_entry(entries.drop_first(), key)
    }
}

/// What a probe of one shard returns: the key's rows (`None` when the key is
/// absent) together with the shard timestamp, or unavailable when the entry
/// is still pending and the probe does not block.
pub open spec fn spec_find_rows(s: StoreModel, key: Seq<ValueModel>, block: bool) -> Result<
    (Option<Seq<Seq<ValueModel>>>, i64),
    (),
> {
    match spec_find_entry(s.entries, key) {
        None => Ok((None, s.ts)),
        Some(e) => if e.pending && !block {
            Err(())
        } else {
            Ok((Some(e.rows), s.ts))
        },
    }
}

/// A prefix of entries without the key can be skipped when searching.
proof fn lemma_find_entry_skip(entries: Seq<EntryModel>, key: Seq<ValueModel>, i: int)
    requires
        0 <= i <= entries.len(),
        forall|j: int| 0 <= j < i ==> entries[j].key != key,
    ensures
        spec_find_entry(entries, key) == spec_find_entry(entries.skip(i), key),
    decreases i,
{
    if i > 0 {
        assert(entries.skip(i - 1).drop_first() =~= entries.skip(i));
        lemma_find_entry_skip(entries, key, i - 1);
    } else {
        assert(entries.skip(0) =~= entries);
    }
}

impl ShardStore {
    /// An empty store at the given timestamp.
    pub fn new(ts: i64) -> (r: ShardStore)
        ensures
            r@.ts == ts,
            r@.entries == Seq::<EntryModel>::empty(),
            store_wf(r@),
    {
        let s = ShardStore { ts, entries: Vec::new() };
        proof {
            assert(s@.entries =~= Seq::<EntryModel>::empty());
        }
        s
    }

    /// The number of materialized keys.
    pub fn len(&self) -> (r: usize)
        ensures
            r == self@.entries.len(),
    {
        self.entries.len()
    }

    /// Whether `key` has an entry.
    pub fn contains_key(&self, key: &Row) -> (r: bool)
        ensures
            r == (spec_find_entry(self@.entries, key.deep_view()) is Some),
    {
        let mut i: usize = 0;
        while i < self.entries.len()
            invariant
                i <= self.entries.len(),
                self@.entries.len() == self.entries@.len(),
                forall|j: int| 0 <= j < i ==> self@.entries[j].key != key.deep_view(),
            decreases self.entries.len() - i,
        {
            proof {
                assert(self@.entries[i as int] == self.entries@[i as int]@);
            }
            if key_eq(&self.entries[i].key, key) {
                proof {
                    lemma_find_entry_skip(self@.entries, key.deep_view(), i as int);
                    assert(self@.entries.skip(i as int)[0] == self@.entries[i as int]);
                }
                return true;
            }
            i = i + 1;
        }
        proof {
            lemma_find_entry_skip(self@.entries, key.deep_view(), i as int);
        }
        false
    }

    /// Add an entry for a key that is not yet present.
    pub fn insert(&mut self, key: Row, rows: Datas, pending: bool)
        requires
            spec_find_entry(old(self)@.entries, key.deep_view()) is None,
        ensures
            final(self)@.ts == old(self)@.ts,
            final(self)@.entries == old(self)@.entries.push(
                EntryModel { key: key.deep_view(), rows: rows.deep_view(), pending },
            ),
            store_wf(old(self)@) ==> store_wf(final(self)@),
    {
        proof {
            lemma_find_entry_absent_all(old(self)@.entries, key.deep_view());
        }
        let ghost old_entries = self@.entries;
        let entry = StoreEntry { key, rows, pending };
        self.entries.push(entry);
        proof {
            assert forall|j: int| 0 <= j < self.entries@.len() implies self@.entries[j]
                == old_entries.push(entry@)[j] by {
                assert(self@.entries[j] == self.entries@[j]@);
            }
            assert(self@.entries =~= old_entries.push(entry@));
        }
    }

    /// Probe the store for `key`.
    ///
    /// Returns the key's rows deep-copied (`None` when the key is absent) and
    /// the shard timestamp; unavailable when the key's entry is still pending
    /// and `block` is false.
    pub fn find_rows(&self, key: &Row, block: bool) -> (r: Result<(Option<Datas>, i64), ()>)
        ensures
            match r {
                Ok((opt, ts)) => {
                    &&& ts == self@.ts
                    &&& match opt {
                        Some(d) => spec_find_rows(self@, key.deep_view(), block) == Ok::<
                            _,
                            (),
                        >((Some(d.deep_view()), self@.ts)),
                        None => spec_find_rows(self@, key.deep_view(), block) == Ok::<_, ()>((
                            None::<Seq<Seq<ValueModel>>>,
                            self@.ts,
                        )),
                    }
                },
                Err(_) => spec_find_rows(self@, key.deep_view(), block) is Err,
            },
    {
        let mut i: usize = 0;
        while i < self.entries.len()
            invariant
                i <= self.entries.len(),
                self@.entries.len() == self.entries@.len(),
                forall|j: int| 0 <= j < i ==> self@.entries[j].key != key.deep_view(),
            decreases self.entries.len() - i,
        {
            proof {
                assert(self@.entries[i as int] == self.entries@[i as int]@);
            }
            if key_eq(&self.entries[i].key, key) {
                proof {
                    lemma_find_entry_skip(self@.entries, key.deep_view(), i as int);
                    assert(self@.entries.skip(i as int)[0] == self@.entries[i as int]);
                }
                if self.entries[i].pending && !block {
                    return Err(());
                }
                let rows = deep_clone_rows(&self.entries[i].rows);
                return Ok((Some(rows), self.ts));
            }
            i = i + 1;
        }
        proof {
            lemma_find_entry_skip(self@.entries, key.deep_view(), i as int);
        }
        Ok((None, self.ts))
    }

    /// A caller-owned copy of the whole store.
    pub fn clone_store(&self) -> (r: ShardStore)
        ensures
            r@ == self@,
    {
        let mut entries: Vec<StoreEntry> = Vec::new();
        let mut i: usize = 0;
        while i < self.entries.len()
            invariant
                i <= self.entries.len(),
                entries@.len() == i,
                forall|j: int| 0 <= j < i ==> entries.deep_view()[j] == self.entries.deep_view()[j],
            decreases self.entries.len() - i,
        {
            let ghost prev = entries@;
            let ghost prev_deep = entries.deep_view();
            let e = &self.entries[i];
            let copied = StoreEntry {
                key: crate::value::deep_clone_row(&e.key),
                rows: deep_clone_rows(&e.rows),
                pending: e.pending,
            };
            entries.push(copied);
            proof {
                assert(entries.deep_view()[i as int] == entries@[i as int]@);
                assert(self.entries.deep_view()[i as int] == self.entries@[i as int]@);
                assert forall|j: int| 0 <= j < i as int implies entries.deep_view()[j]
                    == self.entries.deep_view()[j] by {
                    assert(entries@[j] == prev[j]);
                    assert(entries.deep_view()[j] == entries@[j]@);
                    assert(prev_deep[j] == prev[j]@);
                }
            }
            i = i + 1;
        }
        let r = ShardStore { ts: self.ts, entries };
        proof {
            assert(r@.entries =~= self@.entries);
        }
        r
    }
}

/// In a search that found nothing, no entry holds the key.
proof fn lemma_find_entry_absent_all(entries: Seq<EntryModel>, key: Seq<ValueModel>)
    requires
        spec_find_entry(entries, key) is None,
    ensures
        forall|j: int| 0 <= j < entries.len() ==> entries[j].key != key,
    decreases entries.len(),
{
    if entries.len() > 0 {
        lemma_find_entry_absent_all(entries.drop_first(), key);
        assert forall|j: int| 0 <= j < entries.len() implies entries[j].key != key by {
            if j > 0 {
                assert(entries.drop_first()[j - 1] == entries[j]);
            }
        }
    }
}

} // verus!
