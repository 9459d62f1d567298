//! Typed tables over the embedded store.
//!
//! A table maps byte strings to byte strings and keeps them in the order of
//! their keys. `Tree` lays the typed view over it: keys and values go in and
//! come out in their wire form.
//!
//! What the store does is not verified here. It is stated in the contracts
//! of the functions that call `sled`, over a few names: what a table holds
//! and is called, which identifiers the store has given out, and the
//! configuration that a store was opened with.
//!
//! What a table holds is what was last written to it, so the contracts
//! need a table to have one handle. `Database::tree` sees to that: it opens
//! a name once, and a handle cannot be copied. A lasting store is locked
//! while it is open, so no second `Database` can be opened on it. The
//! identifiers come from the one counter of the store, through the
//! `Database`.

use vstd::prelude::*;
use std::marker::PhantomData;
use sled::Error as StoreFailure;
use sled::Tree as Table;
use vstd::slice::slice_to_vec;
use crate::error::{database_message, unreadable, Error, ErrorKind, ErrorView};
use crate::id::Id;
use crate::util::{views_of, CodecError, DekuRW};

verus! {

/// `sled::Db`, a handle of a store. Nothing of it is known but what the
/// functions below state.
#[verifier::external_type_specification]
#[verifier::external_body]
pub struct ExDb(sled::Db);

/// `sled::Tree`, a handle of one table of a store. Nothing of it is known
/// but what the functions below state.
#[verifier::external_type_specification]
#[verifier::external_body]
pub struct ExTable(Table);

/// What the table behind a handle holds: its values by their keys.
pub uninterp spec fn table_entries(table: Table) -> Map<Seq<u8>, Seq<u8>>;

/// The identifiers that the store behind a handle has given out.
pub uninterp spec fn issued_ids(db: sled::Db) -> Set<u64>;

/// Whether `id` is greater than every identifier in `issued`.
pub open spec fn newer(issued: Set<u64>, id: u64) -> bool {
    forall|other: u64| issued.contains(other) ==> other < id
}

/// Whether the identifiers in `ids` rise from each to the next.
pub open spec fn ascending(ids: Seq<u64>) -> bool {
    forall|i: int, j: int| 0 <= i < j < ids.len() ==> ids[i] < ids[j]
}

/// Whether each of `ids` is greater than every identifier in `issued`.
pub open spec fn all_newer(issued: Set<u64>, ids: Seq<u64>) -> bool {
    forall|i: int| 0 <= i < ids.len() ==> newer(issued, #[trigger] ids[i])
}

/// What a table is called in its store.
pub uninterp spec fn table_name(table: Table) -> Seq<u8>;

/// The path in the configuration that a store was opened with.
pub uninterp spec fn store_path(db: sled::Db) -> Seq<char>;

/// Whether a store was opened as a temporary one, which is deleted when it
/// is dropped.
pub uninterp spec fn store_is_temporary(db: sled::Db) -> bool;

/// Whether a store was opened in the mode that saves space rather than
/// time.
pub uninterp spec fn store_saves_space(db: sled::Db) -> bool;

/// Whether `key` begins with `prefix`.
pub open spec fn starts_with(key: Seq<u8>, prefix: Seq<u8>) -> bool {
    prefix.len() <= key.len() && key.subrange(0, prefix.len() as int) == prefix
}

/// Whether `a` comes before `b` in the order of the table: at the first
/// byte in which they differ `a` has the smaller one, or `a` ends first.
pub open spec fn key_before(a: Seq<u8>, b: Seq<u8>) -> bool
    decreases a.len(),
{
    if b.len() == 0 {
        false
    } else if a.len() == 0 {
        true
    } else if a[0] != b[0] {
        a[0] < b[0]
    } else {
        key_before(a.drop_first(), b.drop_first())
    }
}

/// Whether `found` lists what `entries` holds under the keys that begin with
/// `prefix`: those entries, each once, by ascending key.
#[verifier::opaque]
pub open spec fn is_prefix_scan(
    entries: Map<Seq<u8>, Seq<u8>>,
    prefix: Seq<u8>,
    found: Seq<(Seq<u8>, Seq<u8>)>,
) -> bool {
    &&& forall|i: int|
        0 <= i < found.len() ==> {
            &&& starts_with(#[trigger] found[i].0, prefix)
            &&& entries.contains_key(found[i].0)
            &&& entries[found[i].0] == found[i].1
        }
    &&& forall|key: Seq<u8>| #[trigger]
        entries.contains_key(key) && starts_with(key, prefix) ==> exists|i: int|
            0 <= i < found.len() && #[trigger] found[i].0 == key
    &&& forall|i: int, j: int|
        0 <= i < j < found.len() ==> key_before(#[trigger] found[i].0, #[trigger] found[j].0)
}

/// Whether the keys and values of `raw` read as those of `found`, place by
/// place.
pub open spec fn reads_as<Key: DekuRW, T: DekuRW>(
    raw: Seq<(Seq<u8>, Seq<u8>)>,
    found: Seq<(Key, T)>,
) -> bool {
    &&& raw.len() == found.len()
    &&& forall|i: int|
        0 <= i < raw.len() ==> {
            &&& Key::parse(raw[i].0) == Ok::<Key::V, CodecError>((#[trigger] found[i]).0@)
            &&& T::parse(raw[i].1) == Ok::<T::V, CodecError>(found[i].1@)
        }
}

/// Whether some key or value of `raw` does not read as a `Key` or a `T`.
pub open spec fn misreads<Key: DekuRW, T: DekuRW>(raw: Seq<(Seq<u8>, Seq<u8>)>) -> bool {
    exists|i: int|
        0 <= i < raw.len() && (Key::parse((#[trigger] raw[i]).0) is Err || T::parse(raw[i].1) is Err)
}

/// Whether `found` is what a scan of `entries` by `prefix` reads.
pub open spec fn scans_as<Key: DekuRW, T: DekuRW>(
    entries: Map<Seq<u8>, Seq<u8>>,
    prefix: Seq<u8>,
    found: Seq<(Key, T)>,
) -> bool {
    exists|raw: Seq<(Seq<u8>, Seq<u8>)>|
        #[trigger] is_prefix_scan(entries, prefix, raw) && reads_as::<Key, T>(raw, found)
}

/// Whether a scan of `entries` by `prefix` meets a key or a value that does
/// not read as a `Key` or a `T`.
pub open spec fn scan_misreads<Key: DekuRW, T: DekuRW>(
    entries: Map<Seq<u8>, Seq<u8>>,
    prefix: Seq<u8>,
) -> bool {
    exists|raw: Seq<(Seq<u8>, Seq<u8>)>|
        #[trigger] is_prefix_scan(entries, prefix, raw) && misreads::<Key, T>(raw)
}

/// The value under `key`, if there is one.
pub open spec fn entry_at(entries: Map<Seq<u8>, Seq<u8>>, key: Seq<u8>) -> Option<Seq<u8>> {
    if entries.contains_key(key) {
        Some(entries[key])
    } else {
        None
    }
}

/// What `entries` holds under `key`, read as a `T`: nothing, a value, or
/// bytes that are no value.
pub open spec fn lookup<T: DekuRW>(entries: Map<Seq<u8>, Seq<u8>>, key: Seq<u8>) -> Option<
    Result<T::V, CodecError>,
> {
    match entry_at(entries, key) {
        Some(bytes) => Some(T::parse(bytes)),
        None => None,
    }
}

/// Pairs of byte vectors as pairs of byte sequences.
pub open spec fn raw_pairs(items: Seq<(Vec<u8>, Vec<u8>)>) -> Seq<(Seq<u8>, Seq<u8>)> {
    Seq::new(items.len(), |i: int| (items[i].0@, items[i].1@))
}

/// A byte vector, if there is one, as a byte sequence.
pub open spec fn raw_value(value: Option<Vec<u8>>) -> Option<Seq<u8>> {
    match value {
        Some(bytes) => Some(bytes@),
        None => None,
    }
}

/// `sled::Config::open` on the configuration with the path `path` and the
/// mode that saves space: a handle of a store that keeps this
/// configuration, which is that of a lasting store. Nothing is claimed of
/// what the store holds.
#[verifier::external_body]
fn open_store(path: &str) -> (r: Result<sled::Db, StoreFailure>)
    ensures
        r matches Ok(db) ==> store_path(db) == path@ && store_saves_space(db)
            && !store_is_temporary(db),
{
    sled::Config::default().path(path).mode(sled::Mode::LowSpace).open()
}

/// `sled::Config::open` on the configuration of a temporary store: a handle
/// of a store that keeps this configuration, and that is deleted when it is
/// dropped. Nothing is claimed of where the store lies or what it holds.
#[verifier::external_body]
fn open_temporary_store() -> (r: Result<sled::Db, StoreFailure>)
    ensures
        r matches Ok(db) ==> store_is_temporary(db),
{
    sled::Config::default().temporary(true).open()
}

/// `sled::Db::open_tree`: a handle of the table of the store with the given
/// name, which is made if it is not there. Nothing is claimed of what it
/// holds. Asked twice for one name, the store gives two handles of one
/// table: `Database::tree`, the only caller, asks once.
#[verifier::external_body]
fn open_table(db: &sled::Db, name: &[u8]) -> (r: Result<Table, StoreFailure>)
    ensures
        r matches Ok(table) ==> table_name(table) == name@,
{
    db.open_tree(name)
}

/// `sled::Db::generate_id`: the next number of the store's counter, which
/// only rises: an identifier greater than any that the store has given out
/// before. A call that fails gives none out.
#[verifier::external_body]
fn next_id(db: &mut sled::Db) -> (r: Result<u64, StoreFailure>)
    ensures
        match r {
            Ok(id) => newer(issued_ids(*old(db)), id) && issued_ids(*final(db)) == issued_ids(
                *old(db),
            ).insert(id),
            Err(_) => issued_ids(*final(db)) == issued_ids(*old(db)),
        },
        store_path(*final(db)) == store_path(*old(db)),
        store_is_temporary(*final(db)) == store_is_temporary(*old(db)),
        store_saves_space(*final(db)) == store_saves_space(*old(db)),
{
    db.generate_id()
}

/// `sled::Tree::insert`: sets the value under `key` and returns the one that
/// was there. A call that fails has set the value or has not; which of the
/// two, the failure does not say. The handle stays one of the same table.
/// The contract speaks of a table with one handle, which is all that
/// `Database::tree` gives out.
#[verifier::external_body]
fn table_insert(table: &mut Table, key: &[u8], value: &[u8]) -> (r: Result<
    Option<Vec<u8>>,
    StoreFailure,
>)
    ensures
        match r {
            Ok(last) => {
                &&& table_entries(*final(table)) == table_entries(*old(table)).insert(key@, value@)
                &&& raw_value(last) == entry_at(table_entries(*old(table)), key@)
            },
            Err(_) => {
                ||| table_entries(*final(table)) == table_entries(*old(table))
                ||| table_entries(*final(table)) == table_entries(*old(table)).insert(
                    key@,
                    value@,
                )
            },
        },
        table_name(*final(table)) == table_name(*old(table)),
{
    table.insert(key, value).map(|last| last.map(|bytes| bytes.to_vec()))
}

/// `sled::Tree::get`: the value under `key`, if there is one. The contract
/// speaks of a table with one handle.
#[verifier::external_body]
fn table_get(table: &Table, key: &[u8]) -> (r: Result<Option<Vec<u8>>, StoreFailure>)
    ensures
        r matches Ok(value) ==> raw_value(value) == entry_at(table_entries(*table), key@),
{
    table.get(key).map(|value| value.map(|bytes| bytes.to_vec()))
}

/// `sled::Tree::remove`: deletes the value under `key` and returns it. A
/// call that fails has deleted the value or has not; which of the two, the
/// failure does not say. The handle stays one of the same table. The
/// contract speaks of a table with one handle, which is all that
/// `Database::tree` gives out.
#[verifier::external_body]
fn table_remove(table: &mut Table, key: &[u8]) -> (r: Result<Option<Vec<u8>>, StoreFailure>)
    ensures
        match r {
            Ok(last) => {
                &&& table_entries(*final(table)) == table_entries(*old(table)).remove(key@)
                &&& raw_value(last) == entry_at(table_entries(*old(table)), key@)
            },
            Err(_) => {
                ||| table_entries(*final(table)) == table_entries(*old(table))
                ||| table_entries(*final(table)) == table_entries(*old(table)).remove(key@)
            },
        },
        table_name(*final(table)) == table_name(*old(table)),
{
    table.remove(key).map(|last| last.map(|bytes| bytes.to_vec()))
}

/// `sled::Tree::scan_prefix`, walked to its end: the entries whose keys
/// begin with `prefix`, by ascending key, or the first failure of the walk.
/// The contract speaks of a table with one handle.
#[verifier::external_body]
fn table_scan(table: &Table, prefix: &[u8]) -> (r: Result<Vec<(Vec<u8>, Vec<u8>)>, StoreFailure>)
    ensures
        r matches Ok(found) ==> is_prefix_scan(table_entries(*table), prefix@, raw_pairs(found@)),
{
    table.scan_prefix(prefix).map(|item| item.map(|(key, value)| (key.to_vec(), value.to_vec())))
        .collect()
}

/// Manages all stored data: the one handle of a store, which gives out the
/// identifiers and, once for each name, the tables.
///
/// A lasting store is locked while it is open, so that no second handle of
/// it can be opened beside this one.
pub struct Database {
    db: sled::Db,
    opened: Vec<Vec<u8>>,
}

/// A table of values of type `T` by keys of type `Key`: the one handle of
/// its table.
pub struct Tree<T, Key = Id<T>> {
    tree: Table,
    phantom: PhantomData<(T, Key)>,
}

/// Whether two byte strings are the same.
fn same_bytes(a: &[u8], b: &[u8]) -> (r: bool)
    ensures
        r == (a@ == b@),
{
    if a.len() != b.len() {
        return false;
    }
    let mut i: usize = 0;
    while i < a.len()
        invariant
            i <= a@.len(),
            a@.len() == b@.len(),
            forall|k: int| 0 <= k < i ==> a@[k] == b@[k],
        decreases a@.len() - i,
    {
        if a[i] != b[i] {
            return false;
        }
        i += 1;
    }
    assert(a@ =~= b@);
    true
}

/// Whether `name` is among `names`.
pub open spec fn is_among(names: Seq<Vec<u8>>, name: Seq<u8>) -> bool {
    exists|i: int| 0 <= i < names.len() && (#[trigger] names[i])@ == name
}

impl Database {
    /// The path that the store was opened with.
    pub closed spec fn path(&self) -> Seq<char> {
        store_path(self.db)
    }

    /// Whether the store is a temporary one.
    pub closed spec fn is_temporary(&self) -> bool {
        store_is_temporary(self.db)
    }

    /// Whether the store runs in the mode that saves space.
    pub closed spec fn saves_space(&self) -> bool {
        store_saves_space(self.db)
    }

    /// The identifiers that the store has given out.
    pub closed spec fn issued(&self) -> Set<u64> {
        issued_ids(self.db)
    }

    /// The names of the tables that have been opened.
    pub closed spec fn opened(&self) -> Set<Seq<u8>> {
        Set::new(|name: Seq<u8>| is_among(self.opened@, name))
    }

    /// Whether two handles are of a store with the same configuration.
    pub open spec fn same_store(&self, other: &Database) -> bool {
        &&& self.path() == other.path()
        &&& self.is_temporary() == other.is_temporary()
        &&& self.saves_space() == other.saves_space()
    }

    /// Opens the store in the directory `DullBananasFontGenData`, which
    /// holds all tables: a lasting store, in the mode that saves space, with
    /// no table opened yet. Only the store can make this fail.
    pub fn open() -> (r: Result<Database, Error>)
        ensures
            match r {
                Ok(database) => database.path() == "DullBananasFontGenData"@
                    && database.saves_space() && !database.is_temporary()
                    && database.opened() == Set::<Seq<u8>>::empty(),
                Err(e) => e@.kind == ErrorKind::Store,
            },
    {
        match open_store("DullBananasFontGenData") {
            Ok(db) => {
                let database = Database { db, opened: Vec::new() };
                assert(database.opened() =~= Set::<Seq<u8>>::empty());
                Ok(database)
            },
            Err(e) => Err(Error::from(e)),
        }
    }

    /// Opens a store of its own that is gone when the last handle is, with
    /// no table opened yet. Only the store can make this fail.
    pub fn temporary() -> (r: Result<Database, Error>)
        ensures
            match r {
                Ok(database) => database.is_temporary() && database.opened() == Set::<
                    Seq<u8>,
                >::empty(),
                Err(e) => e@.kind == ErrorKind::Store,
            },
    {
        match open_temporary_store() {
            Ok(db) => {
                let database = Database { db, opened: Vec::new() };
                assert(database.opened() =~= Set::<Seq<u8>>::empty());
                Ok(database)
            },
            Err(e) => Err(Error::from(e)),
        }
    }

    /// Opens the table with the given name. The caller says what it holds.
    ///
    /// A table is opened once: its handle is the only one, so that what is
    /// written through it is what is read through it. A second opening of a
    /// name fails, as a failure of the store does.
    pub fn tree<T, Key>(&mut self, name: &[u8]) -> (r: Result<Tree<T, Key>, Error>)
        ensures
            final(self).issued() == old(self).issued(),
            final(self).same_store(old(self)),
            match r {
                Ok(tree) => {
                    &&& !old(self).opened().contains(name@)
                    &&& final(self).opened() == old(self).opened().insert(name@)
                    &&& tree.name() == name@
                },
                Err(e) => e@.kind == ErrorKind::Store && final(self).opened() == old(
                    self,
                ).opened(),
            },
            old(self).opened().contains(name@) ==> (r matches Err(e) && e@.message
                == database_message("the table is open already"@)),
    {
        let mut i: usize = 0;
        while i < self.opened.len()
            invariant
                i <= self.opened@.len(),
                *self == *old(self),
                forall|k: int| 0 <= k < i ==> (#[trigger] self.opened@[k])@ != name@,
            decreases self.opened@.len() - i,
        {
            if same_bytes(self.opened[i].as_slice(), name) {
                return Err(Error::database("the table is open already"));
            }
            i += 1;
        }
        match open_table(&self.db, name) {
            Ok(tree) => {
                self.opened.push(slice_to_vec(name));
                proof {
                    let before = old(self).opened@;
                    let after = self.opened@;
                    assert(after =~= before.push(after.last()));
                    assert forall|other: Seq<u8>| is_among(after, other) <==> (is_among(
                        before,
                        other,
                    ) || other == name@) by {
                        if is_among(after, other) {
                            let k = choose|k: int|
                                0 <= k < after.len() && (#[trigger] after[k])@ == other;
                            if k < before.len() {
                                assert(before[k]@ == other);
                            }
                        }
                        if is_among(before, other) {
                            let k = choose|k: int|
                                0 <= k < before.len() && (#[trigger] before[k])@ == other;
                            assert(after[k]@ == other);
                        }
                        if other == name@ {
                            assert(after[after.len() - 1]@ == other);
                        }
                    }
                    assert(self.opened() =~= old(self).opened().insert(name@));
                }
                Ok(Tree { tree, phantom: PhantomData })
            },
            Err(e) => Err(Error::from(e)),
        }
    }
}

/// What `entries` holds once each of `values` is stored under the key at
/// its place in `keys`, from the first to the last.
pub open spec fn put_each(
    entries: Map<Seq<u8>, Seq<u8>>,
    keys: Seq<Seq<u8>>,
    values: Seq<Seq<u8>>,
) -> Map<Seq<u8>, Seq<u8>>
    decreases keys.len(),
{
    if keys.len() == 0 || values.len() != keys.len() {
        entries
    } else {
        put_each(entries, keys.drop_last(), values.drop_last()).insert(keys.last(), values.last())
    }
}

/// Whether no key stands twice in `keys`.
pub open spec fn distinct_keys(keys: Seq<Seq<u8>>) -> bool {
    forall|i: int, j: int| 0 <= i < j < keys.len() ==> keys[i] != keys[j]
}

/// Storing one after the other is storing the first, then the rest.
pub proof fn lemma_put_each_front(
    entries: Map<Seq<u8>, Seq<u8>>,
    keys: Seq<Seq<u8>>,
    values: Seq<Seq<u8>>,
)
    requires
        keys.len() == values.len(),
        keys.len() > 0,
    ensures
        put_each(entries, keys, values) == put_each(
            entries.insert(keys.first(), values.first()),
            keys.drop_first(),
            values.drop_first(),
        ),
    decreases keys.len(),
{
    if keys.len() == 1 {
        assert(put_each(entries, keys.drop_last(), values.drop_last()) == entries);
        assert(keys.drop_first().len() == 0);
    } else {
        lemma_put_each_front(entries, keys.drop_last(), values.drop_last());
        assert(keys.drop_last().drop_first() =~= keys.drop_first().drop_last());
        assert(values.drop_last().drop_first() =~= values.drop_first().drop_last());
        assert(keys.drop_last().first() == keys.first());
        assert(values.drop_last().first() == values.first());
        assert(keys.drop_first().last() == keys.last());
        assert(values.drop_first().last() == values.last());
    }
}

/// What has been stored under distinct keys is found: each value under its
/// key, and under any other key what was there before.
pub proof fn lemma_put_each_found(
    entries: Map<Seq<u8>, Seq<u8>>,
    keys: Seq<Seq<u8>>,
    values: Seq<Seq<u8>>,
)
    requires
        keys.len() == values.len(),
        distinct_keys(keys),
    ensures
        forall|i: int|
            0 <= i < keys.len() ==> entry_at(put_each(entries, keys, values), #[trigger] keys[i])
                == Some(values[i]),
        forall|key: Seq<u8>|
            !keys.contains(key) ==> #[trigger] entry_at(put_each(entries, keys, values), key)
                == entry_at(entries, key),
    decreases keys.len(),
{
    if keys.len() > 0 {
        let head_keys = keys.drop_last();
        let head_values = values.drop_last();
        lemma_put_each_found(entries, head_keys, head_values);
        let stored = put_each(entries, keys, values);
        assert forall|i: int| 0 <= i < keys.len() implies entry_at(stored, #[trigger] keys[i])
            == Some(values[i]) by {
            if i < keys.len() - 1 {
                assert(head_keys[i] == keys[i]);
                assert(keys[i] != keys.last());
            }
        }
        assert forall|key: Seq<u8>| !keys.contains(key) implies #[trigger] entry_at(stored, key)
            == entry_at(entries, key) by {
            assert(keys[keys.len() - 1] == keys.last());
            assert(key != keys.last());
            assert forall|i: int| 0 <= i < head_keys.len() implies head_keys[i] != key by {
                assert(head_keys[i] == keys[i]);
            }
            assert(!head_keys.contains(key));
            let head = put_each(entries, head_keys, head_values);
            assert(entry_at(head, key) == entry_at(entries, key));
            assert(stored == head.insert(keys.last(), values.last()));
        }
    }
}

/// However many identifiers the store gives out one after the other, to
/// whichever tables, they rise, so that no two of them are the same.
///
/// `issued` holds what the store had given out before each call and after
/// the last, and `ids` what the calls returned: each was above all given out
/// before it, and has been given out since.
pub proof fn lemma_ids_given_once(issued: Seq<Set<u64>>, ids: Seq<u64>)
    requires
        issued.len() == ids.len() + 1,
        forall|k: int|
            0 <= k < ids.len() ==> newer(#[trigger] issued[k], ids[k]) && issued[k + 1]
                == issued[k].insert(ids[k]),
    ensures
        ascending(ids),
        distinct(ids),
        forall|k: int| 0 <= k < ids.len() ==> issued.last().contains(#[trigger] ids[k]),
        forall|k: int| 0 <= k < ids.len() ==> newer(issued.first(), #[trigger] ids[k]),
        issued.first().subset_of(issued.last()),
    decreases ids.len(),
{
    if ids.len() > 0 {
        let n = ids.len() as int;
        let head_issued = issued.drop_last();
        let head_ids = ids.drop_last();
        assert forall|k: int| 0 <= k < head_ids.len() implies newer(
            #[trigger] head_issued[k],
            head_ids[k],
        ) && head_issued[k + 1] == head_issued[k].insert(head_ids[k]) by {
            assert(head_issued[k] == issued[k]);
            assert(head_issued[k + 1] == issued[k + 1]);
        }
        lemma_ids_given_once(head_issued, head_ids);
        assert(head_issued.last() == issued[n - 1]);
        assert(head_issued.first() == issued.first());
        assert(newer(issued[n - 1], ids[n - 1]));
        assert(issued.last() == issued[n - 1].insert(ids[n - 1]));
        assert forall|i: int, j: int| 0 <= i < j < ids.len() implies ids[i] < ids[j] by {
            if j == n - 1 {
                assert(head_ids[i] == ids[i]);
                assert(issued[n - 1].contains(head_ids[i]));
            } else {
                assert(head_ids[i] == ids[i] && head_ids[j] == ids[j]);
            }
        }
        assert forall|k: int| 0 <= k < ids.len() implies issued.last().contains(
            #[trigger] ids[k],
        ) && newer(issued.first(), ids[k]) by {
            if k < n - 1 {
                assert(head_ids[k] == ids[k]);
            } else {
                assert forall|other: u64| issued.first().contains(other) implies other
                    < ids[k] by {
                    assert(issued[n - 1].contains(other));
                }
            }
        }
    }
}

/// Identifiers that were taken one run after the other rise through both
/// runs.
pub proof fn lemma_ids_chain(issued: Set<u64>, first: Seq<u64>, second: Seq<u64>)
    requires
        ascending(first),
        all_newer(issued, first),
        ascending(second),
        all_newer(issued.union(first.to_set()), second),
    ensures
        ascending(first + second),
        all_newer(issued, first + second),
        (first + second).to_set() == first.to_set().union(second.to_set()),
        issued.union(first.to_set()).union(second.to_set()) == issued.union(
            (first + second).to_set(),
        ),
{
    let both = first + second;
    let n = first.len() as int;
    assert forall|i: int, j: int| 0 <= i < j < both.len() implies both[i] < both[j] by {
        if j < n {
            assert(both[i] == first[i] && both[j] == first[j]);
        } else if i < n {
            assert(both[i] == first[i] && both[j] == second[j - n]);
            assert(first.to_set().contains(first[i]));
            assert(issued.union(first.to_set()).contains(first[i]));
            assert(newer(issued.union(first.to_set()), second[j - n]));
        } else {
            assert(both[i] == second[i - n] && both[j] == second[j - n]);
        }
    }
    assert forall|k: int| 0 <= k < both.len() implies newer(issued, #[trigger] both[k]) by {
        if k < n {
            assert(both[k] == first[k]);
            assert(newer(issued, first[k]));
        } else {
            assert(both[k] == second[k - n]);
            assert(newer(issued.union(first.to_set()), second[k - n]));
            assert forall|other: u64| issued.contains(other) implies other < second[k - n] by {
                assert(issued.union(first.to_set()).contains(other));
            }
        }
    }
    assert forall|id: u64| both.to_set().contains(id) <==> (first.to_set().contains(id)
        || second.to_set().contains(id)) by {
        if both.to_set().contains(id) {
            let k = choose|k: int| 0 <= k < both.len() && both[k] == id;
            if k < n {
                assert(first[k] == id);
            } else {
                assert(second[k - n] == id);
            }
        }
        if first.to_set().contains(id) {
            let k = choose|k: int| 0 <= k < first.len() && first[k] == id;
            assert(both[k] == id);
        }
        if second.to_set().contains(id) {
            let k = choose|k: int| 0 <= k < second.len() && second[k] == id;
            assert(both[n + k] == id);
        }
    }
    assert(both.to_set() =~= first.to_set().union(second.to_set()));
    assert(issued.union(first.to_set()).union(second.to_set()) =~= issued.union(both.to_set()));
}

/// One identifier is a run of its own.
pub proof fn lemma_one_id(issued: Set<u64>, id: u64)
    requires
        newer(issued, id),
    ensures
        ascending(seq![id]),
        all_newer(issued, seq![id]),
        seq![id].to_set() == set![id],
        issued.union(seq![id].to_set()) == issued.insert(id),
{
    assert(seq![id].to_set() =~= set![id]) by {
        assert forall|x: u64| seq![id].to_set().contains(x) <==> x == id by {
            if x == id {
                assert(seq![id][0] == id);
            }
        }
    }
    assert(issued.union(seq![id].to_set()) =~= issued.insert(id));
}

/// Identifiers that rise differ.
pub proof fn lemma_ascending_distinct(ids: Seq<u64>)
    requires
        ascending(ids),
    ensures
        distinct(ids),
{
}

/// Whether no number stands twice in `ids`.
pub open spec fn distinct(ids: Seq<u64>) -> bool {
    forall|i: int, j: int| 0 <= i < j < ids.len() ==> ids[i] != ids[j]
}

/// Whether `e` is the failure for what is found under a key and cannot be
/// read.
pub open spec fn misread_as<V>(found: Option<Result<V, CodecError>>, e: ErrorView) -> bool {
    found matches Some(Err(c)) && e == unreadable(c)
}

/// Whether `after` is `before` with some first ones of `values` stored, each
/// under a new identifier: what a run of insertions leaves that ended
/// early.
pub open spec fn stored_some<T: DekuRW>(
    before: Map<Seq<u8>, Seq<u8>>,
    after: Map<Seq<u8>, Seq<u8>>,
    issued_before: Set<u64>,
    issued_after: Set<u64>,
    values: Seq<T::V>,
) -> bool {
    exists|ids: Seq<u64>|
        {
            &&& ids.len() <= values.len()
            &&& ascending(ids)
            &&& all_newer(issued_before, ids)
            &&& issued_before.subset_of(issued_after)
            &&& ids.to_set().subset_of(issued_after)
            &&& #[trigger] put_each(
                before,
                wires_of::<Id<T>>(ids),
                wires_of::<T>(values.take(ids.len() as int)),
            ) == after
        }
}

impl<T, Key> Tree<T, Key> {
    /// What the table holds, in wire form.
    pub closed spec fn entries(&self) -> Map<Seq<u8>, Seq<u8>> {
        table_entries(self.tree)
    }

    /// What the table is called in its store.
    pub closed spec fn name(&self) -> Seq<u8> {
        table_name(self.tree)
    }

    /// The handle of the same table for values and keys of other types.
    /// What the table holds stays as it is, and reads as the new types say.
    pub fn retyped<Other, OtherKey>(self) -> (table: Tree<Other, OtherKey>)
        ensures
            table.entries() == self.entries(),
            table.name() == self.name(),
    {
        Tree { tree: self.tree, phantom: PhantomData }
    }
}

impl<T: DekuRW, Key: DekuRW> Tree<T, Key> {
    /// What the table holds under `key`: nothing, a value, or bytes that
    /// are no value.
    pub open spec fn record(&self, key: Key::V) -> Option<Result<T::V, CodecError>> {
        lookup::<T>(self.entries(), Key::wire(key))
    }

    /// Stores `value` under `key`, in place of what was there. Where the
    /// store fails, the value is stored or the table is as it was.
    pub fn insert_with_key(&mut self, key: Key, value: &T) -> (r: Result<(), Error>)
        ensures
            final(self).name() == old(self).name(),
            Key::fits(key@) && T::fits(value@),
            match r {
                Ok(()) => final(self).entries() == old(self).entries().insert(
                    Key::wire(key@),
                    T::wire(value@),
                ),
                Err(e) => e@.kind == ErrorKind::Store && (final(self).entries() == old(
                    self,
                ).entries() || final(self).entries() == old(self).entries().insert(
                    Key::wire(key@),
                    T::wire(value@),
                )),
            },
    {
        let key_bytes = key.to_bytes();
        let value_bytes = value.to_bytes();
        match table_insert(&mut self.tree, key_bytes.as_slice(), value_bytes.as_slice()) {
            Ok(_) => Ok(()),
            Err(e) => Err(Error::from(e)),
        }
    }

    /// The value under `key`, or `None` where there is none.
    pub fn get(&self, key: Key) -> (r: Result<Option<T>, Error>)
        ensures
            match r {
                Ok(Some(value)) => self.record(key@) == Some(Ok::<T::V, CodecError>(value@)),
                Ok(None) => self.record(key@) is None,
                Err(e) => e@.kind == ErrorKind::Store || misread_as(self.record(key@), e@),
            },
    {
        let key_bytes = key.to_bytes();
        match table_get(&self.tree, key_bytes.as_slice()) {
            Err(e) => Err(Error::from(e)),
            Ok(None) => Ok(None),
            Ok(Some(bytes)) => match T::read(bytes.as_slice()) {
                Ok(value) => Ok(Some(value)),
                Err(e) => Err(Error::from(e)),
            },
        }
    }

    /// Takes the value under `key` out of the table and returns it. Where
    /// the store fails, the value is taken out or the table is as it was.
    pub fn remove(&mut self, key: Key) -> (r: Result<Option<T>, Error>)
        ensures
            final(self).name() == old(self).name(),
            match r {
                Ok(Some(value)) => {
                    &&& old(self).record(key@) == Some(Ok::<T::V, CodecError>(value@))
                    &&& final(self).entries() == old(self).entries().remove(Key::wire(key@))
                },
                Ok(None) => {
                    &&& old(self).record(key@) is None
                    &&& final(self).entries() == old(self).entries()
                },
                Err(e) => (e@.kind == ErrorKind::Store && (final(self).entries() == old(
                    self,
                ).entries() || final(self).entries() == old(self).entries().remove(
                    Key::wire(key@),
                ))) || (misread_as(old(self).record(key@), e@) && final(self).entries() == old(
                    self,
                ).entries().remove(Key::wire(key@))),
            },
    {
        let key_bytes = key.to_bytes();
        match table_remove(&mut self.tree, key_bytes.as_slice()) {
            Err(e) => Err(Error::from(e)),
            Ok(None) => {
                assert(old(self).entries().remove(Key::wire(key@)) =~= old(self).entries());
                Ok(None)
            },
            Ok(Some(bytes)) => match T::read(bytes.as_slice()) {
                Ok(value) => Ok(Some(value)),
                Err(e) => Err(Error::from(e)),
            },
        }
    }

    /// The entries whose keys begin with the wire form of `prefix`, by
    /// ascending key.
    pub fn scan_prefix<P: DekuRW>(&self, prefix: P) -> (r: Result<Vec<(Key, T)>, Error>)
        ensures
            match r {
                Ok(found) => scans_as::<Key, T>(self.entries(), P::wire(prefix@), found@),
                Err(e) => e@.kind == ErrorKind::Store || (is_unreadable_failure(e@)
                    && scan_misreads::<Key, T>(self.entries(), P::wire(prefix@))),
            },
    {
        let prefix_bytes = prefix.to_bytes();
        let raw = match table_scan(&self.tree, prefix_bytes.as_slice()) {
            Ok(raw) => raw,
            Err(e) => {
                return Err(Error::from(e));
            },
        };
        let mut found: Vec<(Key, T)> = Vec::new();
        let mut i: usize = 0;
        while i < raw.len()
            invariant
                i <= raw@.len(),
                found@.len() == i,
                is_prefix_scan(self.entries(), P::wire(prefix@), raw_pairs(raw@)),
                forall|k: int|
                    0 <= k < i ==> {
                        &&& Key::parse(raw@[k].0@) == Ok::<Key::V, CodecError>(
                            (#[trigger] found@[k]).0@,
                        )
                        &&& T::parse(raw@[k].1@) == Ok::<T::V, CodecError>(found@[k].1@)
                    },
            decreases raw@.len() - i,
        {
            let key = match Key::read(raw[i].0.as_slice()) {
                Ok(key) => key,
                Err(e) => {
                    proof {
                        assert(Key::parse(raw_pairs(raw@)[i as int].0) is Err);
                    }
                    return Err(Error::from(e));
                },
            };
            let value = match T::read(raw[i].1.as_slice()) {
                Ok(value) => value,
                Err(e) => {
                    proof {
                        assert(T::parse(raw_pairs(raw@)[i as int].1) is Err);
                    }
                    return Err(Error::from(e));
                },
            };
            found.push((key, value));
            i += 1;
        }
        proof {
            let pairs = raw_pairs(raw@);
            assert(is_prefix_scan(self.entries(), P::wire(prefix@), pairs));
            assert forall|k: int| 0 <= k < pairs.len() implies {
                &&& Key::parse(pairs[k].0) == Ok::<Key::V, CodecError>((#[trigger] found@[k]).0@)
                &&& T::parse(pairs[k].1) == Ok::<T::V, CodecError>(found@[k].1@)
            } by {
                assert(pairs[k].0 == raw@[k].0@);
            }
            assert(reads_as::<Key, T>(pairs, found@));
        }
        Ok(found)
    }
}

/// Whether `e` is the failure for some record that could not be read.
pub open spec fn is_unreadable_failure(e: ErrorView) -> bool {
    e == unreadable(CodecError::Incomplete) || e == unreadable(CodecError::InvalidCharacter)
}

impl<T: DekuRW> Tree<T, Id<T>> {
    /// Stores `value` under a key that the store has not given out yet, and
    /// returns the key, which is greater than any given out before.
    ///
    /// Where the store fails, the value is stored under such a key or the
    /// table is as it was.
    pub fn insert(&mut self, db: &mut Database, value: &T) -> (r: Result<Id<T>, Error>)
        ensures
            final(self).name() == old(self).name(),
            final(db).opened() == old(db).opened(),
            final(db).same_store(old(db)),
            match r {
                Ok(id) => {
                    &&& T::fits(value@)
                    &&& newer(old(db).issued(), id@)
                    &&& final(db).issued() == old(db).issued().insert(id@)
                    &&& final(self).entries() == old(self).entries().insert(
                        Id::<T>::wire(id@),
                        T::wire(value@),
                    )
                },
                Err(e) => e@.kind == ErrorKind::Store && stored_some::<T>(
                    old(self).entries(),
                    final(self).entries(),
                    old(db).issued(),
                    final(db).issued(),
                    seq![value@],
                ),
            },
    {
        let ghost one = seq![value@];
        let key = match Id::generate(db) {
            Ok(key) => key,
            Err(e) => {
                proof {
                    let none = Seq::<u64>::empty();
                    assert(put_each(
                        old(self).entries(),
                        wires_of::<Id<T>>(none),
                        wires_of::<T>(one.take(0)),
                    ) == old(self).entries());
                    assert(none.to_set() =~= Set::<u64>::empty());
                }
                return Err(e);
            },
        };
        match self.insert_with_key(key, value) {
            Ok(()) => Ok(key),
            Err(e) => {
                proof {
                    if self.entries() == old(self).entries() {
                        let none = Seq::<u64>::empty();
                        assert(put_each(
                            old(self).entries(),
                            wires_of::<Id<T>>(none),
                            wires_of::<T>(one.take(0)),
                        ) == old(self).entries());
                        assert(none.to_set() =~= Set::<u64>::empty());
                    } else {
                        let ids = seq![key@];
                        assert(one.take(1) =~= one);
                        let keys = wires_of::<Id<T>>(ids);
                        let values = wires_of::<T>(one);
                        assert(keys.drop_last().len() == 0);
                        assert(put_each(old(self).entries(), keys.drop_last(), values.drop_last())
                            == old(self).entries());
                        assert(put_each(old(self).entries(), keys, values) == self.entries());
                        assert(ids.to_set() =~= set![key@]);
                    }
                }
                Err(e)
            },
        }
    }

    /// Stores each of `values` under a key of its own, in their order, and
    /// returns the keys, which rise from each to the next. With no values
    /// there is nothing to fail.
    ///
    /// Nothing is undone where the store fails: the values before the
    /// failing one stay stored, and the failing one is stored or is not.
    pub fn insert_each(&mut self, db: &mut Database, values: &Vec<T>) -> (r: Result<
        Vec<Id<T>>,
        Error,
    >)
        ensures
            final(self).name() == old(self).name(),
            final(db).opened() == old(db).opened(),
            final(db).same_store(old(db)),
            values@.len() == 0 ==> r is Ok,
            match r {
                Ok(keys) => {
                    &&& keys@.len() == values@.len()
                    &&& ascending(ids_of(keys@))
                    &&& all_newer(old(db).issued(), ids_of(keys@))
                    &&& final(db).issued() == old(db).issued().union(ids_of(keys@).to_set())
                    &&& final(self).entries() == put_each(
                        old(self).entries(),
                        wires_of::<Id<T>>(ids_of(keys@)),
                        wires_of::<T>(views_of(values@)),
                    )
                    &&& forall|i: int| 0 <= i < values@.len() ==> T::fits(#[trigger] values@[i]@)
                },
                Err(e) => e@.kind == ErrorKind::Store && stored_some::<T>(
                    old(self).entries(),
                    final(self).entries(),
                    old(db).issued(),
                    final(db).issued(),
                    views_of(values@),
                ),
            },
    {
        let mut keys: Vec<Id<T>> = Vec::new();
        let mut i: usize = 0;
        while i < values.len()
            invariant
                i <= values@.len(),
                keys@.len() == i,
                ascending(ids_of(keys@)),
                all_newer(old(db).issued(), ids_of(keys@)),
                db.issued() == old(db).issued().union(ids_of(keys@).to_set()),
                self.entries() == put_each(
                    old(self).entries(),
                    wires_of::<Id<T>>(ids_of(keys@)),
                    wires_of::<T>(views_of(values@.take(i as int))),
                ),
                forall|k: int| 0 <= k < i ==> T::fits(#[trigger] values@[k]@),
                self.name() == old(self).name(),
                db.opened() == old(db).opened(),
                db.same_store(old(db)),
            decreases values@.len() - i,
        {
            let ghost before = ids_of(keys@);
            let ghost entries_before = self.entries();
            let ghost issued_before = db.issued();
            let ghost done = views_of(values@.take(i as int));
            match self.insert(db, &values[i]) {
                Ok(id) => {
                    keys.push(id);
                    proof {
                        let now = ids_of(keys@);
                        assert(now =~= before.push(id@));
                        lemma_one_id(issued_before, id@);
                        lemma_ids_chain(old(db).issued(), before, seq![id@]);
                        assert(before + seq![id@] =~= now);
                        let more = views_of(values@.take(i as int + 1));
                        assert(more =~= done.push(values@[i as int]@));
                        let key_wires = wires_of::<Id<T>>(now);
                        let value_wires = wires_of::<T>(more);
                        assert(key_wires.drop_last() =~= wires_of::<Id<T>>(before));
                        assert(value_wires.drop_last() =~= wires_of::<T>(done));
                        assert(key_wires.last() == Id::<T>::wire(id@));
                        assert(value_wires.last() == T::wire(values@[i as int]@));
                    }
                },
                Err(e) => {
                    proof {
                        assert(views_of(values@).take(i as int) =~= done);
                        assert(seq![views_of(values@)[i as int]] =~= seq![values@[i as int]@]);
                        lemma_stored_one_more::<T>(
                            old(self).entries(),
                            entries_before,
                            self.entries(),
                            old(db).issued(),
                            issued_before,
                            db.issued(),
                            views_of(values@),
                            before,
                        );
                    }
                    return Err(e);
                },
            }
            i += 1;
        }
        proof {
            assert(values@.take(i as int) =~= values@);
        }
        Ok(keys)
    }
}

/// Where some first values are stored and the insertion of the next one
/// ends early, some first values are stored.
pub proof fn lemma_stored_one_more<T: DekuRW>(
    start: Map<Seq<u8>, Seq<u8>>,
    before: Map<Seq<u8>, Seq<u8>>,
    after: Map<Seq<u8>, Seq<u8>>,
    issued_start: Set<u64>,
    issued_before: Set<u64>,
    issued_after: Set<u64>,
    values: Seq<T::V>,
    ids: Seq<u64>,
)
    requires
        ids.len() < values.len(),
        ascending(ids),
        all_newer(issued_start, ids),
        issued_before == issued_start.union(ids.to_set()),
        before == put_each(
            start,
            wires_of::<Id<T>>(ids),
            wires_of::<T>(values.take(ids.len() as int)),
        ),
        stored_some::<T>(before, after, issued_before, issued_after, seq![values[ids.len() as int]]),
    ensures
        stored_some::<T>(start, after, issued_start, issued_after, values),
{
    let one = seq![values[ids.len() as int]];
    let last = choose|last: Seq<u64>|
        {
            &&& last.len() <= one.len()
            &&& ascending(last)
            &&& all_newer(issued_before, last)
            &&& issued_before.subset_of(issued_after)
            &&& last.to_set().subset_of(issued_after)
            &&& #[trigger] put_each(
                before,
                wires_of::<Id<T>>(last),
                wires_of::<T>(one.take(last.len() as int)),
            ) == after
        };
    let n = ids.len() as int;
    assert forall|id: u64| ids.to_set().contains(id) implies issued_before.contains(id) by {}
    if last.len() == 0 {
        assert(put_each(before, wires_of::<Id<T>>(last), wires_of::<T>(one.take(0))) == before);
        assert forall|id: u64| ids.to_set().contains(id) implies issued_after.contains(id) by {
            assert(issued_before.contains(id));
        }
        assert(put_each(start, wires_of::<Id<T>>(ids), wires_of::<T>(values.take(n))) == after);
        assert(ids.to_set().subset_of(issued_after));
    } else {
        let id = last[0];
        let all = ids.push(id);
        assert(last =~= seq![id]);
        assert(one.take(1) =~= one);
        let keys1 = wires_of::<Id<T>>(last);
        let values1 = wires_of::<T>(one);
        assert(put_each(before, keys1.drop_last(), values1.drop_last()) == before);
        assert(after == before.insert(keys1.last(), values1.last()));
        let keys = wires_of::<Id<T>>(all);
        let wires = wires_of::<T>(values.take(n + 1));
        assert(keys.drop_last() =~= wires_of::<Id<T>>(ids));
        assert(wires.drop_last() =~= wires_of::<T>(values.take(n)));
        assert(keys.last() == keys1.last());
        assert(wires.last() == values1.last());
        assert(put_each(start, keys, wires) == after);
        assert(newer(issued_before, last[0]));
        lemma_one_id(issued_before, id);
        lemma_ids_chain(issued_start, ids, seq![id]);
        assert(ids + seq![id] =~= all);
        assert(last.to_set().contains(last[0]));
        assert forall|x: u64| all.to_set().contains(x) implies issued_after.contains(x) by {
            if ids.to_set().contains(x) {
                assert(issued_before.contains(x));
            }
        }
    }
}

/// The numbers of some identifiers.
pub open spec fn ids_of<T>(keys: Seq<Id<T>>) -> Seq<u64> {
    Seq::new(keys.len(), |i: int| keys[i]@)
}

/// The wire forms of some values.
pub open spec fn wires_of<T: DekuRW>(values: Seq<T::V>) -> Seq<Seq<u8>> {
    Seq::new(values.len(), |i: int| T::wire(values[i]))
}

impl<T> Id<T> {
    /// Sets an identifier aside without storing anything under it: the next
    /// number of the store's one counter, greater than any given out before.
    /// In most cases `Tree::insert` is what is wanted.
    pub fn generate(db: &mut Database) -> (r: Result<Id<T>, Error>)
        ensures
            final(db).opened() == old(db).opened(),
            final(db).same_store(old(db)),
            match r {
                Ok(id) => newer(old(db).issued(), id@) && final(db).issued() == old(
                    db,
                ).issued().insert(id@),
                Err(e) => e@.kind == ErrorKind::Store && final(db).issued() == old(db).issued(),
            },
    {
        match next_id(&mut db.db) {
            Ok(id) => Ok(Id::new(id)),
            Err(e) => Err(Error::from(e)),
        }
    }
}

} // verus!
