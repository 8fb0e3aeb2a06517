//! The store as a document: a table `trust` from each canonical path to its
//! record. A denial is the string `Untrusted`; a grant is a table with the one
//! key `Workspace` or `File`, over the grant's fields.

use vstd::prelude::*;
use crate::config::{
    entries_view, field, items_view, lemma_array_view, lemma_index_found, lemma_table_view,
    parse_config, position,
    toml_document, ConfigValue, Doc,
};
use crate::store::{after_read, LoadStep, StoreRead, StoreReadView};
use crate::trust_db::{record_of, Trust, TrustDb, TrustRecord};

verus! {

/// Whether a value is an integer that fits a byte.
pub open spec fn is_byte(item: Doc) -> bool {
    match item {
        Doc::Integer(n) => 0 <= n <= 255,
        _ => false,
    }
}

/// The byte that an integer value stands for.
pub open spec fn byte_of(item: Doc) -> u8 {
    match item {
        Doc::Integer(n) => n as u8,
        _ => 0u8,
    }
}

/// The bytes that an array of integers stands for; `None` unless every item
/// is an integer that fits a byte.
pub open spec fn decoded_bytes(items: Seq<Doc>) -> Option<Seq<u8>> {
    if forall|i: int| 0 <= i < items.len() ==> is_byte(#[trigger] items[i]) {
        Some(Seq::new(items.len(), |i: int| byte_of(items[i])))
    } else {
        None
    }
}

/// The fields of a grant: the table that stands under the grant's one key.
pub open spec fn decoded_workspace(body: Doc) -> Option<TrustRecord> {
    match body {
        Doc::Table(fields) => match field(fields, "completely"@) {
            Some(Doc::Boolean(completely)) => Some(TrustRecord::Workspace { completely }),
            _ => None,
        },
        _ => None,
    }
}

/// The fields of a file grant.
pub open spec fn decoded_file(body: Doc) -> Option<TrustRecord> {
    match body {
        Doc::Table(fields) => match field(fields, "hash"@) {
            Some(Doc::Array(items)) => match decoded_bytes(items) {
                Some(hash) => Some(TrustRecord::File { hash }),
                None => None,
            },
            _ => None,
        },
        _ => None,
    }
}

/// The record that a value stands for; `None` where it stands for none.
pub open spec fn decoded_record(value: Doc) -> Option<TrustRecord> {
    match value {
        Doc::String(s) => if s == "Untrusted"@ {
            Some(TrustRecord::Untrusted)
        } else {
            None
        },
        Doc::Table(entries) => if entries.len() != 1 {
            None
        } else if entries[0].0 == "Workspace"@ {
            decoded_workspace(entries[0].1)
        } else if entries[0].0 == "File"@ {
            decoded_file(entries[0].1)
        } else {
            None
        },
        _ => None,
    }
}

/// The records that the entries of the `trust` table stand for, a later entry
/// winning over an earlier one for the same path; `None` where one of them
/// stands for no record.
pub open spec fn decoded_records(entries: Seq<(Seq<char>, Doc)>) -> Option<
    Map<Seq<char>, TrustRecord>,
>
    decreases entries.len(),
{
    if entries.len() == 0 {
        Some(Map::empty())
    } else {
        match (decoded_records(entries.drop_last()), decoded_record(entries.last().1)) {
            (Some(records), Some(record)) => Some(records.insert(entries.last().0, record)),
            _ => None,
        }
    }
}

/// The store that a document stands for: empty without a `trust` table;
/// `None` where the document is not a store.
pub open spec fn decoded_store(document: Doc) -> Option<Map<Seq<char>, TrustRecord>> {
    match document {
        Doc::Table(top) => match field(top, "trust"@) {
            None => Some(Map::empty()),
            Some(Doc::Table(entries)) => decoded_records(entries),
            Some(_) => None,
        },
        _ => None,
    }
}

/// Entries that do not decode up to some point do not decode as a whole.
proof fn lemma_decoded_prefix(entries: Seq<(Seq<char>, Doc)>, upto: int)
    requires
        0 <= upto <= entries.len(),
        decoded_records(entries.take(upto)).is_none(),
    ensures
        decoded_records(entries).is_none(),
    decreases entries.len(),
{
    if upto == entries.len() {
        assert(entries.take(upto) =~= entries);
    } else {
        assert(entries.drop_last().take(upto) =~= entries.take(upto));
        lemma_decoded_prefix(entries.drop_last(), upto);
    }
}

fn lookup<'a>(entries: &'a Vec<(String, ConfigValue)>, key: &str) -> (found: Option<
    &'a ConfigValue,
>)
    ensures
        match found {
            Some(value) => field(entries_view(entries@), key@) == Some(value@),
            None => field(entries_view(entries@), key@).is_none(),
        },
{
    match position(entries, &key.to_owned()) {
        Some(i) => Some(&entries[i].1),
        None => None,
    }
}

fn decode_bytes(items: &Vec<ConfigValue>) -> (bytes: Option<Vec<u8>>)
    ensures
        match bytes {
            Some(b) => decoded_bytes(items_view(items@)) == Some(b@),
            None => decoded_bytes(items_view(items@)).is_none(),
        },
{
    let mut bytes: Vec<u8> = Vec::new();
    let mut i: usize = 0;
    while i < items.len()
        invariant
            i <= items@.len(),
            bytes@.len() == i,
            forall|k: int| 0 <= k < i ==> is_byte(#[trigger] items_view(items@)[k]),
            forall|k: int| 0 <= k < i ==> bytes@[k] == byte_of(items_view(items@)[k]),
        decreases items@.len() - i,
    {
        match &items[i] {
            ConfigValue::Integer(n) => {
                if 0 <= *n && *n <= 255 {
                    bytes.push(*n as u8);
                } else {
                    assert(!is_byte(items_view(items@)[i as int]));
                    return None;
                }
            },
            _ => {
                assert(!is_byte(items_view(items@)[i as int]));
                return None;
            },
        }
        i += 1;
    }
    assert(bytes@ =~= Seq::new(items_view(items@).len(), |k: int| byte_of(items_view(items@)[k])));
    Some(bytes)
}

fn decode_workspace(body: &ConfigValue) -> (record: Option<Trust>)
    ensures
        record_of(record) == decoded_workspace(body@),
{
    match body {
        ConfigValue::Table(fields) => {
            proof {
                lemma_table_view(*fields);
            }
            match lookup(fields, "completely") {
                Some(ConfigValue::Boolean(completely)) => Some(
                    Trust::Workspace { completely: *completely },
                ),
                _ => None,
            }
        },
        _ => None,
    }
}

fn decode_file(body: &ConfigValue) -> (record: Option<Trust>)
    ensures
        record_of(record) == decoded_file(body@),
{
    match body {
        ConfigValue::Table(fields) => {
            proof {
                lemma_table_view(*fields);
            }
            match lookup(fields, "hash") {
                Some(ConfigValue::Array(items)) => {
                    proof {
                        lemma_array_view(*items);
                    }
                    match decode_bytes(items) {
                        Some(hash) => Some(Trust::File { hash }),
                        None => None,
                    }
                },
                _ => None,
            }
        },
        _ => None,
    }
}

/// Reads one record; `None` where the value stands for none.
pub fn decode_record(value: &ConfigValue) -> (record: Option<Trust>)
    ensures
        record_of(record) == decoded_record(value@),
{
    match value {
        ConfigValue::String(s) => {
            if *s == "Untrusted".to_owned() {
                Some(Trust::Untrusted)
            } else {
                None
            }
        },
        ConfigValue::Table(entries) => {
            proof {
                lemma_table_view(*entries);
            }
            if entries.len() != 1 {
                None
            } else if entries[0].0 == "Workspace".to_owned() {
                decode_workspace(&entries[0].1)
            } else if entries[0].0 == "File".to_owned() {
                decode_file(&entries[0].1)
            } else {
                None
            }
        },
        _ => None,
    }
}

/// Reads a store from its document; `None` where the document is not a store.
pub fn decode_store(document: &ConfigValue) -> (store: Option<TrustDb>)
    ensures
        match store {
            Some(db) => db.wf() && decoded_store(document@) == Some(db@),
            None => decoded_store(document@).is_none(),
        },
{
    let top = match document {
        ConfigValue::Table(top) => {
            proof {
                lemma_table_view(*top);
            }
            top
        },
        _ => {
            return None;
        },
    };
    let entries = match lookup(top, "trust") {
        None => {
            return Some(TrustDb::new());
        },
        Some(ConfigValue::Table(entries)) => {
            proof {
                lemma_table_view(*entries);
            }
            entries
        },
        Some(_) => {
            return None;
        },
    };
    let ghost all = entries_view(entries@);
    assert(decoded_store(document@) == decoded_records(all));
    let mut db = TrustDb::new();
    let mut i: usize = 0;
    while i < entries.len()
        invariant
            i <= entries@.len(),
            all == entries_view(entries@),
            decoded_store(document@) == decoded_records(all),
            db.wf(),
            decoded_records(all.take(i as int)) == Some(db@),
        decreases entries@.len() - i,
    {
        assert(all.take(i + 1).drop_last() =~= all.take(i as int));
        assert(all.take(i + 1).last() == all[i as int]);
        match decode_record(&entries[i].1) {
            Some(record) => {
                db.insert(entries[i].0.clone(), record);
            },
            None => {
                proof {
                    assert(all[i as int].1 == entries@[i as int].1@);
                    assert(decoded_records(all.take(i + 1)).is_none());
                    lemma_decoded_prefix(all, i + 1);
                }
                return None;
            },
        }
        i += 1;
    }
    assert(all.take(i as int) =~= all);
    Some(db)
}

/// The array of integers that stands for some bytes.
pub open spec fn encoded_bytes(hash: Seq<u8>) -> Seq<Doc> {
    Seq::new(hash.len(), |i: int| Doc::Integer(hash[i] as int))
}

/// The value that stands for a record.
pub open spec fn encoded_record(record: TrustRecord) -> Doc {
    match record {
        TrustRecord::Untrusted => Doc::String("Untrusted"@),
        TrustRecord::Workspace { completely } => Doc::Table(
            seq![
                ("Workspace"@, Doc::Table(seq![("completely"@, Doc::Boolean(completely))])),
            ],
        ),
        TrustRecord::File { hash } => Doc::Table(
            seq![("File"@, Doc::Table(seq![("hash"@, Doc::Array(encoded_bytes(hash)))]))],
        ),
    }
}

/// The entries of the `trust` table for a listing of records.
pub open spec fn encoded_entries(listing: Seq<(Seq<char>, TrustRecord)>) -> Seq<(Seq<char>, Doc)> {
    Seq::new(listing.len(), |i: int| (listing[i].0, encoded_record(listing[i].1)))
}

/// The document that stands for a listing of records.
pub open spec fn encoded_store(listing: Seq<(Seq<char>, TrustRecord)>) -> Doc {
    Doc::Table(seq![("trust"@, Doc::Table(encoded_entries(listing)))])
}

/// The records of a listing as a map, a later entry winning over an earlier
/// one for the same path.
pub open spec fn listed(listing: Seq<(Seq<char>, TrustRecord)>) -> Map<Seq<char>, TrustRecord>
    decreases listing.len(),
{
    if listing.len() == 0 {
        Map::empty()
    } else {
        listed(listing.drop_last()).insert(listing.last().0, listing.last().1)
    }
}

fn single(key: &str, value: ConfigValue) -> (table: ConfigValue)
    ensures
        table@ == Doc::Table(seq![(key@, value@)]),
{
    let mut entries: Vec<(String, ConfigValue)> = Vec::new();
    entries.push((key.to_owned(), value));
    proof {
        lemma_table_view(entries);
        assert(entries_view(entries@) =~= seq![(key@, value@)]);
    }
    ConfigValue::Table(entries)
}

/// Writes one record as a value.
pub fn encode_record(trust: &Trust) -> (value: ConfigValue)
    ensures
        value@ == encoded_record(trust@),
{
    match trust {
        Trust::Untrusted => ConfigValue::String("Untrusted".to_owned()),
        Trust::Workspace { completely } => single(
            "Workspace",
            single("completely", ConfigValue::Boolean(*completely)),
        ),
        Trust::File { hash } => {
            let mut items: Vec<ConfigValue> = Vec::new();
            let mut i: usize = 0;
            while i < hash.len()
                invariant
                    i <= hash@.len(),
                    items@.len() == i,
                    forall|k: int| 0 <= k < i ==> (#[trigger] items@[k])@ == Doc::Integer(hash@[k] as int),
                decreases hash@.len() - i,
            {
                items.push(ConfigValue::Integer(hash[i] as i64));
                i += 1;
            }
            proof {
                lemma_array_view(items);
                assert(items_view(items@) =~= encoded_bytes(hash@));
            }
            single("File", single("hash", ConfigValue::Array(items)))
        },
    }
}

/// Writes the whole store as a document.
pub fn encode_store(db: &TrustDb) -> (document: ConfigValue)
    ensures
        document@ == encoded_store(db.listing()),
{
    let mut entries: Vec<(String, ConfigValue)> = Vec::new();
    let mut i: usize = 0;
    while i < db.len()
        invariant
            i <= db.listing().len(),
            entries@.len() == i,
            forall|k: int|
                0 <= k < i ==> (#[trigger] entries_view(entries@)[k]) == (
                    db.listing()[k].0,
                    encoded_record(db.listing()[k].1),
                ),
        decreases db.listing().len() - i,
    {
        let ghost before = entries_view(entries@);
        let (path, trust) = db.entry(i);
        entries.push((path.clone(), encode_record(trust)));
        assert(entries_view(entries@) =~= before.push(
            (db.listing()[i as int].0, encoded_record(db.listing()[i as int].1)),
        ));
        i += 1;
    }
    proof {
        lemma_table_view(entries);
        assert(entries_view(entries@) =~= encoded_entries(db.listing()));
    }
    single("trust", ConfigValue::Table(entries))
}

/// A record that is written and read again is the same record.
pub proof fn law_record_round_trip(record: TrustRecord)
    ensures
        decoded_record(encoded_record(record)) == Some(record),
{
    reveal_strlit("Workspace");
    reveal_strlit("File");
    assert("File"@ != "Workspace"@) by {
        assert("File"@.len() != "Workspace"@.len());
    }
    match record {
        TrustRecord::Untrusted => {},
        TrustRecord::Workspace { completely } => {
            let fields = seq![("completely"@, Doc::Boolean(completely))];
            assert(fields[0].0 == "completely"@);
            lemma_index_found(fields, "completely"@, 0);
        },
        TrustRecord::File { hash } => {
            let fields = seq![("hash"@, Doc::Array(encoded_bytes(hash)))];
            assert(fields[0].0 == "hash"@);
            lemma_index_found(fields, "hash"@, 0);
            assert(decoded_bytes(encoded_bytes(hash)) == Some(hash)) by {
                assert(decoded_bytes(encoded_bytes(hash)).unwrap() =~= hash);
            }
        },
    }
}

/// A listing that is written and read again gives the map of its records.
pub proof fn lemma_entries_round_trip(listing: Seq<(Seq<char>, TrustRecord)>)
    ensures
        decoded_records(encoded_entries(listing)) == Some(listed(listing)),
    decreases listing.len(),
{
    if listing.len() > 0 {
        lemma_entries_round_trip(listing.drop_last());
        law_record_round_trip(listing.last().1);
        assert(encoded_entries(listing).drop_last() =~= encoded_entries(listing.drop_last()));
    }
}

proof fn lemma_listed(listing: Seq<(Seq<char>, TrustRecord)>)
    ensures
        forall|key: Seq<char>|
            listed(listing).contains_key(key) <==> exists|i: int|
                0 <= i < listing.len() && (#[trigger] listing[i]).0 == key,
        (forall|i: int, j: int|
            0 <= i < j < listing.len() ==> (#[trigger] listing[i]).0 != (#[trigger] listing[j]).0)
            ==> forall|i: int|
            0 <= i < listing.len() ==> listed(listing)[(#[trigger] listing[i]).0] == listing[i].1,
    decreases listing.len(),
{
    if listing.len() > 0 {
        let front = listing.drop_last();
        lemma_listed(front);
        assert(listed(listing) == listed(front).insert(listing.last().0, listing.last().1));
        assert forall|key: Seq<char>| listed(listing).contains_key(key) implies exists|i: int|
            0 <= i < listing.len() && (#[trigger] listing[i]).0 == key by {
            if key == listing.last().0 {
                assert(listing[listing.len() - 1].0 == key);
            } else {
                assert(listed(front).contains_key(key));
                let i = choose|i: int| 0 <= i < front.len() && (#[trigger] front[i]).0 == key;
                assert(listing[i].0 == key);
            }
        }
        assert forall|key: Seq<char>|
            (exists|i: int| 0 <= i < listing.len() && (#[trigger] listing[i]).0 == key)
            implies listed(listing).contains_key(key) by {
            let i = choose|i: int| 0 <= i < listing.len() && (#[trigger] listing[i]).0 == key;
            if i < front.len() {
                assert(front[i].0 == key);
            }
        }
        if forall|i: int, j: int|
            0 <= i < j < listing.len() ==> (#[trigger] listing[i]).0 != (#[trigger] listing[j]).0 {
            assert forall|i: int, j: int| 0 <= i < j < front.len() implies (#[trigger] front[i]).0
                != (#[trigger] front[j]).0 by {
                assert(front[i] == listing[i] && front[j] == listing[j]);
            }
            assert forall|i: int| 0 <= i < listing.len() implies listed(listing)[(
            #[trigger] listing[i]).0] == listing[i].1 by {
                if i < front.len() {
                    assert(front[i] == listing[i]);
                    assert(listing[i].0 != listing[listing.len() - 1].0);
                }
            }
        }
    }
}

/// A store that is written as a document and read again is the same store.
pub proof fn law_store_round_trip(db: TrustDb)
    requires
        db.wf(),
    ensures
        decoded_store(encoded_store(db.listing())) == Some(db@),
{
    let listing = db.listing();
    let top = seq![("trust"@, Doc::Table(encoded_entries(listing)))];
    assert(top[0].0 == "trust"@);
    lemma_index_found(top, "trust"@, 0);
    lemma_entries_round_trip(listing);
    lemma_listed(listing);
    db.lemma_listing();
    assert(listed(listing) =~= db@);
}

/// Why a store could not be loaded.
#[derive(Clone, Copy, Debug, PartialEq, Eq)]
pub enum LoadError {
    /// Reading the store file failed, and not because it is missing.
    ReadFailed,
    /// The store file holds something that is not a store. It is to be
    /// repaired or deleted by hand; going on with it is not safe.
    Corrupted,
}

/// The store that each outcome of reading the store file leads to.
pub open spec fn loaded_store(read: StoreReadView) -> Result<Map<Seq<char>, TrustRecord>, LoadError> {
    match read {
        StoreReadView::Missing => Ok(Map::empty()),
        StoreReadView::Failed => Err(LoadError::ReadFailed),
        StoreReadView::Text(text) => match toml_document(text) {
            Some(document) => match decoded_store(document) {
                Some(records) => Ok(records),
                None => Err(LoadError::Corrupted),
            },
            None => Err(LoadError::Corrupted),
        },
    }
}

/// Loads the store from what reading its file gave: a missing file is an
/// empty store, text is parsed and decoded, and text that is no store is
/// reported as corrupted.
pub fn load_store(read: StoreRead) -> (loaded: Result<TrustDb, LoadError>)
    ensures
        match loaded {
            Ok(db) => db.wf() && loaded_store(read@) == Ok::<_, LoadError>(db@),
            Err(e) => loaded_store(read@) == Err::<Map<Seq<char>, TrustRecord>, _>(e),
        },
{
    match after_read(read) {
        LoadStep::StartEmpty => Ok(TrustDb::new()),
        LoadStep::Fail => Err(LoadError::ReadFailed),
        LoadStep::Parse(text) => match parse_config(text.as_str()) {
            Some(document) => match decode_store(&document) {
                Some(db) => Ok(db),
                None => Err(LoadError::Corrupted),
            },
            None => Err(LoadError::Corrupted),
        },
    }
}

} // verus!
