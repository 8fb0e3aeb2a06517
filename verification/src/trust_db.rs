//! The trust store: one record per canonical path, queried by walking from a
//! path up through its ancestors.

use vstd::prelude::*;
use crate::fingerprint::{fingerprint, hash_file};
use crate::path::{ancestor_at, lemma_ancestor_ended, parent_of, path_parent};

verus! {

/// A trust decision attached to one canonical path.
#[derive(Clone, Debug, PartialEq, Eq)]
pub enum Trust {
    /// Tools may run for files under this directory; with `completely`, the
    /// directory's local configuration is approved as well.
    Workspace { completely: bool },
    /// One file is approved with exactly the content that has this fingerprint.
    File { hash: Vec<u8> },
    /// An explicit denial, which is not the same as having no record.
    Untrusted,
}

/// The mathematical value of a [`Trust`].
pub enum TrustRecord {
    Workspace { completely: bool },
    File { hash: Seq<u8> },
    Untrusted,
}

impl View for Trust {
    type V = TrustRecord;

    open spec fn view(&self) -> TrustRecord {
        match self {
            Trust::Workspace { completely } => TrustRecord::Workspace { completely: *completely },
            Trust::File { hash } => TrustRecord::File { hash: hash@ },
            Trust::Untrusted => TrustRecord::Untrusted,
        }
    }
}

/// The view of an optional record.
pub open spec fn record_of(trust: Option<Trust>) -> Option<TrustRecord> {
    match trust {
        Some(t) => Some(t@),
        None => None,
    }
}

/// No record lies on `path` or on any of its ancestors below level `levels`.
pub open spec fn unrecorded_below(
    records: Map<Seq<char>, TrustRecord>,
    path: Seq<char>,
    levels: nat,
) -> bool {
    forall|j: nat|
        j < levels ==> match #[trigger] ancestor_at(path, j) {
            Some(a) => !records.contains_key(a),
            None => true,
        }
}

/// The ancestor of `path` at level `levels` holds a record, and nothing nearer
/// to `path` does.
pub open spec fn nearest_at(
    records: Map<Seq<char>, TrustRecord>,
    path: Seq<char>,
    levels: nat,
) -> bool {
    &&& match ancestor_at(path, levels) {
        Some(a) => records.contains_key(a),
        None => false,
    }
    &&& unrecorded_below(records, path, levels)
}

/// The record on `path` itself or, failing that, on the nearest of its
/// ancestors that holds one.
pub open spec fn nearest_record(
    records: Map<Seq<char>, TrustRecord>,
    path: Seq<char>,
) -> Option<TrustRecord> {
    if exists|k: nat| nearest_at(records, path, k) {
        let k = choose|k: nat| nearest_at(records, path, k);
        Some(records[ancestor_at(path, k).unwrap()])
    } else {
        None
    }
}

/// Where the ancestor at some level holds the nearest record, that record is
/// the nearest record.
pub proof fn lemma_nearest_found(records: Map<Seq<char>, TrustRecord>, path: Seq<char>, levels: nat)
    requires
        nearest_at(records, path, levels),
    ensures
        nearest_record(records, path) == Some(records[ancestor_at(path, levels).unwrap()]),
{
    let k = choose|k: nat| nearest_at(records, path, k);
    assert(nearest_at(records, path, k));
    if k < levels {
        assert(ancestor_at(path, k) is Some);
    } else if levels < k {
        assert(ancestor_at(path, levels) is Some);
    }
}

/// Where the chain of parents ends without meeting a record, there is no
/// nearest record.
pub proof fn lemma_nearest_none(records: Map<Seq<char>, TrustRecord>, path: Seq<char>, end: nat)
    requires
        unrecorded_below(records, path, end),
        ancestor_at(path, end).is_none(),
    ensures
        nearest_record(records, path).is_none(),
{
    assert forall|k: nat| !nearest_at(records, path, k) by {
        if k >= end {
            lemma_ancestor_ended(path, end, k);
        } else {
            assert(ancestor_at(path, k) is Some || ancestor_at(path, k) is None);
        }
    }
}

/// The workspace decision for `path`: granted or denied by the nearest record,
/// `None` where no record applies.
pub open spec fn workspace_decision(
    records: Map<Seq<char>, TrustRecord>,
    path: Seq<char>,
) -> Option<bool> {
    match nearest_record(records, path) {
        Some(record) => Some(record is Workspace),
        None => None,
    }
}

/// Whether the nearest record on the directories above `path` is a complete
/// workspace grant.
pub open spec fn in_completely_trusted(
    records: Map<Seq<char>, TrustRecord>,
    path: Seq<char>,
) -> bool {
    match path_parent(path) {
        Some(parent) => nearest_record(records, parent) == Some(
            TrustRecord::Workspace { completely: true },
        ),
        None => false,
    }
}

/// Whether `path` holds a file grant with exactly this fingerprint.
pub open spec fn file_granted(
    records: Map<Seq<char>, TrustRecord>,
    path: Seq<char>,
    hash: Seq<u8>,
) -> bool {
    records.contains_key(path) && records[path] == (TrustRecord::File { hash })
}

/// Whether a file at `path` with fingerprint `hash` is trusted: by its own
/// grant, or by a complete grant on the workspace around it.
pub open spec fn file_trusted(
    records: Map<Seq<char>, TrustRecord>,
    path: Seq<char>,
    hash: Seq<u8>,
) -> bool {
    file_granted(records, path, hash) || in_completely_trusted(records, path)
}

spec fn key_at(entries: Seq<(String, Trust)>, i: int, key: Seq<char>) -> bool {
    0 <= i < entries.len() && entries[i].0@ == key
}

spec fn keys_distinct(entries: Seq<(String, Trust)>) -> bool {
    forall|i: int, j: int|
        0 <= i < j < entries.len() ==> (#[trigger] entries[i]).0@ != (#[trigger] entries[j]).0@
}

spec fn entries_map(entries: Seq<(String, Trust)>) -> Map<Seq<char>, TrustRecord> {
    Map::new(
        |key: Seq<char>| exists|i: int| key_at(entries, i, key),
        |key: Seq<char>| entries[choose|i: int| key_at(entries, i, key)].1@,
    )
}

proof fn lemma_entry(entries: Seq<(String, Trust)>, i: int)
    requires
        keys_distinct(entries),
        0 <= i < entries.len(),
    ensures
        entries_map(entries).contains_key(entries[i].0@),
        entries_map(entries)[entries[i].0@] == entries[i].1@,
{
    let key = entries[i].0@;
    assert(key_at(entries, i, key));
    let j = choose|j: int| key_at(entries, j, key);
    assert(key_at(entries, j, key));
    assert(j == i);
}

proof fn lemma_push(entries: Seq<(String, Trust)>, key: String, value: Trust)
    requires
        keys_distinct(entries),
        !entries_map(entries).contains_key(key@),
    ensures
        keys_distinct(entries.push((key, value))),
        entries_map(entries.push((key, value))) == entries_map(entries).insert(key@, value@),
{
    let grown = entries.push((key, value));
    assert forall|i: int| 0 <= i < entries.len() implies (#[trigger] entries[i]).0@ != key@ by {
        assert(key_at(entries, i, entries[i].0@));
    }
    assert(keys_distinct(grown));
    let left = entries_map(grown);
    let right = entries_map(entries).insert(key@, value@);
    assert forall|q: Seq<char>| left.contains_key(q) <==> right.contains_key(q) by {
        if left.contains_key(q) {
            let j = choose|j: int| key_at(grown, j, q);
            if j < entries.len() {
                assert(key_at(entries, j, q));
            }
        }
        if entries_map(entries).contains_key(q) {
            let j = choose|j: int| key_at(entries, j, q);
            assert(key_at(grown, j, q));
        }
        if q == key@ {
            assert(key_at(grown, entries.len() as int, q));
        }
    }
    assert forall|q: Seq<char>| left.contains_key(q) implies left[q] == right[q] by {
        let j = choose|j: int| key_at(grown, j, q);
        lemma_entry(grown, j);
        if j < entries.len() {
            lemma_entry(entries, j);
        }
    }
    assert(left =~= right);
}

proof fn lemma_remove(entries: Seq<(String, Trust)>, at: int)
    requires
        keys_distinct(entries),
        0 <= at < entries.len(),
    ensures
        keys_distinct(entries.remove(at)),
        entries_map(entries.remove(at)) == entries_map(entries).remove(entries[at].0@),
{
    let rest = entries.remove(at);
    assert forall|i: int| 0 <= i < rest.len() implies #[trigger] rest[i] == entries[if i < at {
        i
    } else {
        i + 1
    }] by {}
    assert(keys_distinct(rest));
    let left = entries_map(rest);
    let right = entries_map(entries).remove(entries[at].0@);
    assert forall|q: Seq<char>| left.contains_key(q) <==> right.contains_key(q) by {
        if left.contains_key(q) {
            let j = choose|j: int| key_at(rest, j, q);
            let orig = if j < at { j } else { j + 1 };
            assert(rest[j] == entries[orig]);
            assert(key_at(entries, orig, q));
        }
        if right.contains_key(q) {
            let j = choose|j: int| key_at(entries, j, q);
            let moved = if j < at { j } else { j - 1 };
            assert(rest[moved] == entries[j]);
            assert(key_at(rest, moved, q));
        }
    }
    assert forall|q: Seq<char>| left.contains_key(q) implies left[q] == right[q] by {
        let j = choose|j: int| key_at(rest, j, q);
        let orig = if j < at { j } else { j + 1 };
        assert(rest[j] == entries[orig]);
        lemma_entry(rest, j);
        lemma_entry(entries, orig);
    }
    assert(left =~= right);
}

/// Whether two byte strings are equal.
fn bytes_eq(a: &[u8], b: &[u8]) -> (equal: bool)
    ensures
        equal == (a@ == b@),
{
    if a.len() != b.len() {
        return false;
    }
    let mut i: usize = 0;
    while i < a.len()
        invariant
            a.len() == b.len(),
            i <= a.len(),
            forall|k: int| 0 <= k < i ==> a@[k] == b@[k],
        decreases a.len() - i,
    {
        if a[i] != b[i] {
            return false;
        }
        i += 1;
    }
    assert(a@ =~= b@);
    true
}

/// The trust store in memory: at most one record for each canonical path.
pub struct TrustDb {
    entries: Vec<(String, Trust)>,
}

impl View for TrustDb {
    type V = Map<Seq<char>, TrustRecord>;

    closed spec fn view(&self) -> Map<Seq<char>, TrustRecord> {
        entries_map(self.entries@)
    }
}

impl TrustDb {
    /// No path holds two records.
    pub closed spec fn wf(&self) -> bool {
        keys_distinct(self.entries@)
    }

    /// The paths and records in the order in which the store holds them.
    pub closed spec fn listing(&self) -> Seq<(Seq<char>, TrustRecord)> {
        Seq::new(self.entries@.len(), |i: int| (self.entries@[i].0@, self.entries@[i].1@))
    }

    /// A store without records: no path holds one, and its listing is empty.
    pub fn new() -> (db: TrustDb)
        ensures
            db.wf(),
            db@ == Map::<Seq<char>, TrustRecord>::empty(),
            db.listing() == Seq::<(Seq<char>, TrustRecord)>::empty(),
    {
        let db = TrustDb { entries: Vec::new() };
        assert(db@ =~= Map::<Seq<char>, TrustRecord>::empty());
        assert(db.listing() =~= Seq::<(Seq<char>, TrustRecord)>::empty());
        db
    }

    fn position(&self, key: &String) -> (at: Option<usize>)
        requires
            self.wf(),
        ensures
            match at {
                Some(i) => i < self.entries@.len() && self.entries@[i as int].0@ == key@
                    && self@.contains_key(key@) && self@[key@] == self.entries@[i as int].1@,
                None => !self@.contains_key(key@),
            },
    {
        let mut i: usize = 0;
        while i < self.entries.len()
            invariant
                self.wf(),
                i <= self.entries@.len(),
                forall|k: int| 0 <= k < i ==> !key_at(self.entries@, k, key@),
            decreases self.entries@.len() - i,
        {
            if self.entries[i].0 == *key {
                proof {
                    lemma_entry(self.entries@, i as int);
                }
                return Some(i);
            }
            i += 1;
        }
        None
    }

    /// The record stored at exactly `key`.
    pub fn get(&self, key: &String) -> (found: Option<&Trust>)
        requires
            self.wf(),
        ensures
            match found {
                Some(t) => self@.contains_key(key@) && self@[key@] == t@,
                None => !self@.contains_key(key@),
            },
    {
        match self.position(key) {
            Some(i) => Some(&self.entries[i].1),
            None => None,
        }
    }

    /// Removes the record at `key` and returns it.
    pub fn remove(&mut self, key: &String) -> (previous: Option<Trust>)
        requires
            old(self).wf(),
        ensures
            final(self).wf(),
            final(self)@ == old(self)@.remove(key@),
            record_of(previous) == (if old(self)@.contains_key(key@) {
                Some(old(self)@[key@])
            } else {
                None
            }),
    {
        match self.position(key) {
            Some(i) => {
                proof {
                    lemma_remove(self.entries@, i as int);
                }
                let entry = self.entries.remove(i);
                Some(entry.1)
            },
            None => {
                assert(self@ =~= self@.remove(key@));
                None
            },
        }
    }

    /// Stores `value` at `key`, in place of any record that was there, and
    /// returns the record it replaced.
    pub fn insert(&mut self, key: String, value: Trust) -> (previous: Option<Trust>)
        requires
            old(self).wf(),
        ensures
            final(self).wf(),
            final(self)@ == old(self)@.insert(key@, value@),
            record_of(previous) == (if old(self)@.contains_key(key@) {
                Some(old(self)@[key@])
            } else {
                None
            }),
    {
        let previous = self.remove(&key);
        proof {
            lemma_push(self.entries@, key, value);
            assert(old(self)@.remove(key@).insert(key@, value@) =~= old(self)@.insert(
                key@,
                value@,
            ));
        }
        self.entries.push((key, value));
        previous
    }

    /// The store holds exactly what its listing shows, each path once.
    pub proof fn lemma_listing(&self)
        requires
            self.wf(),
        ensures
            forall|i: int, j: int|
                0 <= i < j < self.listing().len() ==> (#[trigger] self.listing()[i]).0 != (
                #[trigger] self.listing()[j]).0,
            forall|i: int|
                0 <= i < self.listing().len() ==> self@.contains_key(
                    (#[trigger] self.listing()[i]).0,
                ) && self@[self.listing()[i].0] == self.listing()[i].1,
            forall|key: Seq<char>|
                self@.contains_key(key) ==> exists|i: int|
                    0 <= i < self.listing().len() && (#[trigger] self.listing()[i]).0 == key,
    {
        assert forall|i: int| 0 <= i < self.listing().len() implies self@.contains_key(
            (#[trigger] self.listing()[i]).0,
        ) && self@[self.listing()[i].0] == self.listing()[i].1 by {
            lemma_entry(self.entries@, i);
        }
        assert forall|key: Seq<char>| self@.contains_key(key) implies exists|i: int|
            0 <= i < self.listing().len() && (#[trigger] self.listing()[i]).0 == key by {
            let i = choose|i: int| key_at(self.entries@, i, key);
            assert(self.listing()[i].0 == key);
        }
    }

    /// The number of records.
    pub fn len(&self) -> (n: usize)
        ensures
            n == self.listing().len(),
    {
        self.entries.len()
    }

    /// The path and the record at position `i` of the listing.
    pub fn entry(&self, i: usize) -> (entry: (&String, &Trust))
        requires
            i < self.listing().len(),
        ensures
            (entry.0@, entry.1@) == self.listing()[i as int],
    {
        (&self.entries[i].0, &self.entries[i].1)
    }

    /// The record on `path` or on the nearest ancestor that holds one.
    pub fn nearest(&self, path: &String) -> (found: Option<&Trust>)
        requires
            self.wf(),
        ensures
            match found {
                Some(t) => nearest_record(self@, path@) == Some(t@),
                None => nearest_record(self@, path@).is_none(),
            },
    {
        match self.get(path) {
            Some(t) => {
                proof {
                    lemma_nearest_found(self@, path@, 0);
                }
                return Some(t);
            },
            None => {},
        }
        let mut current: String = path.clone();
        let ghost mut level: nat = 0;
        loop
            invariant
                self.wf(),
                ancestor_at(path@, level) == Some(current@),
                unrecorded_below(self@, path@, level + 1),
            decreases current@.len(),
        {
            match parent_of(&current) {
                None => {
                    proof {
                        lemma_nearest_none(self@, path@, level + 1);
                    }
                    return None;
                },
                Some(parent) => {
                    assert(ancestor_at(path@, level + 1) == Some(parent@));
                    match self.get(&parent) {
                        Some(t) => {
                            proof {
                                lemma_nearest_found(self@, path@, level + 1);
                            }
                            return Some(t);
                        },
                        None => {
                            current = parent;
                            proof {
                                level = level + 1;
                            }
                        },
                    }
                },
            }
        }
    }

    /// The workspace decision for `path`; `None` where no record applies.
    pub fn is_workspace_trusted(&self, path: &String) -> (decision: Option<bool>)
        requires
            self.wf(),
        ensures
            decision == workspace_decision(self@, path@),
    {
        match self.nearest(path) {
            Some(Trust::Workspace { .. }) => Some(true),
            Some(_) => Some(false),
            None => None,
        }
    }

    /// Whether the workspace around the file at `path` is completely trusted.
    pub fn is_file_in_completely_trusted(&self, path: &String) -> (trusted: bool)
        requires
            self.wf(),
        ensures
            trusted == in_completely_trusted(self@, path@),
    {
        match parent_of(path) {
            Some(parent) => match self.nearest(&parent) {
                Some(Trust::Workspace { completely }) => *completely,
                _ => false,
            },
            None => false,
        }
    }

    /// Whether the file at `path` with fingerprint `file_hash` is trusted.
    pub fn is_file_trusted(&self, path: &String, file_hash: &[u8]) -> (trusted: bool)
        requires
            self.wf(),
        ensures
            trusted == file_trusted(self@, path@, file_hash@),
    {
        let granted = match self.get(path) {
            Some(Trust::File { hash }) => bytes_eq(hash.as_slice(), file_hash),
            _ => false,
        };
        granted || self.is_file_in_completely_trusted(path)
    }
}

/// The record stored at exactly `path`, if any.
pub open spec fn record_at(records: Map<Seq<char>, TrustRecord>, path: Seq<char>) -> Option<
    TrustRecord,
> {
    if records.contains_key(path) {
        Some(records[path])
    } else {
        None
    }
}

/// The store after a workspace grant at `path`.
pub open spec fn with_workspace(
    records: Map<Seq<char>, TrustRecord>,
    path: Seq<char>,
    completely: bool,
) -> Map<Seq<char>, TrustRecord> {
    records.insert(path, TrustRecord::Workspace { completely })
}

/// The store after an explicit denial at `path`.
pub open spec fn with_denial(records: Map<Seq<char>, TrustRecord>, path: Seq<char>) -> Map<
    Seq<char>,
    TrustRecord,
> {
    records.insert(path, TrustRecord::Untrusted)
}

/// The store after a grant for the file at `path` with content `contents`.
pub open spec fn with_file(
    records: Map<Seq<char>, TrustRecord>,
    path: Seq<char>,
    contents: Seq<u8>,
) -> Map<Seq<char>, TrustRecord> {
    records.insert(path, TrustRecord::File { hash: fingerprint(path, contents) })
}

/// The store after the file grant at `path`, if there is one, is withdrawn.
/// Records of other kinds stay.
pub open spec fn without_file(records: Map<Seq<char>, TrustRecord>, path: Seq<char>) -> Map<
    Seq<char>,
    TrustRecord,
> {
    if records.contains_key(path) && records[path] is File {
        records.remove(path)
    } else {
        records
    }
}

/// Grants workspace trust at `path`, over any record that was there, and
/// returns the record it replaced. A path that could not be resolved (`None`)
/// changes nothing.
pub fn trust_workspace(db: &mut TrustDb, path: Option<&str>, completely: bool) -> (previous:
    Option<Trust>)
    requires
        old(db).wf(),
    ensures
        final(db).wf(),
        match path {
            Some(p) => final(db)@ == with_workspace(old(db)@, p@, completely) && record_of(
                previous,
            ) == record_at(old(db)@, p@),
            None => final(db)@ == old(db)@ && previous.is_none(),
        },
{
    match path {
        Some(p) => db.insert(p.to_owned(), Trust::Workspace { completely }),
        None => None,
    }
}

/// Records an explicit denial at `path`, over any record that was there, and
/// returns the record it replaced. A path that could not be resolved (`None`)
/// changes nothing.
pub fn untrust_workspace(db: &mut TrustDb, path: Option<&str>) -> (previous: Option<Trust>)
    requires
        old(db).wf(),
    ensures
        final(db).wf(),
        match path {
            Some(p) => final(db)@ == with_denial(old(db)@, p@) && record_of(previous)
                == record_at(old(db)@, p@),
            None => final(db)@ == old(db)@ && previous.is_none(),
        },
{
    match path {
        Some(p) => db.insert(p.to_owned(), Trust::Untrusted),
        None => None,
    }
}

/// The workspace decision for `path`: `Some(true)` where the nearest record is
/// a grant, `Some(false)` where it is anything else, `None` where no record
/// applies. A path that could not be resolved counts as denied.
pub fn is_workspace_trusted(db: &TrustDb, path: Option<&str>) -> (decision: Option<bool>)
    requires
        db.wf(),
    ensures
        decision == match path {
            Some(p) => workspace_decision(db@, p@),
            None => Some(false),
        },
{
    match path {
        Some(p) => db.is_workspace_trusted(&p.to_owned()),
        None => Some(false),
    }
}

/// Grants trust to the file at `path` with exactly the content `contents`, and
/// says whether the path held no record before. A path that could not be
/// resolved changes nothing and gives `false`.
pub fn trust_file(db: &mut TrustDb, path: Option<&str>, contents: &[u8]) -> (newly: bool)
    requires
        old(db).wf(),
    ensures
        final(db).wf(),
        match path {
            Some(p) => final(db)@ == with_file(old(db)@, p@, contents@) && newly
                == !old(db)@.contains_key(p@),
            None => final(db)@ == old(db)@ && !newly,
        },
{
    match path {
        Some(p) => {
            let hash = hash_file(p, contents);
            let previous = db.insert(p.to_owned(), Trust::File { hash });
            previous.is_none()
        },
        None => false,
    }
}

/// Withdraws the file grant at `path` and says whether there was one. Records
/// of other kinds are left alone, as is everything when the path could not be
/// resolved.
pub fn untrust_file(db: &mut TrustDb, path: Option<&str>) -> (existed: bool)
    requires
        old(db).wf(),
    ensures
        final(db).wf(),
        match path {
            Some(p) => final(db)@ == without_file(old(db)@, p@) && existed == (old(
                db,
            )@.contains_key(p@) && old(db)@[p@] is File),
            None => final(db)@ == old(db)@ && !existed,
        },
{
    match path {
        Some(p) => {
            let key = p.to_owned();
            let is_file = match db.get(&key) {
                Some(Trust::File { .. }) => true,
                _ => false,
            };
            if is_file {
                let _ = db.remove(&key);
            }
            is_file
        },
        None => false,
    }
}

/// Whether the file at `path` with content `contents` is trusted: its own
/// grant carries the fingerprint of this path and content, or the workspace
/// around it is completely trusted. A path that could not be resolved is not
/// trusted.
pub fn is_file_trusted(db: &TrustDb, path: Option<&str>, contents: &[u8]) -> (trusted: bool)
    requires
        db.wf(),
    ensures
        trusted == match path {
            Some(p) => file_trusted(db@, p@, fingerprint(p@, contents@)),
            None => false,
        },
{
    match path {
        Some(p) => {
            let hash = hash_file(p, contents);
            db.is_file_trusted(&p.to_owned(), hash.as_slice())
        },
        None => false,
    }
}

} // verus!
