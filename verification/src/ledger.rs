//! The file-ownership ledger: which installed package owns which path below
//! the install root. A path has at most one owner.
//!
//! The ledger lives in memory between opening and closing its backing store.
//! Holding the store's lock and moving the bytes is the caller's part; turning
//! bytes into a table and back is done here.

use vstd::prelude::*;

verus! {

/// Why a ledger operation was refused.
#[derive(Debug, Clone, Copy, PartialEq, Eq)]
pub enum LedgerError {
    /// The path already has an owner.
    AlreadyOwned,
    /// The path has no recorded owner.
    NotOwned,
    /// The stored bytes are not a table, or name a path twice.
    Corrupt,
    /// The table could not be turned into bytes.
    Unencodable,
}

/// No path occurs in two records.
pub open spec fn distinct_paths(entries: Seq<(Seq<char>, Seq<char>)>) -> bool {
    forall|i: int, j: int| 0 <= i < j < entries.len() ==> entries[i].0 != entries[j].0
}

/// Some record is about `path`.
pub open spec fn owns(entries: Seq<(Seq<char>, Seq<char>)>, path: Seq<char>) -> bool {
    exists|i: int| 0 <= i < entries.len() && (#[trigger] entries[i]).0 == path
}

/// The place of the record about `path`, where there is one.
pub open spec fn index_of(entries: Seq<(Seq<char>, Seq<char>)>, path: Seq<char>) -> int {
    choose|i: int| 0 <= i < entries.len() && (#[trigger] entries[i]).0 == path
}

/// The records as a map from path to owner.
pub open spec fn table(entries: Seq<(Seq<char>, Seq<char>)>) -> Map<Seq<char>, Seq<char>> {
    Map::new(|path: Seq<char>| owns(entries, path), |path: Seq<char>| entries[index_of(entries, path)].1)
}

/// The records without the one about `path`; the others keep their order.
pub open spec fn without(entries: Seq<(Seq<char>, Seq<char>)>, path: Seq<char>) -> Seq<
    (Seq<char>, Seq<char>),
> {
    entries.remove(index_of(entries, path))
}

/// A record is found under its path.
pub proof fn lemma_table_lookup(entries: Seq<(Seq<char>, Seq<char>)>, i: int)
    requires
        distinct_paths(entries),
        0 <= i < entries.len(),
    ensures
        index_of(entries, entries[i].0) == i,
        table(entries).contains_key(entries[i].0),
        table(entries)[entries[i].0] == entries[i].1,
{
    let path = entries[i].0;
    let c = index_of(entries, path);
    assert(c == i) by {
        if c < i {
            assert(entries[c].0 != entries[i].0);
        } else if i < c {
            assert(entries[i].0 != entries[c].0);
        }
    }
}

/// Appending a record for an unowned path adds that path to the table and
/// changes nothing else.
pub proof fn lemma_table_push(
    entries: Seq<(Seq<char>, Seq<char>)>,
    path: Seq<char>,
    owner: Seq<char>,
)
    requires
        distinct_paths(entries),
        !owns(entries, path),
    ensures
        distinct_paths(entries.push((path, owner))),
        table(entries.push((path, owner))) == table(entries).insert(path, owner),
{
    let longer = entries.push((path, owner));
    assert(distinct_paths(longer)) by {
        assert forall|i: int, j: int| 0 <= i < j < longer.len() implies longer[i].0
            != longer[j].0 by {
            if j == entries.len() {
                assert(entries[i].0 != path);
            } else {
                assert(entries[i].0 != entries[j].0);
            }
        }
    }
    assert forall|p: Seq<char>| #[trigger]
        table(longer).contains_key(p) <==> table(entries).insert(path, owner).contains_key(
            p,
        ) by {
        if owns(longer, p) {
            let k = choose|k: int| 0 <= k < longer.len() && (#[trigger] longer[k]).0 == p;
            if k < entries.len() {
                assert(entries[k].0 == p);
            }
        }
        if owns(entries, p) {
            let k = choose|k: int| 0 <= k < entries.len() && (#[trigger] entries[k]).0 == p;
            assert(longer[k].0 == p);
        }
        if p == path {
            assert(longer[entries.len() as int].0 == p);
        }
    }
    assert forall|p: Seq<char>| table(longer).contains_key(p) implies #[trigger] table(longer)[p]
        == table(entries).insert(path, owner)[p] by {
        let k = choose|k: int| 0 <= k < longer.len() && (#[trigger] longer[k]).0 == p;
        lemma_table_lookup(longer, k);
        if k < entries.len() {
            assert(entries[k].0 == p);
            lemma_table_lookup(entries, k);
        }
    }
    assert(table(longer) =~= table(entries).insert(path, owner));
}

/// Taking a record out removes its path from the table and changes nothing
/// else.
pub proof fn lemma_table_remove(entries: Seq<(Seq<char>, Seq<char>)>, i: int)
    requires
        distinct_paths(entries),
        0 <= i < entries.len(),
    ensures
        distinct_paths(entries.remove(i)),
        !owns(entries.remove(i), entries[i].0),
        table(entries.remove(i)) == table(entries).remove(entries[i].0),
{
    let shorter = entries.remove(i);
    let path = entries[i].0;
    assert forall|k: int| 0 <= k < shorter.len() implies #[trigger] shorter[k] == entries[if k
        < i {
        k
    } else {
        k + 1
    }] by {}
    assert(distinct_paths(shorter)) by {
        assert forall|a: int, b: int| 0 <= a < b < shorter.len() implies shorter[a].0
            != shorter[b].0 by {
            let a2 = if a < i { a } else { a + 1 };
            let b2 = if b < i { b } else { b + 1 };
            assert(entries[a2].0 != entries[b2].0);
        }
    }
    assert(!owns(shorter, path)) by {
        if owns(shorter, path) {
            let k = choose|k: int| 0 <= k < shorter.len() && (#[trigger] shorter[k]).0 == path;
            let k2 = if k < i { k } else { k + 1 };
            if k2 < i {
                assert(entries[k2].0 != entries[i].0);
            } else {
                assert(entries[i].0 != entries[k2].0);
            }
        }
    }
    assert forall|p: Seq<char>| #[trigger]
        table(shorter).contains_key(p) <==> table(entries).remove(path).contains_key(p) by {
        if owns(shorter, p) {
            let k = choose|k: int| 0 <= k < shorter.len() && (#[trigger] shorter[k]).0 == p;
            let k2 = if k < i { k } else { k + 1 };
            assert(entries[k2].0 == p);
        }
        if owns(entries, p) && p != path {
            let k = choose|k: int| 0 <= k < entries.len() && (#[trigger] entries[k]).0 == p;
            let k2 = if k < i { k } else { k - 1 };
            assert(shorter[k2].0 == p);
        }
    }
    assert forall|p: Seq<char>| table(shorter).contains_key(p) implies #[trigger] table(
        shorter,
    )[p] == table(entries).remove(path)[p] by {
        let k = choose|k: int| 0 <= k < shorter.len() && (#[trigger] shorter[k]).0 == p;
        let k2 = if k < i { k } else { k + 1 };
        lemma_table_lookup(shorter, k);
        lemma_table_lookup(entries, k2);
    }
    assert(table(shorter) =~= table(entries).remove(path));
}

/// The paths of the records of one owner, in the order of the records.
pub open spec fn owned_by(entries: Seq<(Seq<char>, Seq<char>)>, owner: Seq<char>) -> Seq<Seq<char>>
    decreases entries.len(),
{
    if entries.len() == 0 {
        Seq::empty()
    } else if entries.last().1 == owner {
        owned_by(entries.drop_last(), owner).push(entries.last().0)
    } else {
        owned_by(entries.drop_last(), owner)
    }
}

/// The paths listed for an owner are the paths that the table gives to it.
pub proof fn lemma_owned_by(entries: Seq<(Seq<char>, Seq<char>)>, owner: Seq<char>, path: Seq<char>)
    requires
        distinct_paths(entries),
    ensures
        owned_by(entries, owner).contains(path) <==> (table(entries).contains_key(path) && table(
            entries,
        )[path] == owner),
    decreases entries.len(),
{
    if entries.len() > 0 {
        let shorter = entries.drop_last();
        let last = entries.len() - 1;
        let listed = owned_by(entries, owner);
        let before = owned_by(shorter, owner);
        assert(distinct_paths(shorter)) by {
            assert forall|i: int, j: int| 0 <= i < j < shorter.len() implies shorter[i].0
                != shorter[j].0 by {
                assert(entries[i].0 != entries[j].0);
            }
        }
        lemma_owned_by(shorter, owner, path);
        assert(entries =~= shorter.push(entries[last]));
        if owns(shorter, path) {
            let k = index_of(shorter, path);
            assert(entries[k].0 == path);
            assert(entries[last].0 != path);
            lemma_table_lookup(shorter, k);
            lemma_table_lookup(entries, k);
        }
        if owns(entries, path) {
            let k = index_of(entries, path);
            lemma_table_lookup(entries, k);
            if k < last {
                assert(shorter[k].0 == path);
            }
        }
        if before.contains(path) {
            let k = choose|k: int| 0 <= k < before.len() && before[k] == path;
            assert(listed[k] == path);
        }
        if listed.contains(path) {
            let k = choose|k: int| 0 <= k < listed.len() && listed[k] == path;
            if k < before.len() {
                assert(before[k] == path);
            }
        }
        if entries[last].1 == owner && entries[last].0 == path {
            assert(listed[before.len() as int] == path);
            lemma_table_lookup(entries, last);
        }
    } else {
        assert(!owns(entries, path));
    }
}

/// The bytes that bincode writes for a list of pairs of strings, where it
/// writes any.
pub uninterp spec fn bincode_encoding(records: Seq<(Seq<char>, Seq<char>)>) -> Option<Seq<u8>>;

/// The list of pairs of strings that bincode reads from bytes, where it reads
/// one.
pub uninterp spec fn bincode_decoding(bytes: Seq<u8>) -> Option<Seq<(Seq<char>, Seq<char>)>>;

/// `bincode::serialize` on a list of pairs of strings.
///
/// Taken on trust: the result depends on the list alone, and what was written
/// is read back by `bincode::deserialize` as the same list. (The writer puts
/// each length in front of its items and the reader follows the same layout.)
/// Nothing is claimed about when bytes are produced.
#[verifier::external_body]
fn encode_records(records: &Vec<(String, String)>) -> (out: Option<Vec<u8>>)
    ensures
        match out {
            Some(bytes) => bincode_encoding(records.deep_view()) == Some(bytes@)
                && bincode_decoding(bytes@) == Some(records.deep_view()),
            None => bincode_encoding(records.deep_view()) is None,
        },
{
    bincode::serialize(records).ok()
}

/// `bincode::deserialize` into a list of pairs of strings.
///
/// Taken on trust: the result depends on the bytes alone. Bytes that are not
/// such a list give `None`.
#[verifier::external_body]
fn decode_records(bytes: &[u8]) -> (out: Option<Vec<(String, String)>>)
    ensures
        out.deep_view() == bincode_decoding(bytes@),
{
    bincode::deserialize(bytes).ok()
}

/// The table that stored bytes stand for, if they stand for one: they must
/// decode, and no path may occur twice.
pub open spec fn stored_table(bytes: Seq<u8>) -> Option<Seq<(Seq<char>, Seq<char>)>> {
    match bincode_decoding(bytes) {
        Some(entries) => if distinct_paths(entries) {
            Some(entries)
        } else {
            None
        },
        None => None,
    }
}

/// The persistent path-to-owner table.
#[derive(Debug)]
pub struct Ledger {
    records: Vec<(String, String)>,
}

impl View for Ledger {
    type V = Map<Seq<char>, Seq<char>>;

    open spec fn view(&self) -> Map<Seq<char>, Seq<char>> {
        table(self.entries())
    }
}

impl Ledger {
    /// The records in the order in which they are stored: path, then owner.
    pub closed spec fn entries(&self) -> Seq<(Seq<char>, Seq<char>)> {
        self.records.deep_view()
    }

    /// The uniqueness invariant: a path maps to at most one owner.
    pub open spec fn wf(&self) -> bool {
        distinct_paths(self.entries())
    }

    /// The empty table, as for a store that does not exist yet.
    pub fn new() -> (ledger: Ledger)
        ensures
            ledger.wf(),
            ledger.entries() == Seq::<(Seq<char>, Seq<char>)>::empty(),
            ledger@ == Map::<Seq<char>, Seq<char>>::empty(),
    {
        let ledger = Ledger { records: Vec::new() };
        assert(ledger.entries() =~= Seq::empty());
        assert(ledger@ =~= Map::empty());
        ledger
    }

    /// The number of owned paths.
    pub fn len(&self) -> (n: usize)
        ensures
            n == self.entries().len(),
    {
        self.records.len()
    }

    /// The place of the record about `path`, if there is one.
    fn position(&self, path: &String) -> (found: Option<usize>)
        ensures
            match found {
                Some(i) => i < self.entries().len() && self.entries()[i as int].0 == path@,
                None => !owns(self.entries(), path@),
            },
    {
        let mut i: usize = 0;
        while i < self.records.len()
            invariant
                i <= self.records.len(),
                forall|j: int| 0 <= j < i ==> (#[trigger] self.entries()[j]).0 != path@,
            decreases self.records.len() - i,
        {
            if self.records[i].0 == *path {
                return Some(i);
            }
            i += 1;
        }
        None
    }

    /// The owner of `path`, if it has one.
    pub fn lookup_owner(&self, path: &str) -> (owner: Option<String>)
        requires
            self.wf(),
        ensures
            match owner {
                Some(id) => self@.contains_key(path@) && id@ == self@[path@],
                None => !self@.contains_key(path@),
            },
    {
        let key = path.to_string();
        match self.position(&key) {
            Some(i) => {
                proof {
                    lemma_table_lookup(self.entries(), i as int);
                }
                Some(self.records[i].1.clone())
            },
            None => None,
        }
    }

    /// The paths that `owner` owns, in the order in which they were recorded.
    pub fn paths_of(&self, owner: &str) -> (paths: Vec<String>)
        ensures
            paths.deep_view() == owned_by(self.entries(), owner@),
    {
        let key = owner.to_string();
        let mut paths: Vec<String> = Vec::new();
        let mut i: usize = 0;
        assert(self.entries().take(0) =~= Seq::empty());
        while i < self.records.len()
            invariant
                i <= self.records.len(),
                key@ == owner@,
                paths.deep_view() == owned_by(self.entries().take(i as int), owner@),
            decreases self.records.len() - i,
        {
            let ghost before = paths.deep_view();
            assert(self.entries().take(i + 1).drop_last() =~= self.entries().take(i as int));
            assert(self.entries().take(i + 1).last() == self.entries()[i as int]);
            if self.records[i].1 == key {
                paths.push(self.records[i].0.clone());
                assert(paths.deep_view() =~= before.push(self.entries()[i as int].0));
            }
            i += 1;
        }
        assert(self.entries().take(i as int) =~= self.entries());
        paths
    }

    /// Records `owner` as the owner of `path`. Refused, with the table
    /// unchanged, if the path already has an owner.
    pub fn insert(&mut self, path: String, owner: String) -> (result: Result<(), LedgerError>)
        requires
            old(self).wf(),
        ensures
            final(self).wf(),
            match result {
                Ok(()) => !old(self)@.contains_key(path@) && final(self).entries() == old(self).entries().push((path@, owner@)) && final(self)@ == old(self)@.insert(
                    path@,
                    owner@,
                ),
                Err(e) => e == LedgerError::AlreadyOwned && old(self)@.contains_key(path@)
                    && final(self).entries() == old(self).entries(),
            },
    {
        match self.position(&path) {
            Some(_) => Err(LedgerError::AlreadyOwned),
            None => {
                proof {
                    lemma_table_push(self.entries(), path@, owner@);
                }
                self.records.push((path, owner));
                assert(self.entries() =~= old(self).entries().push((path@, owner@)));
                Ok(())
            },
        }
    }

    /// Forgets the owner of `path`. Refused, with the table unchanged, if the
    /// path has no recorded owner.
    pub fn remove(&mut self, path: &str) -> (result: Result<(), LedgerError>)
        requires
            old(self).wf(),
        ensures
            final(self).wf(),
            match result {
                Ok(()) => old(self)@.contains_key(path@) && final(self)@ == old(self)@.remove(
                    path@,
                ) && final(self).entries() == without(old(self).entries(), path@),
                Err(e) => e == LedgerError::NotOwned && !old(self)@.contains_key(path@)
                    && final(self).entries() == old(self).entries(),
            },
    {
        let key = path.to_string();
        match self.position(&key) {
            Some(i) => {
                proof {
                    lemma_table_remove(self.entries(), i as int);
                    lemma_table_lookup(self.entries(), i as int);
                }
                let _ = self.records.remove(i);
                assert(self.entries() =~= old(self).entries().remove(i as int));
                Ok(())
            },
            None => Err(LedgerError::NotOwned),
        }
    }

    /// Builds the table from decoded records. Records that name a path twice
    /// are refused as corrupt.
    pub fn from_records(records: Vec<(String, String)>) -> (result: Result<Ledger, LedgerError>)
        ensures
            match result {
                Ok(ledger) => distinct_paths(records.deep_view()) && ledger.wf()
                    && ledger.entries() == records.deep_view(),
                Err(e) => e == LedgerError::Corrupt && !distinct_paths(records.deep_view()),
            },
    {
        let ghost entries = records.deep_view();
        let mut j: usize = 0;
        while j < records.len()
            invariant
                j <= records.len(),
                entries == records.deep_view(),
                forall|a: int, b: int| 0 <= a < b < j ==> entries[a].0 != entries[b].0,
            decreases records.len() - j,
        {
            let mut i: usize = 0;
            while i < j
                invariant
                    i <= j,
                    j < records.len(),
                    entries == records.deep_view(),
                    forall|a: int| 0 <= a < i ==> (#[trigger] entries[a]).0 != entries[j as int].0,
                decreases j - i,
            {
                if records[i].0 == records[j].0 {
                    assert(entries[i as int].0 == entries[j as int].0);
                    return Err(LedgerError::Corrupt);
                }
                i += 1;
            }
            j += 1;
        }
        Ok(Ledger { records })
    }

    /// Reads the table back from the bytes of its backing store.
    pub fn from_bytes(bytes: &[u8]) -> (result: Result<Ledger, LedgerError>)
        ensures
            match result {
                Ok(ledger) => ledger.wf() && stored_table(bytes@) == Some(ledger.entries()),
                Err(e) => e == LedgerError::Corrupt && stored_table(bytes@) is None,
            },
    {
        match decode_records(bytes) {
            Some(records) => Ledger::from_records(records),
            None => Err(LedgerError::Corrupt),
        }
    }

    /// The bytes to write to the backing store on closing: the whole table.
    /// Reading them back gives the same table, record for record.
    pub fn to_bytes(&self) -> (result: Result<Vec<u8>, LedgerError>)
        requires
            self.wf(),
        ensures
            match result {
                Ok(bytes) => bincode_encoding(self.entries()) == Some(bytes@) && stored_table(
                    bytes@,
                ) == Some(self.entries()),
                Err(e) => e == LedgerError::Unencodable && bincode_encoding(self.entries())
                    is None,
            },
    {
        match encode_records(&self.records) {
            Some(bytes) => Ok(bytes),
            None => Err(LedgerError::Unencodable),
        }
    }
}

} // verus!
