//! What a store holds: event streams and snapshots by persistence ID.

use vstd::prelude::*;

use crate::book::Identified;

verus! {

/// The position of an event in its stream.
#[derive(Debug, Clone, Copy, PartialEq, Eq, Structural)]
pub struct SeqNo(pub u64);

impl SeqNo {
    /// The position of the first event.
    pub fn zero() -> (r: Self)
        ensures
            r.0 == 0,
    {
        SeqNo(0)
    }

    pub fn new(seq_no: u64) -> (r: Self)
        ensures
            r.0 == seq_no,
    {
        SeqNo(seq_no)
    }

    pub fn as_u64(self) -> (seq_no: u64)
        ensures
            seq_no == self.0,
    {
        self.0
    }

    /// The next position.
    pub fn succ(self) -> (r: Self)
        requires
            self.0 < u64::MAX,
        ensures
            r.0 == self.0 + 1,
    {
        SeqNo(self.0 + 1)
    }

    /// The position so many events later.
    pub fn advanced_by(self, n: usize) -> (r: Self)
        requires
            self.0 + n <= u64::MAX,
        ensures
            r.0 == self.0 + n,
    {
        SeqNo(self.0 + n as u64)
    }
}

/// The version of a stored representation.
#[derive(Debug, Clone, Copy, PartialEq, Eq, Structural)]
pub struct SchemaVersion(pub u32);

impl SchemaVersion {
    pub fn new(version: u32) -> (r: Self)
        ensures
            r.0 == version,
    {
        SchemaVersion(version)
    }
}

/// Whose events and snapshot these are: a kind of actor and which one of it.
#[derive(Debug, Clone, PartialEq, Eq)]
pub struct PersistenceId {
    pub kind: String,
    pub name: String,
}

pub ghost struct PersistenceIdModel {
    pub kind: Seq<char>,
    pub name: Seq<char>,
}

impl View for PersistenceId {
    type V = PersistenceIdModel;

    open spec fn view(&self) -> PersistenceIdModel {
        PersistenceIdModel { kind: self.kind@, name: self.name@ }
    }
}

impl PersistenceId {
    pub fn new(kind: &str, name: &str) -> (id: Self)
        ensures
            id@ == (PersistenceIdModel { kind: kind@, name: name@ }),
    {
        PersistenceId { kind: kind.to_owned(), name: name.to_owned() }
    }
}

impl Identified for PersistenceId {
    type Id = PersistenceIdModel;

    open spec fn ident(&self) -> PersistenceIdModel {
        self@
    }

    fn same(&self, other: &Self) -> (r: bool) {
        self.kind == other.kind && self.name == other.name
    }

    fn copied(&self) -> (copy: Self) {
        PersistenceId { kind: self.kind.clone(), name: self.name.clone() }
    }
}

pub fn copy_bytes(bytes: &Vec<u8>) -> (copy: Vec<u8>)
    ensures
        copy@ == bytes@,
{
    let mut copy: Vec<u8> = Vec::new();
    let mut i: usize = 0;
    while i < bytes.len()
        invariant
            i <= bytes@.len(),
            copy@ =~= bytes@.take(i as int),
        decreases bytes@.len() - i,
    {
        copy.push(bytes[i]);
        i = i + 1;
    }
    copy
}

/// A value as it is stored.
#[derive(Debug, Clone, PartialEq, Eq)]
pub struct Encoded {
    pub manifest: String,
    pub schema_version: SchemaVersion,
    pub payload: Vec<u8>,
}

/// An event as it is stored.
pub type EncodedEvent = Encoded;

/// A snapshot as it is stored.
pub type EncodedSnapshot = Encoded;

#[verifier::ext_equal]
pub ghost struct EncodedModel {
    pub manifest: Seq<char>,
    pub schema_version: SchemaVersion,
    pub payload: Seq<u8>,
}

impl View for Encoded {
    type V = EncodedModel;

    open spec fn view(&self) -> EncodedModel {
        EncodedModel {
            manifest: self.manifest@,
            schema_version: self.schema_version,
            payload: self.payload@,
        }
    }
}

impl Encoded {
    pub fn copy(&self) -> (encoded: Self)
        ensures
            encoded@ == self@,
    {
        Encoded {
            manifest: self.manifest.clone(),
            schema_version: self.schema_version,
            payload: copy_bytes(&self.payload),
        }
    }
}

/// An event and its position.
#[derive(Debug, Clone, PartialEq, Eq)]
pub struct StoredEvent {
    pub seq_no: SeqNo,
    pub event: EncodedEvent,
}

#[verifier::ext_equal]
pub ghost struct StoredEventModel {
    pub seq_no: SeqNo,
    pub event: EncodedModel,
}

impl View for StoredEvent {
    type V = StoredEventModel;

    open spec fn view(&self) -> StoredEventModel {
        StoredEventModel { seq_no: self.seq_no, event: self.event@ }
    }
}

/// A snapshot and the position of the first event it does not cover.
#[derive(Debug, Clone, PartialEq, Eq)]
pub struct StoredSnapshot {
    pub next_seq_no: SeqNo,
    pub snapshot: EncodedSnapshot,
}

#[verifier::ext_equal]
pub ghost struct StoredSnapshotModel {
    pub next_seq_no: SeqNo,
    pub snapshot: EncodedModel,
}

impl View for StoredSnapshot {
    type V = StoredSnapshotModel;

    open spec fn view(&self) -> StoredSnapshotModel {
        StoredSnapshotModel { next_seq_no: self.next_seq_no, snapshot: self.snapshot@ }
    }
}

/// Events which cannot be appended.
#[derive(Debug, Clone, Copy, PartialEq, Eq, Structural)]
pub enum AppendError {
    /// The stream does not end where they are to begin.
    Conflict,
}

} // verus!
