//! The meta store: resolved metadata records by content identifier.
//!
//! The store only grows, and the first record written under an identifier
//! stays: a later `insert` under the same identifier changes nothing.

use vstd::prelude::*;

verus! {

/// Where a record was found.
#[derive(Debug, PartialEq, Eq)]
pub enum Source {
    /// A local file named by the configuration's `include` list.
    Local,
    /// The subgraph endpoint with this URL.
    Subgraph(String),
}

/// The model of `Source`: the same value over sequences of characters.
pub enum SourceView {
    Local,
    Subgraph(Seq<char>),
}

impl View for Source {
    type V = SourceView;

    open spec fn view(&self) -> SourceView {
        match self {
            Source::Local => SourceView::Local,
            Source::Subgraph(url) => SourceView::Subgraph(url@),
        }
    }
}

/// A resolved piece of metadata.
#[derive(Debug, PartialEq, Eq)]
pub struct MetaRecord {
    pub id: String,
    pub payload: String,
    pub source: Source,
}

/// The model of `MetaRecord`: the same value over sequences of characters.
pub struct MetaRecordView {
    pub id: Seq<char>,
    pub payload: Seq<char>,
    pub source: SourceView,
}

impl View for MetaRecord {
    type V = MetaRecordView;

    open spec fn view(&self) -> MetaRecordView {
        MetaRecordView { id: self.id@, payload: self.payload@, source: self.source@ }
    }
}

/// One written record with the identifier it was written under.
#[derive(Debug)]
struct Slot {
    key: String,
    record: MetaRecord,
}

/// Records by identifier. Its view is the map from identifier to record.
#[derive(Debug)]
pub struct MetaStore {
    slots: Vec<Slot>,
}

/// The map that writing `slots` in order gives, where a slot whose key is
/// already taken is passed over.
spec fn written(slots: Seq<Slot>) -> Map<Seq<char>, MetaRecordView>
    decreases slots.len(),
{
    if slots.len() == 0 {
        Map::empty()
    } else {
        let before = written(slots.drop_last());
        let slot = slots.last();
        if before.contains_key(slot.key@) {
            before
        } else {
            before.insert(slot.key@, slot.record@)
        }
    }
}

/// A key that no slot carries has no record.
proof fn lemma_written_absent(slots: Seq<Slot>, key: Seq<char>)
    requires
        forall|j: int| 0 <= j < slots.len() ==> slots[j].key@ != key,
    ensures
        !written(slots).contains_key(key),
    decreases slots.len(),
{
    if slots.len() > 0 {
        lemma_written_absent(slots.drop_last(), key);
    }
}

/// The record of a key is that of the first slot that carries the key.
proof fn lemma_written_first(slots: Seq<Slot>, key: Seq<char>, at: int)
    requires
        0 <= at < slots.len(),
        slots[at].key@ == key,
        forall|j: int| 0 <= j < at ==> slots[j].key@ != key,
    ensures
        written(slots).contains_key(key),
        written(slots)[key] == slots[at].record@,
    decreases slots.len(),
{
    let front = slots.drop_last();
    if at == slots.len() - 1 {
        lemma_written_absent(front, key);
    } else {
        lemma_written_first(front, key, at);
    }
}

impl View for MetaStore {
    type V = Map<Seq<char>, MetaRecordView>;

    closed spec fn view(&self) -> Map<Seq<char>, MetaRecordView> {
        written(self.slots@)
    }
}

impl MetaStore {
    /// The store without any record.
    pub fn new() -> (store: MetaStore)
        ensures
            store@ == Map::<Seq<char>, MetaRecordView>::empty(),
    {
        MetaStore { slots: Vec::new() }
    }

    /// The first slot that carries `id`.
    fn find(&self, id: &String) -> (at: Option<usize>)
        ensures
            match at {
                Some(i) => i < self.slots.len() && self.slots[i as int].key@ == id@
                    && self@.contains_key(id@) && self@[id@] == self.slots[i as int].record@,
                None => !self@.contains_key(id@),
            },
    {
        let mut i: usize = 0;
        while i < self.slots.len()
            invariant
                i <= self.slots.len(),
                forall|j: int| 0 <= j < i ==> self.slots[j].key@ != id@,
            decreases self.slots.len() - i,
        {
            if self.slots[i].key == *id {
                proof {
                    lemma_written_first(self.slots@, id@, i as int);
                }
                return Some(i);
            }
            i += 1;
        }
        proof {
            lemma_written_absent(self.slots@, id@);
        }
        None
    }

    /// Writes `record` under `id` unless `id` already has a record. Says
    /// whether it wrote.
    pub fn insert(&mut self, id: String, record: MetaRecord) -> (wrote: bool)
        ensures
            wrote == !old(self)@.contains_key(id@),
            wrote ==> final(self)@ == old(self)@.insert(id@, record@),
            !wrote ==> final(self)@ == old(self)@,
    {
        if self.find(&id).is_some() {
            return false;
        }
        let ghost before = self.slots@;
        self.slots.push(Slot { key: id, record });
        assert(self.slots@.drop_last() =~= before);
        true
    }

    /// The record under `id`, if there is one.
    pub fn get(&self, id: &str) -> (found: Option<&MetaRecord>)
        ensures
            match found {
                Some(record) => self@.contains_key(id@) && record@ == self@[id@],
                None => !self@.contains_key(id@),
            },
    {
        let key = id.to_owned();
        match self.find(&key) {
            Some(i) => Some(&self.slots[i].record),
            None => None,
        }
    }

    /// Whether `id` has a record.
    pub fn contains(&self, id: &str) -> (found: bool)
        ensures
            found == self@.contains_key(id@),
    {
        let key = id.to_owned();
        self.find(&key).is_some()
    }

    /// Whether the store holds no record at all.
    pub fn is_empty(&self) -> (empty: bool)
        ensures
            empty == (self@ == Map::<Seq<char>, MetaRecordView>::empty()),
    {
        if self.slots.len() == 0 {
            true
        } else {
            proof {
                lemma_written_first(self.slots@, self.slots[0].key@, 0);
            }
            false
        }
    }
}

/// An `insert` leaves every record that was there as it was.
pub proof fn lemma_insert_keeps(
    before: Map<Seq<char>, MetaRecordView>,
    after: Map<Seq<char>, MetaRecordView>,
    id: Seq<char>,
    record: MetaRecordView,
)
    requires
        after == (if before.contains_key(id) {
            before
        } else {
            before.insert(id, record)
        }),
    ensures
        forall|key: Seq<char>| #[trigger]
            before.contains_key(key) ==> after.contains_key(key) && after[key] == before[key],
{
}

} // verus!
