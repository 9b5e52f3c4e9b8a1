//! Consumer offsets: the record written for each committed offset, and the
//! table of the latest offset of each (topic, group).

use crate::buffers::{bytes_mut_contents, bytes_mut_new, bytes_mut_put_slice, bytes_mut_put_u32, bytes_mut_put_u64, be_u64_bytes};
use crate::enums::{AppError, OffsetCommand, WriterState};
use crate::framing::{be_u32_bytes, frame};
use crate::writer::send_offset_command;
use bytes::BytesMut;
use crossbeam::channel::Sender;
use vstd::prelude::*;
use vstd::utf8::encode_utf8;

verus! {

/// A topic and, optionally, the consumer group whose offset in it is kept.
#[derive(Eq, Hash, PartialEq, Clone)]
pub struct OffsetKey {
    pub topic: String,
    pub group_id: Option<String>,
}

/// A key as plain values: the topic's characters and the group's, if any.
pub open spec fn key_view(k: OffsetKey) -> (Seq<char>, Option<Seq<char>>) {
    (
        k.topic@,
        match k.group_id {
            Some(g) => Some(g@),
            None => None,
        },
    )
}

/// The record written for an offset commit: the group id as a `u32`
/// big-endian length and its UTF-8 bytes (or a zero length when there is no
/// group), the topic likewise, then the offset as a big-endian `u64`.
pub open spec fn offset_record(k: OffsetKey, offset: usize) -> Seq<u8> {
    (match k.group_id {
        Some(g) => frame(encode_utf8(g@)),
        None => be_u32_bytes(0),
    }) + frame(encode_utf8(k.topic@)) + be_u64_bytes(offset as u64)
}

/// The low 32 bits of a length, as the record's length fields hold it.
fn length_as_u32(n: usize) -> (r: u32)
    ensures
        r as int == n as int % 0x1_0000_0000int,
{
    let r = n as u32;
    assert(r as int == n as int % 0x1_0000_0000int) by (bit_vector)
        requires r == n as u32;
    r
}

/// Encodes the record for committing `offset` under `offset_key`.
pub fn encode_offset_record(offset_key: &OffsetKey, offset: usize) -> (buf: BytesMut)
    requires
        offset_record(*offset_key, offset).len() <= usize::MAX,
    ensures
        bytes_mut_contents(buf) == offset_record(*offset_key, offset),
{
    let mut buf = bytes_mut_new();
    match &offset_key.group_id {
        Some(group_id) => {
            let g = group_id.as_str().as_bytes();
            bytes_mut_put_u32(&mut buf, length_as_u32(g.len()));
            bytes_mut_put_slice(&mut buf, g);
        },
        None => {
            bytes_mut_put_u32(&mut buf, 0);
        },
    }
    let t = offset_key.topic.as_str().as_bytes();
    bytes_mut_put_u32(&mut buf, length_as_u32(t.len()));
    bytes_mut_put_slice(&mut buf, t);
    bytes_mut_put_u64(&mut buf, offset as u64);
    assert(bytes_mut_contents(buf) =~= offset_record(*offset_key, offset));
    buf
}

/// Whether two keys name the same topic and group.
fn same_key(a: &OffsetKey, b: &OffsetKey) -> (r: bool)
    ensures
        r == (key_view(*a) == key_view(*b)),
{
    if !(a.topic == b.topic) {
        return false;
    }
    match (&a.group_id, &b.group_id) {
        (Some(x), Some(y)) => *x == *y,
        (None, None) => true,
        _ => false,
    }
}

/// A copy of a key.
fn copy_key(k: &OffsetKey) -> (r: OffsetKey)
    ensures
        key_view(r) == key_view(*k),
{
    let group_id = match &k.group_id {
        Some(g) => Some(g.clone()),
        None => None,
    };
    OffsetKey { topic: k.topic.clone(), group_id }
}

/// The latest committed offset of each (topic, group).
///
/// The entries are kept in a vector, each key once. vstd's specification of
/// `std::collections::HashMap` holds only for key types that obey its key
/// model (`obeys_key_model`), and that cannot be established for a key that
/// holds `String`s, so a `HashMap<OffsetKey, usize>` here would let nothing
/// about its contents be proved.
pub struct OffsetTable {
    entries: Vec<(OffsetKey, usize)>,
    latest: Ghost<Map<(Seq<char>, Option<Seq<char>>), usize>>,
    handed: Ghost<Seq<Seq<u8>>>,
}

impl View for OffsetTable {
    type V = Map<(Seq<char>, Option<Seq<char>>), usize>;

    closed spec fn view(&self) -> Map<(Seq<char>, Option<Seq<char>>), usize> {
        self.latest@
    }
}

impl OffsetTable {
    /// The records handed to the offset writer by the commits made through
    /// this table, in order.
    pub closed spec fn handed_over(&self) -> Seq<Seq<u8>> {
        self.handed@
    }

    /// Each key is held once, with the offset that the view gives it.
    pub closed spec fn wf(&self) -> bool {
        &&& forall|i: int| #![trigger self.entries@[i]]
            0 <= i < self.entries@.len() ==> {
                &&& self.latest@.contains_key(key_view(self.entries@[i].0))
                &&& self.latest@[key_view(self.entries@[i].0)] == self.entries@[i].1
            }
        &&& forall|k: (Seq<char>, Option<Seq<char>>)| #[trigger] self.latest@.contains_key(k) ==> exists|i: int|
            0 <= i < self.entries@.len() && key_view(self.entries@[i].0) == k
        &&& forall|i: int, j: int|
            0 <= i < j < self.entries@.len() ==> key_view(#[trigger] self.entries@[i].0) != key_view(
                #[trigger] self.entries@[j].0,
            )
    }

    /// A table with no offsets.
    pub fn new() -> (t: OffsetTable)
        ensures
            t.wf(),
            t@ == Map::<(Seq<char>, Option<Seq<char>>), usize>::empty(),
            t.handed_over() == Seq::<Seq<u8>>::empty(),
    {
        OffsetTable { entries: Vec::new(), latest: Ghost(Map::empty()), handed: Ghost(Seq::empty()) }
    }

    /// The latest offset committed under `key`, if any.
    pub fn get(&self, key: &OffsetKey) -> (r: Option<usize>)
        requires
            self.wf(),
        ensures
            r == (if self@.contains_key(key_view(*key)) { Some(self@[key_view(*key)]) } else { None }),
    {
        let mut i: usize = 0;
        while i < self.entries.len()
            invariant
                self.wf(),
                i <= self.entries@.len(),
                forall|j: int| 0 <= j < i ==> key_view(#[trigger] self.entries@[j].0) != key_view(*key),
            decreases self.entries@.len() - i,
        {
            if same_key(&self.entries[i].0, key) {
                return Some(self.entries[i].1);
            }
            i += 1;
        }
        proof {
            if self@.contains_key(key_view(*key)) {
                let j = choose|j: int| 0 <= j < self.entries@.len() && key_view(self.entries@[j].0) == key_view(*key);
                assert(key_view(self.entries@[j].0) != key_view(*key));
            }
        }
        None
    }

    /// Records `offset` as the latest offset under `key`.
    pub fn insert(&mut self, key: OffsetKey, offset: usize)
        requires
            old(self).wf(),
        ensures
            final(self).wf(),
            final(self)@ == old(self)@.insert(key_view(key), offset),
            final(self).handed_over() == old(self).handed_over(),
    {
        let ghost kv = key_view(key);
        let mut i: usize = 0;
        while i < self.entries.len()
            invariant
                self.wf(),
                self@ == old(self)@,
                self.entries@ == old(self).entries@,
                self.handed == old(self).handed,
                kv == key_view(key),
                i <= self.entries@.len(),
                forall|j: int| 0 <= j < i ==> key_view(#[trigger] self.entries@[j].0) != kv,
            decreases self.entries@.len() - i,
        {
            let found = same_key(&self.entries[i].0, &key);
            assert(found == (key_view(self.entries@[i as int].0) == kv));
            if found {
                let ghost before = self.entries@;
                self.entries.set(i, (key, offset));
                self.latest = Ghost(self.latest@.insert(kv, offset));
                proof {
                    assert forall|k: (Seq<char>, Option<Seq<char>>)| #[trigger] self.latest@.contains_key(k) implies exists|j: int|
                        0 <= j < self.entries@.len() && key_view(self.entries@[j].0) == k by {
                        assert(self.entries@ == before.update(i as int, (key, offset)));
                        if k != kv {
                            let j = choose|j: int| 0 <= j < before.len() && key_view(before[j].0) == k;
                            assert(j != i);
                            assert(self.entries@[j] == before[j]);
                        } else {
                            assert(key_view(self.entries@[i as int].0) == k);
                        }
                    }
                }
                return;
            }
            i += 1;
        }
        let ghost before = self.entries@;
        proof {
            assert(!self.latest@.contains_key(kv)) by {
                if self.latest@.contains_key(kv) {
                    let j = choose|j: int| 0 <= j < before.len() && key_view(before[j].0) == kv;
                    assert(key_view(before[j].0) != kv);
                }
            }
        }
        self.entries.push((key, offset));
        self.latest = Ghost(self.latest@.insert(kv, offset));
        proof {
            assert forall|k: (Seq<char>, Option<Seq<char>>)| #[trigger] self.latest@.contains_key(k) implies exists|j: int|
                0 <= j < self.entries@.len() && key_view(self.entries@[j].0) == k by {
                if k != kv {
                    let j = choose|j: int| 0 <= j < before.len() && key_view(before[j].0) == k;
                    assert(self.entries@[j] == before[j]);
                } else {
                    assert(key_view(self.entries@[before.len() as int].0) == k);
                }
            }
        }
    }
}

/// Whether an offset may be committed while the offset writer is in
/// `state`: yes while it is healthy; after a failure, the failure's text.
pub fn writer_health(state: &WriterState) -> (r: Result<(), AppError>)
    ensures
        match state {
            WriterState::Healthy => r is Ok,
            WriterState::Failure(e) => r == Err::<(), AppError>(AppError::WriteError(*e)),
        },
{
    match state {
        WriterState::Healthy => Ok(()),
        WriterState::Failure(error) => Err(AppError::WriteError(error.clone())),
    }
}

/// Completes an offset commit once its record was handed to the writer
/// (`sent`) or not: on success the table takes the offset; otherwise it is
/// unchanged and the commit fails.
pub fn finish_append(table: &mut OffsetTable, offset_key: OffsetKey, offset: usize, sent: bool) -> (r: Result<(), AppError>)
    requires
        old(table).wf(),
    ensures
        final(table).wf(),
        final(table).handed_over() == old(table).handed_over(),
        sent ==> r is Ok && final(table)@ == old(table)@.insert(key_view(offset_key), offset),
        !sent ==> final(table)@ == old(table)@ && (r matches Err(AppError::WriteError(m)) && m@ == "Failed to persist offset"@),
{
    if sent {
        table.insert(offset_key, offset);
        Ok(())
    } else {
        Err(AppError::WriteError("Failed to persist offset".to_string()))
    }
}

/// Commits `offset` under `offset_key`: refused with the writer's failure
/// if the offset writer has failed; otherwise the record is encoded and
/// handed to the writer, and the table takes the offset if that succeeded.
pub fn append_offset(
    table: &mut OffsetTable,
    state: &WriterState,
    sender: &Sender<OffsetCommand>,
    offset_key: OffsetKey,
    offset: usize,
) -> (r: Result<(), AppError>)
    requires
        old(table).wf(),
        offset_record(offset_key, offset).len() <= usize::MAX,
    ensures
        final(table).wf(),
        match state {
            WriterState::Failure(e) => r == Err::<(), AppError>(AppError::WriteError(*e)) && final(table)@ == old(table)@
                && final(table).handed_over() == old(table).handed_over(),
            WriterState::Healthy => match r {
                Ok(()) => final(table)@ == old(table)@.insert(key_view(offset_key), offset)
                    && final(table).handed_over() == old(table).handed_over().push(offset_record(offset_key, offset)),
                Err(AppError::WriteError(m)) => m@ == "Failed to persist offset"@ && final(table)@ == old(table)@
                    && final(table).handed_over() == old(table).handed_over(),
            },
        },
{
    let offset_to_save = copy_key(&offset_key);
    match writer_health(state) {
        Ok(()) => {},
        Err(e) => {
            return Err(e);
        },
    }
    let record = encode_offset_record(&offset_to_save, offset);
    let ghost record_bytes = bytes_mut_contents(record);
    let sent = send_offset_command(sender, OffsetCommand::Append(record));
    let r = finish_append(table, offset_key, offset, sent);
    if sent {
        let ghost before = *table;
        table.handed = Ghost(table.handed@.push(record_bytes));
        assert(table.entries == before.entries && table.latest == before.latest);
        assert(table.wf() == before.wf());
    }
    r
}

} // verus!
