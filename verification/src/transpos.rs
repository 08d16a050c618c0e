//! The transposition table: what a search found for a position, kept under
//! the position's hash.
//!
//! Every entry carries a checksum over its other fields. An entry that was
//! read while it was being written does not match its checksum and is taken
//! for absent.

use vstd::prelude::*;

verus! {

/// What the evaluation of an entry is: exact, or a bound.
#[derive(Debug, Copy, Clone, PartialEq, Eq, Structural)]
pub enum EntryType {
    Invalid,
    Exact,
    FailLow,
    FailHigh,
}

/// The number that stands for an entry type in the checksum.
pub open spec fn entry_type_code(entry_type: EntryType) -> u64 {
    match entry_type {
        EntryType::Invalid => 0,
        EntryType::Exact => 1,
        EntryType::FailLow => 2,
        EntryType::FailHigh => 3,
    }
}

/// The 32 bits `bits`, read as a signed number and widened to 64 bits.
pub open spec fn sign_extended(bits: u32) -> u64 {
    if bits >= 0x8000_0000 {
        (bits as u64) | 0xffff_ffff_0000_0000
    } else {
        bits as u64
    }
}

/// One step of the checksum: `value` is mixed with the sum so far and added to it.
pub open spec fn mix(sum: u64, value: u64) -> u64 {
    sum.wrapping_add(value ^ sum)
}

/// The checksum of the fields of an entry, the age left out.
pub open spec fn spec_checksum(
    hash: u64,
    eval_bits: u32,
    best_move_idx: u8,
    depth_remaining: u8,
    entry_type: EntryType,
) -> u64 {
    mix(
        mix(mix(mix(hash, sign_extended(eval_bits)), best_move_idx as u64), depth_remaining as u64),
        entry_type_code(entry_type),
    )
}

/// One entry of the table.
#[derive(Debug, Copy, Clone)]
pub struct Entry {
    /// The hash of the position.
    pub hash: u64,
    /// The evaluation, as the bits of a 32-bit floating-point number.
    pub eval_bits: u32,
    /// The place of the best move among the moves of the position.
    pub best_move_idx: u8,
    /// The depth that the search still had to go when it stored the entry.
    pub depth_remaining: u8,
    pub entry_type: EntryType,
    /// The count of the writes to the table when this entry was written.
    pub age_count: u64,
    pub checksum: u64,
}

impl Entry {
    /// The entry that stands for "nothing stored".
    pub fn new() -> (entry: Entry)
        ensures
            entry == Entry::spec_new(),
    {
        Entry {
            hash: 0,
            eval_bits: 0,
            best_move_idx: 0,
            depth_remaining: 0,
            entry_type: EntryType::Invalid,
            age_count: 0,
            checksum: 0,
        }
    }

    /// The entry that stands for "nothing stored".
    pub open spec fn spec_new() -> Entry {
        Entry {
            hash: 0,
            eval_bits: 0,
            best_move_idx: 0,
            depth_remaining: 0,
            entry_type: EntryType::Invalid,
            age_count: 0,
            checksum: 0,
        }
    }

    /// The checksum that the fields of this entry ask for.
    pub open spec fn spec_calc_checksum(&self) -> u64 {
        spec_checksum(
            self.hash,
            self.eval_bits,
            self.best_move_idx,
            self.depth_remaining,
            self.entry_type,
        )
    }

    /// Whether something is stored in the entry.
    pub open spec fn spec_is_set(&self) -> bool {
        self.entry_type != EntryType::Invalid
    }

    /// Whether something is stored in the entry and its checksum is right.
    pub open spec fn spec_is_valid(&self) -> bool {
        self.spec_is_set() && self.checksum == self.spec_calc_checksum()
    }

    /// Whether the entry is set but does not match its checksum.
    pub open spec fn is_torn(&self) -> bool {
        self.spec_is_set() && !self.spec_is_valid()
    }

    /// Sets the checksum to what the other fields ask for.
    pub fn update_checksum(&mut self)
        ensures
            *final(self) == (Entry { checksum: old(self).spec_calc_checksum(), ..*old(self) }),
            !final(self).is_torn(),
    {
        self.checksum = self.calc_checksum();
    }

    fn calc_checksum(&self) -> (checksum: u64)
        ensures
            checksum == self.spec_calc_checksum(),
    {
        let eval_word: u64 = if self.eval_bits >= 0x8000_0000 {
            (self.eval_bits as u64) | 0xffff_ffff_0000_0000
        } else {
            self.eval_bits as u64
        };
        let type_code: u64 = match self.entry_type {
            EntryType::Invalid => 0,
            EntryType::Exact => 1,
            EntryType::FailLow => 2,
            EntryType::FailHigh => 3,
        };
        let mut cur_checksum: u64 = self.hash;
        cur_checksum = cur_checksum.wrapping_add(eval_word ^ cur_checksum);
        cur_checksum = cur_checksum.wrapping_add((self.best_move_idx as u64) ^ cur_checksum);
        cur_checksum = cur_checksum.wrapping_add((self.depth_remaining as u64) ^ cur_checksum);
        cur_checksum = cur_checksum.wrapping_add(type_code ^ cur_checksum);
        cur_checksum
    }

    /// Whether something is stored in the entry.
    #[verifier::when_used_as_spec(spec_is_set)]
    pub fn is_set(&self) -> (set: bool)
        ensures
            set == self.spec_is_set(),
    {
        self.entry_type != EntryType::Invalid
    }

    /// Whether something is stored in the entry and its checksum is right.
    #[verifier::when_used_as_spec(spec_is_valid)]
    pub fn is_valid(&self) -> (valid: bool)
        ensures
            valid == self.spec_is_valid(),
    {
        if self.entry_type == EntryType::Invalid {
            return false;
        }
        self.checksum == self.calc_checksum()
    }
}

pub const ENTRIES_PER_BUCKET: usize = 4;

/// The bytes that one bucket of four entries takes.
pub const BUCKET_BYTES: usize = 128;

/// Four entries that share one place in the table.
#[derive(Debug, Copy, Clone)]
pub struct Bucket {
    pub entries: [Entry; ENTRIES_PER_BUCKET],
}

impl Bucket {
    /// A bucket with nothing stored.
    pub fn new() -> (bucket: Bucket)
        ensures
            forall|i: int| 0 <= i < 4 ==> #[trigger] bucket.entries[i] == Entry::spec_new(),
    {
        Bucket { entries: [Entry::new();ENTRIES_PER_BUCKET] }
    }

    /// The first slot that holds the hash `hash`, or 4 where none does.
    pub open spec fn match_slot(&self, hash: u64) -> int {
        if self.entries[0].hash == hash {
            0
        } else if self.entries[1].hash == hash {
            1
        } else if self.entries[2].hash == hash {
            2
        } else if self.entries[3].hash == hash {
            3
        } else {
            4
        }
    }

    /// The slot among the first `n` whose entry is the oldest: the one with
    /// the lowest age, and of several such the first.
    pub open spec fn oldest_slot(&self, n: int) -> int
        decreases n,
    {
        if n <= 1 {
            0
        } else {
            let before = self.oldest_slot(n - 1);
            if self.entries[n - 1].age_count < self.entries[before].age_count {
                n - 1
            } else {
                before
            }
        }
    }

    /// The slot that a write under `hash` goes to: the one that holds this
    /// hash already, or else the oldest.
    pub open spec fn write_slot(&self, hash: u64) -> int {
        if self.match_slot(hash) < 4 {
            self.match_slot(hash)
        } else {
            self.oldest_slot(4)
        }
    }

    /// What a reader finds under `hash`: the first entry with this hash, or
    /// the empty entry where there is none or the one found is torn.
    pub open spec fn lookup(&self, hash: u64) -> Entry {
        let slot = self.match_slot(hash);
        if slot < 4 && !self.entries[slot].is_torn() {
            self.entries[slot]
        } else {
            Entry::spec_new()
        }
    }
}

impl Bucket {
    /// No entry among the first `n` is older than the oldest: none has a
    /// lower age, and those before it have a higher one.
    pub proof fn lemma_oldest_slot(&self, n: int)
        requires
            1 <= n <= 4,
        ensures
            0 <= self.oldest_slot(n) < n,
            forall|i: int|
                0 <= i < n ==> self.entries[self.oldest_slot(n)].age_count
                    <= (#[trigger] self.entries[i]).age_count,
            forall|i: int|
                0 <= i < self.oldest_slot(n) ==> self.entries[self.oldest_slot(n)].age_count
                    < (#[trigger] self.entries[i]).age_count,
        decreases n,
    {
        if n > 1 {
            self.lemma_oldest_slot(n - 1);
        }
    }

    /// A write under a hash that the bucket does not hold goes to the slot of
    /// the entry with the lowest age.
    pub proof fn lemma_write_replaces_oldest(&self, hash: u64)
        requires
            forall|i: int| 0 <= i < 4 ==> (#[trigger] self.entries[i]).hash != hash,
        ensures
            0 <= self.write_slot(hash) < 4,
            forall|i: int|
                0 <= i < 4 ==> self.entries[self.write_slot(hash)].age_count
                    <= (#[trigger] self.entries[i]).age_count,
    {
        self.lemma_oldest_slot(4);
        assert(self.entries[0].hash != hash);
        assert(self.entries[1].hash != hash);
        assert(self.entries[2].hash != hash);
        assert(self.entries[3].hash != hash);
    }
}

/// The table.
pub struct Table {
    pub buckets: Vec<Bucket>,
    /// The number of writes so far (it stops at the largest number).
    pub age_count: u64,
    pub size_mbs: usize,
}

impl Table {
    /// The table has a bucket, no entry is younger than the count of the
    /// writes says, and every entry that is set stands in the bucket of its
    /// hash.
    pub open spec fn wf(&self) -> bool {
        &&& self.buckets@.len() >= 1
        &&& forall|b: int, i: int|
            0 <= b < self.buckets@.len() && 0 <= i < 4 ==> (#[trigger] self.buckets@[b].entries[i]).age_count
                <= self.age_count
        &&& forall|b: int, i: int|
            0 <= b < self.buckets@.len() && 0 <= i < 4 && (#[trigger] self.buckets@[b].entries[i]).spec_is_set()
                ==> self.spec_bucket_idx(self.buckets@[b].entries[i].hash) == b
    }

    /// The entry that a write of these fields stores, with the age `age`
    /// and the checksum of the fields.
    pub open spec fn stored_entry(
        hash: u64,
        eval_bits: u32,
        best_move_idx: u8,
        depth_remaining: u8,
        entry_type: EntryType,
        age: u64,
    ) -> Entry {
        Entry {
            hash,
            eval_bits,
            best_move_idx,
            depth_remaining,
            entry_type,
            age_count: age,
            checksum: spec_checksum(hash, eval_bits, best_move_idx, depth_remaining, entry_type),
        }
    }

    /// This table is `before` after one write of these fields under `hash`:
    /// the count of the writes is one higher (it stops at the largest
    /// number), the slot that the write goes to holds the entry with this
    /// count as its age, and every other slot holds what it held.
    pub open spec fn written_from(
        &self,
        before: &Table,
        hash: u64,
        eval_bits: u32,
        best_move_idx: u8,
        depth_remaining: u8,
        entry_type: EntryType,
    ) -> bool {
        &&& self.size_mbs == before.size_mbs
        &&& self.buckets@.len() == before.buckets@.len()
        &&& self.age_count == (if before.age_count < u64::MAX {
            before.age_count + 1
        } else {
            u64::MAX as int
        })
        &&& forall|b: int, i: int|
            0 <= b < before.buckets@.len() && 0 <= i < 4 ==> #[trigger] self.buckets@[b].entries[i]
                == (if b == before.spec_bucket_idx(hash) && i == before.buckets@[b].write_slot(hash) {
                Self::stored_entry(
                    hash,
                    eval_bits,
                    best_move_idx,
                    depth_remaining,
                    entry_type,
                    self.age_count,
                )
            } else {
                before.buckets@[b].entries[i]
            })
    }

    /// Age replacement: a write under a hash that its bucket does not hold,
    /// into a bucket of four set entries with different hashes, replaces
    /// the entry of the lowest age. The new entry is the youngest of the
    /// table, the other slots hold what they held, and the hash that was
    /// replaced is no longer found.
    pub proof fn lemma_age_replacement(
        &self,
        before: &Table,
        hash: u64,
        eval_bits: u32,
        best_move_idx: u8,
        depth_remaining: u8,
        entry_type: EntryType,
    )
        requires
            before.wf(),
            before.age_count < u64::MAX,
            self.written_from(before, hash, eval_bits, best_move_idx, depth_remaining, entry_type),
            forall|i: int|
                0 <= i < 4 ==> (#[trigger] before.buckets@[before.spec_bucket_idx(hash)].entries[i]).spec_is_set()
                    && before.buckets@[before.spec_bucket_idx(hash)].entries[i].hash != hash,
            forall|i: int, j: int|
                0 <= i < j < 4 ==> (#[trigger] before.buckets@[before.spec_bucket_idx(hash)].entries[i]).hash
                    != (#[trigger] before.buckets@[before.spec_bucket_idx(hash)].entries[j]).hash,
        ensures
            ({
                let b = before.spec_bucket_idx(hash);
                let m = before.buckets@[b].write_slot(hash);
                &&& 0 <= b < before.buckets@.len()
                &&& 0 <= m < 4
                &&& forall|i: int|
                    0 <= i < 4 ==> before.buckets@[b].entries[m].age_count
                        <= (#[trigger] before.buckets@[b].entries[i]).age_count
                &&& self.buckets@[b].entries[m] == Self::stored_entry(
                    hash,
                    eval_bits,
                    best_move_idx,
                    depth_remaining,
                    entry_type,
                    self.age_count,
                )
                &&& !self.buckets@[b].entries[m].is_torn()
                &&& forall|b2: int, i: int|
                    0 <= b2 < before.buckets@.len() && 0 <= i < 4 && !(b2 == b && i == m) ==> {
                        &&& #[trigger] self.buckets@[b2].entries[i] == before.buckets@[b2].entries[i]
                        &&& self.buckets@[b2].entries[i].age_count
                            < self.buckets@[b].entries[m].age_count
                    }
                &&& !self.spec_get(before.buckets@[b].entries[m].hash).spec_is_set()
                &&& self.wf()
            }),
    {
        let b = before.spec_bucket_idx(hash);
        let bucket = before.buckets@[b];
        bucket.lemma_write_replaces_oldest(hash);
        let m = bucket.write_slot(hash);
        let gone = bucket.entries[m].hash;
        assert(self.buckets@[b].entries[m] == Self::stored_entry(
            hash,
            eval_bits,
            best_move_idx,
            depth_remaining,
            entry_type,
            self.age_count,
        ));
        assert forall|b2: int, i: int|
            0 <= b2 < before.buckets@.len() && 0 <= i < 4 && !(b2 == b && i == m) implies {
            &&& #[trigger] self.buckets@[b2].entries[i] == before.buckets@[b2].entries[i]
            &&& self.buckets@[b2].entries[i].age_count < self.buckets@[b].entries[m].age_count
        } by {
            assert(before.buckets@[b2].entries[i].age_count <= before.age_count);
        }
        // The hash that was replaced belongs to this bucket, and no slot of
        // the bucket holds it now.
        assert(bucket.entries[m].spec_is_set());
        assert(before.spec_bucket_idx(gone) == b);
        assert(self.spec_bucket_idx(gone) == b);
        let now = self.buckets@[b];
        assert forall|i: int| 0 <= i < 4 implies (#[trigger] now.entries[i]).hash != gone by {
            if i != m {
                assert(now.entries[i] == bucket.entries[i]);
                if i < m {
                    assert(bucket.entries[i].hash != bucket.entries[m].hash);
                } else {
                    assert(bucket.entries[m].hash != bucket.entries[i].hash);
                }
            }
        }
        assert(now.entries[0].hash != gone);
        assert(now.entries[1].hash != gone);
        assert(now.entries[2].hash != gone);
        assert(now.entries[3].hash != gone);
        assert(now.match_slot(gone) == 4);
        self.lemma_written_wf(before, hash, eval_bits, best_move_idx, depth_remaining, entry_type);
    }

    /// A write keeps the table in order.
    pub proof fn lemma_written_wf(
        &self,
        before: &Table,
        hash: u64,
        eval_bits: u32,
        best_move_idx: u8,
        depth_remaining: u8,
        entry_type: EntryType,
    )
        requires
            before.wf(),
            self.written_from(before, hash, eval_bits, best_move_idx, depth_remaining, entry_type),
        ensures
            self.wf(),
    {
        let target = before.spec_bucket_idx(hash);
        before.buckets@[target].lemma_oldest_slot(4);
        assert forall|b: int, i: int| 0 <= b < self.buckets@.len() && 0 <= i < 4 implies (
        #[trigger] self.buckets@[b].entries[i]).age_count <= self.age_count by {
            assert(before.buckets@[b].entries[i].age_count <= before.age_count);
        }
        assert forall|b: int, i: int|
            0 <= b < self.buckets@.len() && 0 <= i < 4 && (
            #[trigger] self.buckets@[b].entries[i]).spec_is_set() implies self.spec_bucket_idx(
            self.buckets@[b].entries[i].hash,
        ) == b by {
            if !(b == target && i == before.buckets@[b].write_slot(hash)) {
                assert(before.buckets@[b].entries[i].spec_is_set());
                assert(before.spec_bucket_idx(before.buckets@[b].entries[i].hash) == b);
            }
        }
    }

    /// The bucket that the hash `hash` belongs to.
    pub open spec fn spec_bucket_idx(&self, hash: u64) -> int {
        hash as int % self.buckets@.len() as int
    }

    /// What a reader finds under `hash`.
    pub open spec fn spec_get(&self, hash: u64) -> Entry {
        self.buckets@[self.spec_bucket_idx(hash)].lookup(hash)
    }

    /// A table of `size_mbs` million bytes with nothing stored.
    pub fn new(size_mbs: usize) -> (table: Table)
        requires
            1 <= size_mbs <= usize::MAX / 1_000_000,
        ensures
            table.wf(),
            table.size_mbs == size_mbs,
            table.age_count == 0,
            table.buckets@.len() == size_mbs * 1_000_000 / BUCKET_BYTES as int,
            forall|b: int, i: int|
                0 <= b < table.buckets@.len() && 0 <= i < 4
                    ==> #[trigger] table.buckets@[b].entries[i] == Entry::spec_new(),
    {
        let num_buckets = (size_mbs * 1_000_000) / BUCKET_BYTES;
        let mut buckets: Vec<Bucket> = Vec::with_capacity(num_buckets);
        let mut n: usize = 0;
        while n < num_buckets
            invariant
                n <= num_buckets,
                buckets@.len() == n,
                forall|b: int, i: int|
                    0 <= b < buckets@.len() && 0 <= i < 4 ==> #[trigger] buckets@[b].entries[i]
                        == Entry::spec_new(),
            decreases num_buckets - n,
        {
            let ghost filled = buckets@;
            let fresh = Bucket::new();
            buckets.push(fresh);
            proof {
                assert forall|b: int, i: int|
                    0 <= b < buckets@.len() && 0 <= i < 4 implies #[trigger] buckets@[b].entries[i]
                    == Entry::spec_new() by {
                    if b < filled.len() {
                        assert(buckets@[b] == filled[b]);
                        assert(filled[b].entries[i] == Entry::spec_new());
                    } else {
                        assert(buckets@[b] == fresh);
                        assert(fresh.entries[i] == Entry::spec_new());
                    }
                }
            }
            n += 1;
        }
        Table { buckets, age_count: 0, size_mbs }
    }

    /// The size that the table was made with, in million bytes.
    pub fn get_size_mbs(&self) -> (size_mbs: usize)
        ensures
            size_mbs == self.size_mbs,
    {
        self.size_mbs
    }

    /// Whether some entry of the table is torn.
    pub fn is_any_entry_locked(&self) -> (locked: bool)
        ensures
            locked == exists|b: int, i: int|
                0 <= b < self.buckets@.len() && 0 <= i < 4 && (#[trigger] self.buckets@[b].entries[i]).is_torn(),
    {
        let mut b: usize = 0;
        while b < self.buckets.len()
            invariant
                b <= self.buckets@.len(),
                forall|b2: int, i: int|
                    0 <= b2 < b && 0 <= i < 4 ==> !(#[trigger] self.buckets@[b2].entries[i]).is_torn(),
            decreases self.buckets@.len() - b,
        {
            let bucket = &self.buckets[b];
            let mut i: usize = 0;
            while i < ENTRIES_PER_BUCKET
                invariant
                    i <= 4,
                    b < self.buckets@.len(),
                    *bucket == self.buckets@[b as int],
                    forall|i2: int| 0 <= i2 < i ==> !(#[trigger] bucket.entries[i2]).is_torn(),
                decreases 4 - i,
            {
                let entry = &bucket.entries[i];
                if entry.is_set() && !entry.is_valid() {
                    assert(self.buckets@[b as int].entries[i as int].is_torn());
                    return true;
                }
                i += 1;
            }
            b += 1;
        }
        false
    }

    fn get_bucket_idx(&self, hash: u64) -> (idx: usize)
        requires
            self.wf(),
        ensures
            idx == self.spec_bucket_idx(hash),
            idx < self.buckets@.len(),
    {
        (hash % (self.buckets.len() as u64)) as usize
    }

    /// What is stored under `hash`: the first entry of its bucket with this
    /// hash. Where there is none, or where the entry found does not match
    /// its checksum, the empty entry is returned.
    pub fn get_fast(&self, hash: u64) -> (entry: Entry)
        requires
            self.wf(),
        ensures
            entry == self.spec_get(hash),
            !entry.is_torn(),
            entry.spec_is_set() ==> entry.hash == hash && entry.spec_is_valid(),
    {
        let bucket = &self.buckets[self.get_bucket_idx(hash)];
        let mut i: usize = 0;
        while i < ENTRIES_PER_BUCKET
            invariant
                i <= 4,
                self.wf(),
                *bucket == self.buckets@[self.spec_bucket_idx(hash)],
                forall|i2: int| 0 <= i2 < i ==> (#[trigger] bucket.entries[i2]).hash != hash,
            decreases 4 - i,
        {
            if bucket.entries[i].hash == hash {
                let found = bucket.entries[i];
                assert(bucket.match_slot(hash) == i) by {
                    assert(forall|i2: int| 0 <= i2 < i ==> (#[trigger] bucket.entries[i2]).hash != hash);
                }
                if found.is_set() && !found.is_valid() {
                    return Entry::new();
                }
                return found;
            }
            i += 1;
        }
        assert(bucket.match_slot(hash) == 4) by {
            assert(bucket.entries[0].hash != hash);
            assert(bucket.entries[1].hash != hash);
            assert(bucket.entries[2].hash != hash);
            assert(bucket.entries[3].hash != hash);
        }
        Entry::new()
    }

    /// Stores an entry under `hash`: in the slot of its bucket that holds
    /// this hash already, or else in the slot with the oldest entry. The
    /// entry gets the next age and the checksum of its fields.
    pub fn set(
        &mut self,
        hash: u64,
        eval_bits: u32,
        best_move_idx: u8,
        depth_remaining: u8,
        entry_type: EntryType,
    )
        requires
            old(self).wf(),
        ensures
            final(self).wf(),
            final(self).written_from(
                old(self),
                hash,
                eval_bits,
                best_move_idx,
                depth_remaining,
                entry_type,
            ),
            entry_type != EntryType::Invalid ==> final(self).spec_get(hash) == Self::stored_entry(
                hash,
                eval_bits,
                best_move_idx,
                depth_remaining,
                entry_type,
                final(self).age_count,
            ),
    {
        let bucket_idx = self.get_bucket_idx(hash);
        let mut bucket = self.buckets[bucket_idx];
        let ghost old_bucket = bucket;
        // The slot to write to: the one with this hash, or else the oldest.
        let mut replace_entry_idx: usize = 0;
        let mut oldest_entry_age = u64::MAX;
        let mut found = false;
        let mut i: usize = 0;
        while i < ENTRIES_PER_BUCKET && !found
            invariant
                i <= 4,
                bucket == old_bucket,
                replace_entry_idx < 4,
                !found ==> forall|i2: int|
                    0 <= i2 < i ==> (#[trigger] bucket.entries[i2]).hash != hash,
                !found && i >= 1 ==> replace_entry_idx == bucket.oldest_slot(i as int)
                    && oldest_entry_age == bucket.entries[replace_entry_idx as int].age_count,
                !found && i == 0 ==> replace_entry_idx == 0 && oldest_entry_age == u64::MAX,
                found ==> replace_entry_idx == bucket.match_slot(hash) && replace_entry_idx < 4,
            decreases 4 - i + (if found { 0int } else { 1int }),
        {
            let existing_entry = bucket.entries[i];
            if existing_entry.hash == hash {
                replace_entry_idx = i;
                found = true;
            } else {
                if existing_entry.age_count < oldest_entry_age || i == 0 {
                    oldest_entry_age = existing_entry.age_count;
                    replace_entry_idx = i;
                }
                i += 1;
            }
        }
        assert(replace_entry_idx == old_bucket.write_slot(hash));
        if self.age_count < u64::MAX {
            self.age_count += 1;
        }
        let mut entry = Entry {
            hash,
            eval_bits,
            best_move_idx,
            depth_remaining,
            entry_type,
            age_count: self.age_count,
            checksum: 0,
        };
        entry.update_checksum();
        bucket.entries[replace_entry_idx] = entry;
        self.buckets.set(bucket_idx, bucket);
        proof {
            let b = old(self).spec_bucket_idx(hash);
            assert(self.buckets@[b] == bucket);
            assert(bucket.match_slot(hash) == replace_entry_idx);
            assert(self.written_from(
                old(self),
                hash,
                eval_bits,
                best_move_idx,
                depth_remaining,
                entry_type,
            ));
            self.lemma_written_wf(
                old(self),
                hash,
                eval_bits,
                best_move_idx,
                depth_remaining,
                entry_type,
            );
        }
    }
}

} // verus!
