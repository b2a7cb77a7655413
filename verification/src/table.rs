use vstd::prelude::*;

verus! {

/// One slot of the memoization table: a position key and its packed payload,
/// two independently addressable fields.  The table is a value with
/// exclusive-access methods, so a stored pair is read back exactly (see
/// `lemma_cache_round_trip`); it never reads a key from one write paired
/// with data from another.
pub struct Entry {
    pub key: u64,
    pub data: u64,
}

/// The 64-bit avalanche mix applied to a position key: three rounds of
/// xor-shift and truncating multiplication by fixed constants.
pub open spec fn mix64(x: u64) -> u64 {
    let a = vstd::wrapping::u64_specs::wrapping_mul(x ^ (x >> 30), 0xbf58476d1ce4e5b9);
    let b = vstd::wrapping::u64_specs::wrapping_mul(a ^ (a >> 27), 0x94d049bb133111eb);
    b ^ (b >> 31)
}

/// Packs a score and a best column into one payload word: the column above
/// bit 24, the score's byte at bits 16 to 23.
pub open spec fn pack(score: i8, best_col: u32) -> u64 {
    ((best_col as u64) << 24) | (((score as u8) as u64) << 16)
}

/// The score byte of a payload word, read back as a signed value.
pub open spec fn unpack_score(data: u64) -> i8 {
    (((data >> 16) as u8) as i8)
}

/// The best-move column of a payload word.
pub open spec fn unpack_col(data: u64) -> u32 {
    (data >> 24) as u32
}

/// A payload whose column field names a real column.  (The score byte may
/// hold any i8; the solver's own invariant bounds the scores it stores.)
pub open spec fn entry_ok(data: u64) -> bool {
    data >> 24 < 7
}

/// A fixed-capacity array of entries mapping a position key to a cached
/// (score, best column) pair.  A store overwrites its slot unconditionally;
/// there is no collision chaining.
pub struct MemoTable {
    pub entries: Vec<Entry>,
}

impl MemoTable {
    /// The capacity is a nonzero power of two, so masking with
    /// `capacity - 1` is the index range reduction.
    pub open spec fn cap_ok(self) -> bool {
        &&& self.entries@.len() >= 1
        &&& self.entries@.len() <= usize::MAX
        &&& (self.entries@.len() as u64) & ((self.entries@.len() - 1) as u64) == 0
    }

    /// Every slot's payload names a real column.
    pub open spec fn wf(self) -> bool {
        &&& self.cap_ok()
        &&& forall|i: int| 0 <= i < self.entries@.len() ==> entry_ok(#[trigger] self.entries@[i].data)
    }

    /// The slot a key hashes to.
    pub open spec fn slot_of(self, key: u64) -> int {
        (mix64(key) & ((self.entries@.len() - 1) as u64)) as int
    }

    /// Creates a table of `capacity` zeroed slots; every slot is written
    /// before any search reads the table.
    pub fn new(capacity: usize) -> (t: MemoTable)
        requires
            capacity >= 1,
            (capacity as u64) & ((capacity as u64 - 1) as u64) == 0,
        ensures
            t.wf(),
            t.entries@.len() == capacity,
            forall|i: int|
                0 <= i < capacity ==> (#[trigger] t.entries@[i]).key == 0 && t.entries@[i].data
                    == 0,
    {
        proof {
            assert((((0u64 >> 16) as u8) as i8) == 0 && 0u64 >> 24 == 0) by (bit_vector);
        }
        let mut entries: Vec<Entry> = Vec::new();
        let mut i: usize = 0;
        while i < capacity
            invariant
                i <= capacity,
                entries@.len() == i,
                forall|j: int|
                    0 <= j < i ==> (#[trigger] entries@[j]).key == 0 && entries@[j].data == 0,
            decreases capacity - i,
        {
            entries.push(Entry { key: 0, data: 0 });
            i = i + 1;
        }
        MemoTable { entries }
    }

    /// Computes the slot of `key`: the avalanche mix masked into the index
    /// range.
    fn hash_index(&self, key: u64) -> (idx: usize)
        requires
            self.cap_ok(),
        ensures
            idx == self.slot_of(key),
            idx < self.entries@.len(),
    {
        let cap = self.entries.len();
        let index_mask = (cap - 1) as u64;
        let mut x = key;
        x = (x ^ (x >> 30)).wrapping_mul(0xbf58476d1ce4e5b9);
        x = (x ^ (x >> 27)).wrapping_mul(0x94d049bb133111eb);
        x = x ^ (x >> 31);
        proof {
            assert(x & index_mask <= index_mask) by (bit_vector);
        }
        (x & index_mask) as usize
    }

    /// Writes `key` and the packed pair into the key's slot, discarding
    /// whatever was there.
    pub fn store(&mut self, key: u64, score: i8, best_col: u32)
        requires
            old(self).wf(),
            best_col < 7,
        ensures
            final(self).wf(),
            final(self).entries@.len() == old(self).entries@.len(),
            final(self).entries@[old(self).slot_of(key)].key == key,
            final(self).entries@[old(self).slot_of(key)].data == pack(score, best_col),
            forall|i: int|
                0 <= i < old(self).entries@.len() && i != old(self).slot_of(key)
                    ==> final(self).entries@[i] == old(self).entries@[i],
    {
        let idx = self.hash_index(key);
        let data = ((best_col as u64) << 24) | (((score as u8) as u64) << 16);
        proof {
            lemma_pack_ok(score, best_col);
        }
        self.entries[idx].key = key;
        self.entries[idx].data = data;
    }

    /// Reads the key's slot: the stored pair when the keys match, a miss
    /// otherwise.
    pub fn lookup(&self, key: u64) -> (r: (Option<i8>, Option<u32>))
        requires
            self.wf(),
        ensures
            0 <= self.slot_of(key) < self.entries@.len(),
            self.entries@[self.slot_of(key)].key == key ==> r == (
                Some(unpack_score(self.entries@[self.slot_of(key)].data)),
                Some(unpack_col(self.entries@[self.slot_of(key)].data)),
            ),
            self.entries@[self.slot_of(key)].key != key ==> r == (None::<i8>, None::<u32>),
    {
        let idx = self.hash_index(key);
        if self.entries[idx].key == key {
            let data = self.entries[idx].data;
            (Some(((data >> 16) as u8) as i8), Some((data >> 24) as u32))
        } else {
            (None, None)
        }
    }
}

/// Every key's slot lies inside the table.
pub proof fn lemma_slot_in_range(t: MemoTable, key: u64)
    requires
        t.cap_ok(),
    ensures
        0 <= t.slot_of(key) < t.entries@.len(),
{
    let capm1 = (t.entries@.len() - 1) as u64;
    let x = mix64(key);
    assert(x & capm1 <= capm1) by (bit_vector);
}

/// Packing any score with a real column gives a payload that decodes back
/// to exactly that pair.
pub proof fn lemma_pack_ok(score: i8, best_col: u32)
    by (bit_vector)
    requires
        best_col < 7,
    ensures
        unpack_score(pack(score, best_col)) == score,
        unpack_col(pack(score, best_col)) == best_col,
        pack(score, best_col) >> 24 < 7,
{
}

/// Cache round-trip law: a `store` of `(key, score, best_col)` followed by a
/// `lookup` of `key`, with no intervening write to that slot, finds the key
/// and decodes exactly the stored pair.  The requires are precisely what
/// `store`'s ensures give for the stored slot.
pub proof fn lemma_cache_round_trip(
    t0: MemoTable,
    t1: MemoTable,
    key: u64,
    score: i8,
    best_col: u32,
)
    requires
        best_col < 7,
        t1.entries@.len() == t0.entries@.len(),
        t1.entries@[t0.slot_of(key)].key == key,
        t1.entries@[t0.slot_of(key)].data == pack(score, best_col),
    ensures
        t1.slot_of(key) == t0.slot_of(key),
        t1.entries@[t1.slot_of(key)].key == key,
        unpack_score(t1.entries@[t1.slot_of(key)].data) == score,
        unpack_col(t1.entries@[t1.slot_of(key)].data) == best_col,
{
    lemma_pack_ok(score, best_col);
}

} // verus!
