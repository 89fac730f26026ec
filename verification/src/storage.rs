//! The local store: values under keys, each with the time at which it expires.

use vstd::bytes::{
    lemma_auto_spec_u64_to_from_le_bytes, spec_u64_from_le_bytes, spec_u64_to_le_bytes,
    u64_from_le_bytes, u64_to_le_bytes,
};
use vstd::prelude::*;
use vstd::slice::{slice_subrange, slice_to_vec};

verus! {

/// The time, in seconds, for which a store keeps a value unless told
/// otherwise: one day.
pub const DEFAULT_TTL: u64 = 86400;

/// The time at which a value stored at `now` for `ttl` seconds expires. Times
/// are 64-bit, and a sum beyond them is the last time there is.
pub open spec fn expiry_at(now: u64, ttl: u64) -> u64 {
    if now + ttl > u64::MAX {
        u64::MAX
    } else {
        (now + ttl) as u64
    }
}

/// What a store holds: for each key a value and the time it expires.
pub type Entries = Map<Seq<u8>, (Seq<u8>, u64)>;

/// The value that `key` gives at the time `now`: the one stored under it, as
/// long as it has not expired.
pub open spec fn live_value(entries: Entries, key: Seq<u8>, now: u64) -> Option<Seq<u8>> {
    if entries.dom().contains(key) && now < entries[key].1 {
        Some(entries[key].0)
    } else {
        None
    }
}

/// The entries that have not expired at the time `now`.
pub open spec fn swept(entries: Entries, now: u64) -> Entries {
    Map::new(|k: Seq<u8>| entries.dom().contains(k) && now < entries[k].1, |k: Seq<u8>| entries[k])
}

/// Whether two byte strings are equal.
pub fn bytes_equal(a: &[u8], b: &[u8]) -> (r: bool)
    ensures
        r == (a@ == b@),
{
    if a.len() != b.len() {
        return false;
    }
    let mut i: usize = 0;
    while i < a.len()
        invariant
            i <= a@.len(),
            a@.len() == b@.len(),
            forall|j: int| 0 <= j < i ==> a@[j] == b@[j],
        decreases a@.len() - i,
    {
        if a[i] != b[i] {
            return false;
        }
        i += 1;
    }
    assert(a@ =~= b@);
    true
}

struct Slot {
    key: Vec<u8>,
    value: Vec<u8>,
    expiry: u64,
}

spec fn has_key(s: Seq<Slot>, k: Seq<u8>) -> bool {
    exists|i: int| 0 <= i < s.len() && (#[trigger] s[i]).key@ == k
}

spec fn key_index(s: Seq<Slot>, k: Seq<u8>) -> int {
    choose|i: int| 0 <= i < s.len() && (#[trigger] s[i]).key@ == k
}

spec fn distinct_keys(s: Seq<Slot>) -> bool {
    forall|i: int, j: int| 0 <= i < j < s.len() ==> (#[trigger] s[i]).key@ != (#[trigger] s[j]).key@
}

spec fn slots_map(s: Seq<Slot>) -> Entries {
    Map::new(
        |k: Seq<u8>| has_key(s, k),
        |k: Seq<u8>| (s[key_index(s, k)].value@, s[key_index(s, k)].expiry),
    )
}

proof fn lemma_slot_at(s: Seq<Slot>, i: int)
    requires
        distinct_keys(s),
        0 <= i < s.len(),
    ensures
        has_key(s, s[i].key@),
        key_index(s, s[i].key@) == i,
        slots_map(s).dom().contains(s[i].key@),
        slots_map(s)[s[i].key@] == (s[i].value@, s[i].expiry),
{
    let k = s[i].key@;
    let j = key_index(s, k);
    if j < i {
        assert(s[j].key@ != s[i].key@);
    } else if i < j {
        assert(s[i].key@ != s[j].key@);
    }
}

/// Values under keys, each kept until its time to live has passed.
pub struct Store {
    slots: Vec<Slot>,
    ttl: u64,
}

impl View for Store {
    type V = Entries;

    closed spec fn view(&self) -> Entries {
        slots_map(self.slots@)
    }
}

impl Store {
    /// The time to live that `insert` gives a value, in seconds.
    pub closed spec fn ttl(&self) -> u64 {
        self.ttl
    }

    /// No key is held twice.
    pub closed spec fn wf(&self) -> bool {
        distinct_keys(self.slots@)
    }

    /// An empty store that keeps values for a day.
    pub fn new() -> (s: Store)
        ensures
            s.wf(),
            s@ == Entries::empty(),
            s.ttl() == DEFAULT_TTL,
    {
        Store::with_ttl(DEFAULT_TTL)
    }

    /// An empty store that keeps values for `ttl` seconds.
    pub fn with_ttl(ttl: u64) -> (s: Store)
        ensures
            s.wf(),
            s@ == Entries::empty(),
            s.ttl() == ttl,
    {
        let s = Store { slots: Vec::new(), ttl };
        assert(s@ =~= Entries::empty());
        s
    }

    fn position(&self, key: &[u8]) -> (r: Option<usize>)
        ensures
            match r {
                Some(i) => i < self.slots@.len() && self.slots@[i as int].key@ == key@,
                None => !has_key(self.slots@, key@),
            },
    {
        let n = self.slots.len();
        let mut i: usize = 0;
        while i < n
            invariant
                i <= n,
                n == self.slots@.len(),
                forall|j: int| 0 <= j < i ==> (#[trigger] self.slots@[j]).key@ != key@,
            decreases n - i,
        {
            if bytes_equal(self.slots[i].key.as_slice(), key) {
                return Some(i);
            }
            i += 1;
        }
        None
    }

    /// Puts `value` under `key` at the time `now`, for `ttl` seconds, in
    /// place of whatever the key held.
    pub fn store(&mut self, key: Vec<u8>, value: Vec<u8>, ttl: u64, now: u64)
        requires
            old(self).wf(),
        ensures
            final(self).wf(),
            final(self).ttl() == old(self).ttl(),
            final(self)@ == old(self)@.insert(key@, (value@, expiry_at(now, ttl))),
    {
        let expiry = if now > u64::MAX - ttl {
            u64::MAX
        } else {
            now + ttl
        };
        let ghost k = key@;
        let ghost v = (value@, expiry);
        let ghost before = self.slots@;
        match self.position(key.as_slice()) {
            Some(i) => {
                self.slots[i] = Slot { key, value, expiry };
                proof {
                    let after = self.slots@;
                    assert(after =~= before.update(i as int, after[i as int]));
                    assert forall|a: int, b: int| 0 <= a < b < after.len() implies (
                    #[trigger] after[a]).key@ != (#[trigger] after[b]).key@ by {
                        assert(after[a].key@ == before[a].key@);
                        assert(after[b].key@ == before[b].key@);
                    }
                    assert forall|x: Seq<u8>|
                        slots_map(after).dom().contains(x) <==> slots_map(before).insert(
                            k,
                            v,
                        ).dom().contains(x) by {
                        if has_key(after, x) {
                            let j = key_index(after, x);
                            assert(before[j].key@ == x);
                        }
                        if has_key(before, x) {
                            let j = key_index(before, x);
                            assert(after[j].key@ == x);
                        }
                        if x == k {
                            assert(after[i as int].key@ == x);
                        }
                    }
                    assert forall|x: Seq<u8>| slots_map(after).dom().contains(x) implies slots_map(
                        after,
                    )[x] == slots_map(before).insert(k, v)[x] by {
                        let j = key_index(after, x);
                        lemma_slot_at(after, j);
                        if x != k {
                            assert(before[j].key@ == x);
                            lemma_slot_at(before, j);
                        } else {
                            lemma_slot_at(after, i as int);
                        }
                    }
                    assert(slots_map(after) =~= slots_map(before).insert(k, v));
                }
            },
            None => {
                self.slots.push(Slot { key, value, expiry });
                proof {
                    let after = self.slots@;
                    let n = before.len() as int;
                    assert forall|a: int, b: int| 0 <= a < b < after.len() implies (
                    #[trigger] after[a]).key@ != (#[trigger] after[b]).key@ by {
                        assert(after[a] == before[a]);
                        if b < n {
                            assert(after[b] == before[b]);
                        }
                    }
                    assert forall|x: Seq<u8>|
                        slots_map(after).dom().contains(x) <==> slots_map(before).insert(
                            k,
                            v,
                        ).dom().contains(x) by {
                        if has_key(after, x) {
                            let j = key_index(after, x);
                            if j < n {
                                assert(before[j].key@ == x);
                            }
                        }
                        if has_key(before, x) {
                            let j = key_index(before, x);
                            assert(after[j].key@ == x);
                        }
                        if x == k {
                            assert(after[n].key@ == x);
                        }
                    }
                    assert forall|x: Seq<u8>| slots_map(after).dom().contains(x) implies slots_map(
                        after,
                    )[x] == slots_map(before).insert(k, v)[x] by {
                        let j = key_index(after, x);
                        lemma_slot_at(after, j);
                        if x != k {
                            assert(before[j] == after[j]);
                            lemma_slot_at(before, j);
                        } else {
                            lemma_slot_at(after, n);
                        }
                    }
                    assert(slots_map(after) =~= slots_map(before).insert(k, v));
                }
            },
        }
    }

    /// Puts `value` under `key` at the time `now`, for the store's own time
    /// to live.
    pub fn insert(&mut self, key: Vec<u8>, value: Vec<u8>, now: u64)
        requires
            old(self).wf(),
        ensures
            final(self).wf(),
            final(self).ttl() == old(self).ttl(),
            final(self)@ == old(self)@.insert(key@, (value@, expiry_at(now, old(self).ttl()))),
    {
        let ttl = self.ttl;
        self.store(key, value, ttl, now)
    }

    /// The value under `key` at the time `now`: the one stored, unless it has
    /// expired or there is none. The store itself is not changed.
    pub fn get(&self, key: &[u8], now: u64) -> (r: Option<&Vec<u8>>)
        requires
            self.wf(),
        ensures
            match r {
                Some(v) => live_value(self@, key@, now) == Some(v@),
                None => live_value(self@, key@, now) is None,
            },
    {
        match self.position(key) {
            Some(i) => {
                proof {
                    lemma_slot_at(self.slots@, i as int);
                }
                if now < self.slots[i].expiry {
                    Some(&self.slots[i].value)
                } else {
                    None
                }
            },
            None => None,
        }
    }

    /// Drops every entry that has expired at the time `now`.
    pub fn cleanup(&mut self, now: u64)
        requires
            old(self).wf(),
        ensures
            final(self).wf(),
            final(self).ttl() == old(self).ttl(),
            final(self)@ == swept(old(self)@, now),
    {
        let ghost before = self.slots@;
        let n = self.slots.len();
        let mut kept: Vec<Slot> = Vec::new();
        let ghost mut src: Seq<int> = Seq::empty();
        let mut m: usize = n;
        while m > 0
            invariant
                m <= n,
                n == before.len(),
                self.slots@ =~= before.take(m as int),
                src.len() == kept@.len(),
                forall|j: int|
                    0 <= j < src.len() ==> m <= #[trigger] src[j] < n && kept@[j] == before[src[j]]
                        && now < kept@[j].expiry,
                forall|a: int, b: int|
                    0 <= a < b < src.len() ==> #[trigger] src[a] != #[trigger] src[b],
                forall|idx: int|
                    m <= idx < n && now < (#[trigger] before[idx]).expiry ==> src.contains(idx),
                self.ttl == old(self).ttl,
            decreases m,
        {
            let slot = self.slots.pop().unwrap();
            m -= 1;
            assert(slot == before[m as int]);
            if now < slot.expiry {
                let ghost src_before = src;
                kept.push(slot);
                proof {
                    src = src.push(m as int);
                    assert(src[src_before.len() as int] == m);
                    assert forall|idx: int|
                        m <= idx < n && now < (#[trigger] before[idx]).expiry implies src.contains(
                        idx,
                    ) by {
                        if idx != m {
                            let j = choose|j: int|
                                0 <= j < src_before.len() && src_before[j] == idx;
                            assert(src[j] == idx);
                        }
                    }
                }
            }
        }
        proof {
            lemma_swept(before, kept@, src, now);
        }
        self.slots = kept;
    }

    /// The entries that have not expired at the time `now`, each key with
    /// its value, no key twice.
    pub fn live_entries(&self, now: u64) -> (r: Vec<(Vec<u8>, Vec<u8>)>)
        requires
            self.wf(),
        ensures
            forall|i: int|
                0 <= i < r@.len() ==> live_value(self@, (#[trigger] r@[i]).0@, now) == Some(
                    r@[i].1@,
                ),
            forall|key: Seq<u8>|
                live_value(self@, key, now) is Some ==> exists|i: int|
                    0 <= i < r@.len() && (#[trigger] r@[i]).0@ == key,
            forall|i: int, j: int|
                0 <= i < j < r@.len() ==> (#[trigger] r@[i]).0@ != (#[trigger] r@[j]).0@,
    {
        let mut out: Vec<(Vec<u8>, Vec<u8>)> = Vec::new();
        let ghost mut src: Seq<int> = Seq::empty();
        let n = self.slots.len();
        let mut i: usize = 0;
        while i < n
            invariant
                i <= n,
                n == self.slots@.len(),
                distinct_keys(self.slots@),
                out@.len() == src.len(),
                forall|j: int|
                    0 <= j < src.len() ==> 0 <= #[trigger] src[j] < i && out@[j].0@
                        == self.slots@[src[j]].key@ && out@[j].1@ == self.slots@[src[j]].value@
                        && now < self.slots@[src[j]].expiry,
                forall|a: int, b: int| 0 <= a < b < src.len() ==> #[trigger] src[a] < #[trigger] src[b],
                forall|idx: int|
                    0 <= idx < i && now < (#[trigger] self.slots@[idx]).expiry ==> src.contains(
                        idx,
                    ),
            decreases n - i,
        {
            if now < self.slots[i].expiry {
                let mut key: Vec<u8> = Vec::new();
                append_bytes(&mut key, self.slots[i].key.as_slice());
                let mut value: Vec<u8> = Vec::new();
                append_bytes(&mut value, self.slots[i].value.as_slice());
                let ghost src_before = src;
                out.push((key, value));
                proof {
                    src = src.push(i as int);
                    assert(key@ =~= self.slots@[i as int].key@);
                    assert(value@ =~= self.slots@[i as int].value@);
                    assert(src[src_before.len() as int] == i);
                    assert forall|idx: int|
                        0 <= idx < i + 1 && now < (#[trigger] self.slots@[idx]).expiry implies src.contains(
                        idx,
                    ) by {
                        if idx != i {
                            let j = choose|j: int|
                                0 <= j < src_before.len() && src_before[j] == idx;
                            assert(src[j] == idx);
                        }
                    }
                }
            }
            i += 1;
        }
        proof {
            let slots = self.slots@;
            assert forall|j: int| 0 <= j < out@.len() implies live_value(
                self@,
                (#[trigger] out@[j]).0@,
                now,
            ) == Some(out@[j].1@) by {
                lemma_slot_at(slots, src[j]);
            }
            assert forall|key: Seq<u8>| live_value(self@, key, now) is Some implies exists|j: int|
                0 <= j < out@.len() && (#[trigger] out@[j]).0@ == key by {
                let idx = key_index(slots, key);
                lemma_slot_at(slots, idx);
                assert(src.contains(idx));
                let j = choose|j: int| 0 <= j < src.len() && src[j] == idx;
                assert(out@[j].0@ == key);
            }
            assert forall|a: int, b: int| 0 <= a < b < out@.len() implies (
            #[trigger] out@[a]).0@ != (#[trigger] out@[b]).0@ by {
                assert(src[a] < src[b]);
                assert(slots[src[a]].key@ != slots[src[b]].key@);
            }
        }
        out
    }

    /// The number of entries held, expired ones included.
    pub fn len(&self) -> (n: usize)
        requires
            self.wf(),
        ensures
            n == self@.dom().len(),
            self@.dom().finite(),
    {
        proof {
            lemma_slots_len(self.slots@);
        }
        self.slots.len()
    }
}

proof fn lemma_swept(before: Seq<Slot>, after: Seq<Slot>, src: Seq<int>, now: u64)
    requires
        distinct_keys(before),
        src.len() == after.len(),
        forall|j: int|
            0 <= j < src.len() ==> 0 <= #[trigger] src[j] < before.len() && after[j]
                == before[src[j]] && now < after[j].expiry,
        forall|a: int, b: int| 0 <= a < b < src.len() ==> #[trigger] src[a] != #[trigger] src[b],
        forall|idx: int|
            0 <= idx < before.len() && now < (#[trigger] before[idx]).expiry ==> src.contains(idx),
    ensures
        distinct_keys(after),
        slots_map(after) == swept(slots_map(before), now),
{
    assert forall|a: int, b: int| 0 <= a < b < after.len() implies (#[trigger] after[a]).key@ != (
    #[trigger] after[b]).key@ by {
        let ia = src[a];
        let ib = src[b];
        if after[a].key@ == after[b].key@ {
            lemma_slot_at(before, ia);
            lemma_slot_at(before, ib);
            assert(ia == ib);
        }
    }
    assert forall|x: Seq<u8>|
        slots_map(after).dom().contains(x) <==> swept(slots_map(before), now).dom().contains(
            x,
        ) by {
        if has_key(after, x) {
            let j = key_index(after, x);
            lemma_slot_at(before, src[j]);
        }
        if has_key(before, x) && now < slots_map(before)[x].1 {
            let idx = key_index(before, x);
            lemma_slot_at(before, idx);
            assert(src.contains(idx));
            let j = choose|j: int| 0 <= j < src.len() && src[j] == idx;
            assert(after[j].key@ == x);
        }
    }
    assert forall|x: Seq<u8>| slots_map(after).dom().contains(x) implies slots_map(after)[x]
        == swept(slots_map(before), now)[x] by {
        let j = key_index(after, x);
        lemma_slot_at(after, j);
        lemma_slot_at(before, src[j]);
    }
    assert(slots_map(after) =~= swept(slots_map(before), now));
}

proof fn lemma_slots_len(s: Seq<Slot>)
    requires
        distinct_keys(s),
    ensures
        slots_map(s).dom().finite(),
        slots_map(s).dom().len() == s.len(),
    decreases s.len(),
{
    if s.len() == 0 {
        assert(slots_map(s).dom() =~= Set::<Seq<u8>>::empty());
    } else {
        let p = s.drop_last();
        let last = s.last();
        assert forall|i: int, j: int| 0 <= i < j < p.len() implies (#[trigger] p[i]).key@ != (
        #[trigger] p[j]).key@ by {
            assert(p[i] == s[i]);
            assert(p[j] == s[j]);
        }
        lemma_slots_len(p);
        assert(!has_key(p, last.key@)) by {
            if has_key(p, last.key@) {
                let i = key_index(p, last.key@);
                assert(p[i] == s[i]);
                assert(s[i].key@ != s[s.len() - 1].key@);
            }
        }
        assert(slots_map(s).dom() =~= slots_map(p).dom().insert(last.key@)) by {
            assert forall|x: Seq<u8>|
                slots_map(s).dom().contains(x) <==> slots_map(p).dom().insert(last.key@).contains(
                    x,
                ) by {
                if has_key(s, x) {
                    let i = key_index(s, x);
                    if i < p.len() {
                        assert(p[i].key@ == x);
                    }
                }
                if has_key(p, x) {
                    let i = key_index(p, x);
                    assert(s[i].key@ == x);
                }
                if x == last.key@ {
                    assert(s[s.len() - 1].key@ == x);
                }
            }
        }
    }
}


/// A value stored at some time for `ttl` seconds is given back at every time
/// before its expiry, and at no time from its expiry on; a sweep at or after
/// its expiry drops it, and an earlier sweep keeps it.
pub proof fn stored_value_lives_until_expiry(
    entries: Entries,
    key: Seq<u8>,
    value: Seq<u8>,
    ttl: u64,
    stored_at: u64,
    now: u64,
)
    ensures
        ({
            let expiry = expiry_at(stored_at, ttl);
            let after = entries.insert(key, (value, expiry));
            &&& now < expiry ==> live_value(after, key, now) == Some(value)
            &&& now >= expiry ==> live_value(after, key, now) is None
            &&& now < expiry ==> swept(after, now).dom().contains(key) && swept(after, now)[key]
                == (value, expiry)
            &&& now >= expiry ==> !swept(after, now).dom().contains(key)
        }),
{
}

/// A sweep drops nothing that a lookup at the same time would still give,
/// and changes no lookup at that time or later.
pub proof fn sweep_keeps_live_values(entries: Entries, key: Seq<u8>, swept_at: u64, now: u64)
    requires
        swept_at <= now,
    ensures
        live_value(swept(entries, swept_at), key, now) == live_value(entries, key, now),
{
}

/// The time at which a value stored at `now` for `ttl` seconds expires.
pub fn expiry_after(now: u64, ttl: u64) -> (expiry: u64)
    ensures
        expiry == expiry_at(now, ttl),
{
    if now > u64::MAX - ttl {
        u64::MAX
    } else {
        now + ttl
    }
}

/// Appends the bytes of `src` to `out`.
pub fn append_bytes(out: &mut Vec<u8>, src: &[u8])
    ensures
        final(out)@ == old(out)@ + src@,
{
    let mut i: usize = 0;
    while i < src.len()
        invariant
            i <= src@.len(),
            out@ == old(out)@ + src@.take(i as int),
        decreases src@.len() - i,
    {
        out.push(src[i]);
        assert(src@.take(i + 1) =~= src@.take(i as int).push(src@[i as int]));
        i += 1;
    }
    assert(src@.take(src@.len() as int) =~= src@);
}

/// The record that a durable backing keeps for a value: the expiry time in
/// eight bytes, least significant first, and then the value.
pub open spec fn framed(value: Seq<u8>, expiry: u64) -> Seq<u8> {
    spec_u64_to_le_bytes(expiry) + value
}

/// The expiry time and the value in a record; none in a record too short to
/// hold an expiry time.
pub open spec fn unframed(record: Seq<u8>) -> Option<(u64, Seq<u8>)> {
    if record.len() < 8 {
        None
    } else {
        Some((spec_u64_from_le_bytes(record.take(8)), record.skip(8)))
    }
}

/// A record gives back the expiry time and the value it was made of.
pub proof fn unframed_of_framed(value: Seq<u8>, expiry: u64)
    ensures
        unframed(framed(value, expiry)) == Some((expiry, value)),
{
    lemma_auto_spec_u64_to_from_le_bytes();
    let record = framed(value, expiry);
    assert(record.take(8) =~= spec_u64_to_le_bytes(expiry));
    assert(record.skip(8) =~= value);
}

/// Makes the record of `value` with the expiry time `expiry`.
pub fn frame_entry(value: &[u8], expiry: u64) -> (record: Vec<u8>)
    ensures
        record@ == framed(value@, expiry),
{
    let mut record = u64_to_le_bytes(expiry);
    append_bytes(&mut record, value);
    record
}

/// Takes a record apart into its expiry time and its value.
pub fn unframe_entry(record: &[u8]) -> (r: Option<(u64, Vec<u8>)>)
    ensures
        match r {
            Some((expiry, value)) => unframed(record@) == Some((expiry, value@)),
            None => unframed(record@) is None,
        },
{
    if record.len() < 8 {
        return None;
    }
    let expiry = u64_from_le_bytes(slice_subrange(record, 0, 8));
    let value = slice_to_vec(slice_subrange(record, 8, record.len()));
    assert(record@.subrange(0, 8) =~= record@.take(8));
    assert(record@.subrange(8, record@.len() as int) =~= record@.skip(8));
    Some((expiry, value))
}

/// The value that a record gives at the time `now`: the one in it, unless
/// the record is too short or has expired.
pub fn read_entry(record: &[u8], now: u64) -> (r: Option<Vec<u8>>)
    ensures
        match r {
            Some(value) => unframed(record@) matches Some((expiry, v)) && v == value@ && now
                < expiry,
            None => unframed(record@) matches Some((expiry, v)) ==> now >= expiry,
        },
{
    match unframe_entry(record) {
        Some((expiry, value)) => {
            if now < expiry {
                Some(value)
            } else {
                None
            }
        },
        None => None,
    }
}

/// Whether a sweep at the time `now` drops a record: it does where the
/// record holds an expiry time that has passed.
pub fn entry_expired(record: &[u8], now: u64) -> (r: bool)
    ensures
        r == (unframed(record@) matches Some((expiry, v)) && expiry <= now),
{
    if record.len() < 8 {
        return false;
    }
    let expiry = u64_from_le_bytes(slice_subrange(record, 0, 8));
    assert(record@.subrange(0, 8) =~= record@.take(8));
    expiry <= now
}

} // verus!
