//! The expiring key-value store.

use std::time::{Duration, Instant};
use vstd::prelude::*;
use vstd::slice::slice_to_vec;

verus! {

/// What a stored entry holds, as mathematical values.
pub struct ItemView {
    pub value: Seq<u8>,
    pub created: nat,
    pub expires: nat,
}

/// Whether an entry written at `item.created` with a time-to-live of
/// `item.expires` milliseconds (0: none) has expired at `now`: strictly more
/// than the time-to-live has passed.
pub open spec fn is_expired(item: ItemView, now: nat) -> bool {
    item.expires > 0 && now - item.created > item.expires
}

/// What a read of `key` at `now` finds in `m`: the entry, unless it has expired.
pub open spec fn lookup(m: Map<Seq<char>, ItemView>, key: Seq<char>, now: nat) -> Option<ItemView> {
    if m.contains_key(key) && !is_expired(m[key], now) {
        Some(m[key])
    } else {
        None
    }
}

/// `m` without the entries that have expired at `now`.
pub open spec fn sweep(m: Map<Seq<char>, ItemView>, now: nat) -> Map<Seq<char>, ItemView> {
    Map::new(|key: Seq<char>| m.contains_key(key) && !is_expired(m[key], now), |key: Seq<char>| m[key])
}

/// `m` after `value` was written under `key` at `now` with a time-to-live of
/// `expires` milliseconds.
pub open spec fn put(
    m: Map<Seq<char>, ItemView>,
    key: Seq<char>,
    value: Seq<u8>,
    expires: nat,
    now: nat,
) -> Map<Seq<char>, ItemView> {
    m.insert(key, ItemView { value, created: now, expires })
}

/// Two mappings give the same reads at every time from `from` on.
pub open spec fn reads_agree(
    a: Map<Seq<char>, ItemView>,
    b: Map<Seq<char>, ItemView>,
    from: nat,
) -> bool {
    forall|key: Seq<char>, now: nat|
        from <= now ==> #[trigger] lookup(a, key, now) == #[trigger] lookup(b, key, now)
}

/// A value written with a time-to-live is read back for as long as no more than
/// the time-to-live has passed since the write, the last such moment included,
/// and is absent from then on.
pub proof fn lemma_read_until_expiry(
    m: Map<Seq<char>, ItemView>,
    key: Seq<char>,
    value: Seq<u8>,
    expires: nat,
    written: nat,
    now: nat,
)
    requires
        expires > 0,
    ensures
        now - written <= expires ==> lookup(put(m, key, value, expires, written), key, now) == Some(
            ItemView { value, created: written, expires },
        ),
        now - written > expires ==> lookup(put(m, key, value, expires, written), key, now) is None,
{
}

/// A value written without a time-to-live is read back at every time.
pub proof fn lemma_read_without_expiry(
    m: Map<Seq<char>, ItemView>,
    key: Seq<char>,
    value: Seq<u8>,
    written: nat,
    now: nat,
)
    ensures
        lookup(put(m, key, value, 0, written), key, now) == Some(
            ItemView { value, created: written, expires: 0 },
        ),
{
}

/// A write replaces what an earlier write under the same key left, its
/// time-to-live included.
pub proof fn lemma_overwrite(
    m: Map<Seq<char>, ItemView>,
    key: Seq<char>,
    first: ItemView,
    value: Seq<u8>,
    expires: nat,
    written: nat,
)
    ensures
        put(put(m, key, first.value, first.expires, first.created), key, value, expires, written)
            == put(m, key, value, expires, written),
{
    assert(put(put(m, key, first.value, first.expires, first.created), key, value, expires, written)
        =~= put(m, key, value, expires, written));
}

/// A write without a time-to-live over an entry that had one takes the
/// time-to-live away: the new value is read back at every time.
pub proof fn lemma_overwrite_without_expiry(
    m: Map<Seq<char>, ItemView>,
    key: Seq<char>,
    first: ItemView,
    value: Seq<u8>,
    written: nat,
    now: nat,
)
    ensures
        lookup(
            put(put(m, key, first.value, first.expires, first.created), key, value, 0, written),
            key,
            now,
        ) == Some(ItemView { value, created: written, expires: 0 }),
{
}

/// A write leaves the reads of every other key as they were.
pub proof fn lemma_other_keys_untouched(
    m: Map<Seq<char>, ItemView>,
    key: Seq<char>,
    value: Seq<u8>,
    expires: nat,
    written: nat,
    other: Seq<char>,
    now: nat,
)
    requires
        other != key,
    ensures
        lookup(put(m, key, value, expires, written), other, now) == lookup(m, other, now),
{
}

/// A sweep changes no read that is made at or after the time of the sweep.
pub proof fn lemma_sweep_keeps_reads(m: Map<Seq<char>, ItemView>, swept: nat)
    ensures
        reads_agree(sweep(m, swept), m, swept),
{
}

/// Stores that give the same reads still do so after the same write to both.
pub proof fn lemma_put_keeps_agreement(
    a: Map<Seq<char>, ItemView>,
    b: Map<Seq<char>, ItemView>,
    from: nat,
    key: Seq<char>,
    value: Seq<u8>,
    expires: nat,
    written: nat,
)
    requires
        reads_agree(a, b, from),
    ensures
        reads_agree(
            put(a, key, value, expires, written),
            put(b, key, value, expires, written),
            from,
        ),
{
    let pa = put(a, key, value, expires, written);
    let pb = put(b, key, value, expires, written);
    assert forall|k: Seq<char>, now: nat| from <= now implies #[trigger] lookup(pa, k, now)
        == #[trigger] lookup(pb, k, now) by {
        if k != key {
            assert(lookup(a, k, now) == lookup(b, k, now));
        }
    }
}

/// Stores that give the same reads still do so after a later sweep of both.
pub proof fn lemma_sweep_keeps_agreement(
    a: Map<Seq<char>, ItemView>,
    b: Map<Seq<char>, ItemView>,
    from: nat,
    swept: nat,
)
    requires
        reads_agree(a, b, from),
        from <= swept,
    ensures
        reads_agree(sweep(a, swept), sweep(b, swept), from),
{
    let sa = sweep(a, swept);
    let sb = sweep(b, swept);
    assert forall|k: Seq<char>, now: nat| from <= now implies #[trigger] lookup(sa, k, now)
        == #[trigger] lookup(sb, k, now) by {
        assert(lookup(a, k, swept) == lookup(b, k, swept));
        assert(lookup(a, k, now) == lookup(b, k, now));
    }
}

/// A stored value with the time it was written and its time-to-live.
#[derive(Debug, PartialEq, Eq)]
pub struct Item {
    pub value: Vec<u8>,
    /// Milliseconds on the store's clock at which the entry was written.
    pub created: u128,
    /// Time-to-live in milliseconds; 0 means that the entry never expires.
    pub expires: usize,
}

impl View for Item {
    type V = ItemView;

    open spec fn view(&self) -> ItemView {
        ItemView { value: self.value@, created: self.created as nat, expires: self.expires as nat }
    }
}

impl Item {
    /// Whether the entry has expired at `now`.
    pub fn is_expired(&self, now: u128) -> (expired: bool)
        ensures
            expired == is_expired(self@, now as nat),
    {
        self.expires > 0 && now > self.created && now - self.created > self.expires as u128
    }
}

/// `std::time::Instant`: a reading of the monotonic clock, of which nothing is
/// known here.
#[verifier::external_type_specification]
#[verifier::external_body]
pub struct ExInstant(Instant);

/// `Instant::now` reads the monotonic clock; nothing is claimed of the reading.
pub assume_specification[ Instant::now ]() -> (t: Instant);

/// `Instant::elapsed` is the time that has passed since the instant was taken;
/// nothing is claimed of it.
pub assume_specification[ Instant::elapsed ](t: &Instant) -> (d: Duration);

/// `Duration::as_millis` is the duration in whole milliseconds; nothing is
/// claimed of it.
pub assume_specification[ Duration::as_millis ](d: &Duration) -> (ms: u128);

/// A key with what is stored under it.
struct Entry {
    key: String,
    item: Item,
}

/// The mapping that a list of entries with distinct keys stands for.
spec fn entries_map(entries: Seq<Entry>) -> Map<Seq<char>, ItemView> {
    Map::new(
        |key: Seq<char>| exists|i: int| 0 <= i < entries.len() && #[trigger] entries[i].key@ == key,
        |key: Seq<char>|
            entries[choose|i: int| 0 <= i < entries.len() && #[trigger] entries[i].key@ == key].item@,
    )
}

/// No key occurs twice.
spec fn distinct_keys(entries: Seq<Entry>) -> bool {
    forall|i: int, j: int|
        0 <= i < j < entries.len() ==> #[trigger] entries[i].key@ != #[trigger] entries[j].key@
}

/// Each entry of a list with distinct keys is what the mapping holds under its key.
proof fn lemma_entry_in_map(entries: Seq<Entry>, i: int)
    requires
        distinct_keys(entries),
        0 <= i < entries.len(),
    ensures
        entries_map(entries).contains_key(entries[i].key@),
        entries_map(entries)[entries[i].key@] == entries[i].item@,
{
    let key = entries[i].key@;
    let j = choose|j: int| 0 <= j < entries.len() && #[trigger] entries[j].key@ == key;
    assert(j == i);
}

/// The index of the entry for `key`.
fn position(entries: &Vec<Entry>, key: &str) -> (found: Option<usize>)
    ensures
        match found {
            Some(i) => i < entries.len() && entries[i as int].key@ == key@,
            None => forall|i: int| 0 <= i < entries.len() ==> entries[i].key@ != key@,
        },
{
    let wanted = key.to_owned();
    let mut i: usize = 0;
    while i < entries.len()
        invariant
            i <= entries.len(),
            wanted@ == key@,
            forall|j: int| 0 <= j < i ==> entries[j].key@ != key@,
        decreases entries.len() - i,
    {
        if entries[i].key == wanted {
            return Some(i);
        }
        i += 1;
    }
    None
}

/// Puts `entry` in the place of the entry with its key, or adds it.
fn store(entries: &mut Vec<Entry>, entry: Entry)
    requires
        distinct_keys(old(entries)@),
    ensures
        distinct_keys(final(entries)@),
        entries_map(final(entries)@) == entries_map(old(entries)@).insert(entry.key@, entry.item@),
{
    let ghost before = entries@;
    let ghost key = entry.key@;
    let ghost target = entries_map(before).insert(entry.key@, entry.item@);
    match position(entries, entry.key.as_str()) {
        Some(i) => {
            entries[i] = entry;
            proof {
                assert forall|k: Seq<char>|
                    entries_map(entries@).contains_key(k) <==> target.contains_key(k) by {
                    if entries_map(before).contains_key(k) {
                        let j = choose|j: int|
                            0 <= j < before.len() && #[trigger] before[j].key@ == k;
                        assert(entries@[j].key@ == k);
                    }
                    if entries_map(entries@).contains_key(k) {
                        let j = choose|j: int|
                            0 <= j < entries.len() && #[trigger] entries[j].key@ == k;
                        assert(before[j].key@ == k);
                    }
                }
            }
        },
        None => {
            entries.push(entry);
            proof {
                assert(entries@[before.len() as int].key@ == key);
                assert forall|k: Seq<char>|
                    entries_map(entries@).contains_key(k) <==> target.contains_key(k) by {
                    if entries_map(before).contains_key(k) {
                        let j = choose|j: int|
                            0 <= j < before.len() && #[trigger] before[j].key@ == k;
                        assert(entries@[j].key@ == k);
                    }
                    if entries_map(entries@).contains_key(k) && k != key {
                        let j = choose|j: int|
                            0 <= j < entries.len() && #[trigger] entries[j].key@ == k;
                        assert(before[j].key@ == k);
                    }
                }
            }
        },
    }
    proof {
        let after = entries@;
        assert forall|k: Seq<char>| entries_map(after).contains_key(k) implies entries_map(after)[k]
            == target[k] by {
            let j = choose|j: int| 0 <= j < after.len() && #[trigger] after[j].key@ == k;
            lemma_entry_in_map(after, j);
            if k != key {
                assert(before[j].key@ == k);
                lemma_entry_in_map(before, j);
            }
        }
        assert(entries_map(after) =~= target);
    }
}

/// Removes the entries that have expired at `now`.
fn purge(entries: &mut Vec<Entry>, now: u128)
    requires
        distinct_keys(old(entries)@),
    ensures
        distinct_keys(final(entries)@),
        entries_map(final(entries)@) == sweep(entries_map(old(entries)@), now as nat),
{
    let ghost before = entries@;
    let ghost old_map = entries_map(before);
    let mut i: usize = 0;
    proof {
        assert forall|j: int| 0 <= j < before.len() implies old_map.contains_key(
            #[trigger] before[j].key@,
        ) && old_map[before[j].key@] == before[j].item@ by {
            lemma_entry_in_map(before, j);
        }
    }
    while i < entries.len()
        invariant
            i <= entries.len(),
            distinct_keys(entries@),
            old_map == entries_map(before),
            forall|j: int|
                0 <= j < entries.len() ==> old_map.contains_key(#[trigger] entries[j].key@)
                    && old_map[entries[j].key@] == entries[j].item@,
            forall|k: Seq<char>|
                old_map.contains_key(k) && !is_expired(old_map[k], now as nat)
                    ==> #[trigger] entries_map(entries@).contains_key(k),
            forall|j: int| 0 <= j < i ==> !is_expired(#[trigger] entries[j].item@, now as nat),
        decreases entries.len() - i,
    {
        if entries[i].item.is_expired(now) {
            let ghost cur = entries@;
            entries.swap_remove(i);
            proof {
                let next = entries@;
                assert forall|k: Seq<char>|
                    old_map.contains_key(k) && !is_expired(
                        old_map[k],
                        now as nat,
                    ) implies #[trigger] entries_map(next).contains_key(k) by {
                    assert(entries_map(cur).contains_key(k));
                    let j = choose|j: int| 0 <= j < cur.len() && #[trigger] cur[j].key@ == k;
                    assert(j != i);
                    if j == cur.len() - 1 {
                        assert(next[i as int].key@ == k);
                    } else {
                        assert(next[j].key@ == k);
                    }
                }
            }
        } else {
            i += 1;
        }
    }
    proof {
        let after = entries@;
        let target = sweep(old_map, now as nat);
        assert forall|k: Seq<char>| entries_map(after).contains_key(k) implies target.contains_key(k)
            && entries_map(after)[k] == target[k] by {
            let j = choose|j: int| 0 <= j < after.len() && #[trigger] after[j].key@ == k;
            lemma_entry_in_map(after, j);
        }
        assert(entries_map(after) =~= target);
    }
}

/// A mapping from keys to values with an optional time-to-live in milliseconds.
///
/// Time is read in whole milliseconds from a monotonic clock that starts when
/// the store is made. The view is the mapping as it is held: an expired entry
/// stays in it until a sweep removes it, and is never returned by a read.
pub struct Storage {
    entries: Vec<Entry>,
    started: Instant,
}

impl View for Storage {
    type V = Map<Seq<char>, ItemView>;

    closed spec fn view(&self) -> Map<Seq<char>, ItemView> {
        entries_map(self.entries@)
    }
}

impl Storage {
    #[verifier::type_invariant]
    spec fn well_formed(self) -> bool {
        distinct_keys(self.entries@)
    }

    /// An empty store, whose clock starts now.
    pub fn new() -> (storage: Storage)
        ensures
            storage@ == Map::<Seq<char>, ItemView>::empty(),
    {
        let storage = Storage { entries: Vec::new(), started: Instant::now() };
        assert(storage@ =~= Map::<Seq<char>, ItemView>::empty());
        storage
    }

    /// The store's clock: milliseconds since the store was made.
    pub fn now(&self) -> u128 {
        let elapsed = self.started.elapsed();
        elapsed.as_millis()
    }

    /// Writes `value` under `key` at time `now` with a time-to-live of `expires`
    /// milliseconds (0: none), in place of whatever was stored under `key`.
    pub fn set_at(&mut self, key: &str, value: &[u8], expires: usize, now: u128)
        ensures
            final(self)@ == put(old(self)@, key@, value@, expires as nat, now as nat),
    {
        proof {
            use_type_invariant(&*self);
        }
        let entry = Entry {
            key: key.to_owned(),
            item: Item { value: slice_to_vec(value), created: now, expires },
        };
        let mut entries: Vec<Entry> = Vec::new();
        std::mem::swap(&mut self.entries, &mut entries);
        store(&mut entries, entry);
        self.entries = entries;
    }

    /// Removes every entry that has expired at `now`.
    pub fn remove_expired_at(&mut self, now: u128)
        ensures
            final(self)@ == sweep(old(self)@, now as nat),
    {
        proof {
            use_type_invariant(&*self);
        }
        let mut entries: Vec<Entry> = Vec::new();
        std::mem::swap(&mut self.entries, &mut entries);
        purge(&mut entries, now);
        self.entries = entries;
    }

    /// Reads `key` at time `now` and leaves the store as it is: the entry stored
    /// under `key`, unless there is none or it has expired.
    pub fn peek_at(&self, key: &str, now: u128) -> (found: Option<&Item>)
        ensures
            match found {
                Some(item) => lookup(self@, key@, now as nat) == Some(item@),
                None => lookup(self@, key@, now as nat) is None,
            },
    {
        proof {
            use_type_invariant(self);
        }
        match position(&self.entries, key) {
            Some(i) => {
                proof {
                    lemma_entry_in_map(self.entries@, i as int);
                }
                let item = &self.entries[i].item;
                if item.is_expired(now) {
                    None
                } else {
                    Some(item)
                }
            },
            None => None,
        }
    }

    /// Removes every expired entry, then reads `key` at time `now`: the entry
    /// stored under `key`, unless there is none or it has expired.
    pub fn get_at(&mut self, key: &str, now: u128) -> (found: Option<&Item>)
        ensures
            final(self)@ == sweep(old(self)@, now as nat),
            match found {
                Some(item) => lookup(old(self)@, key@, now as nat) == Some(item@),
                None => lookup(old(self)@, key@, now as nat) is None,
            },
    {
        self.remove_expired_at(now);
        self.peek_at(key, now)
    }

    /// Writes `value` under `key` with a time-to-live of `expires` milliseconds
    /// (0: none), at the time that the store's clock shows.
    pub fn set(&mut self, key: &str, value: &[u8], expires: usize)
        ensures
            exists|now: u128|
                final(self)@ == #[trigger] put(old(self)@, key@, value@, expires as nat, now as nat),
    {
        let now = self.now();
        self.set_at(key, value, expires, now);
    }

    /// Removes every expired entry, then reads `key`, at the time that the
    /// store's clock shows.
    pub fn get(&mut self, key: &str) -> (found: Option<&Item>)
        ensures
            exists|now: u128|
                final(self)@ == #[trigger] sweep(old(self)@, now as nat) && match found {
                    Some(item) => lookup(old(self)@, key@, now as nat) == Some(item@),
                    None => lookup(old(self)@, key@, now as nat) is None,
                },
    {
        let now = self.now();
        self.get_at(key, now)
    }

    /// Removes every entry that has expired at the time that the store's clock shows.
    pub fn remove_expired(&mut self)
        ensures
            exists|now: u128| final(self)@ == #[trigger] sweep(old(self)@, now as nat),
    {
        let now = self.now();
        self.remove_expired_at(now);
    }
}

impl Default for Storage {
    fn default() -> (storage: Storage)
        ensures
            storage@ == Map::<Seq<char>, ItemView>::empty(),
    {
        Storage::new()
    }
}

} // verus!
