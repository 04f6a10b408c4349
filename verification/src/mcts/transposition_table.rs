//! A table of fixed size that remembers, for some positions, the node that
//! was made for them. It is approximate: it may forget a position, and it
//! tells positions apart by their hash alone.
use vstd::prelude::*;

verus! {

/// How many slots are tried for one key before the table gives up.
pub const PROBE_LIMIT: usize = 16;

/// A slot holds nothing, or a key and the value stored under it.
pub type Slot = Option<(u64, usize)>;

/// Whether `n` is a power of two.
pub open spec fn is_power_of_two(n: nat) -> bool
    decreases n,
{
    n == 1 || (n > 1 && n % 2 == 0 && is_power_of_two(n / 2))
}

/// The size of a table that is asked to hold `capacity` entries: the least
/// power of two that is no less, or the largest power of two that a machine
/// word holds, if `capacity` is above it.
pub open spec fn table_size(capacity: usize, size: usize) -> bool {
    &&& is_power_of_two(size as nat)
    &&& size >= capacity || size > usize::MAX / 2
    &&& size == 1 || size / 2 < capacity
}

proof fn lemma_power_of_two_halves(n: nat, m: nat)
    requires
        is_power_of_two(n),
        is_power_of_two(m),
        n < m,
    ensures
        2 * n <= m,
    decreases n + m,
{
    if n == 1 {
    } else {
        lemma_power_of_two_halves(n / 2, m / 2);
    }
}

/// A table that is asked to hold a power of two has exactly that many slots.
pub proof fn lemma_table_size_is(capacity: usize, size: usize)
    requires
        table_size(capacity, size),
        is_power_of_two(capacity as nat),
        capacity <= usize::MAX / 2,
    ensures
        size == capacity,
{
    if size < capacity {
        lemma_power_of_two_halves(size as nat, capacity as nat);
    }
    if capacity < size {
        lemma_power_of_two_halves(capacity as nat, size as nat);
    }
}

/// The number of slots among the first `n` that hold an entry.
pub open spec fn occupied_upto(slots: Seq<Slot>, n: nat) -> nat
    decreases n,
{
    if n == 0 {
        0
    } else {
        occupied_upto(slots, (n - 1) as nat) + if slots[n - 1] is Some {
            1nat
        } else {
            0
        }
    }
}

/// Whether the table is so full that it takes no new key: more than two
/// thirds of its slots are taken.
pub open spec fn saturated(slots: Seq<Slot>) -> bool {
    occupied_upto(slots, slots.len()) * 3 > slots.len() * 2
}

/// The slot tried after `position`, when `step` slots have been tried before it.
pub open spec fn next_position(slots: Seq<Slot>, position: int, step: nat) -> int {
    (position + step + 1) % (slots.len() as int)
}

/// What a search for `key` finds that is at `position` after `step` tries:
/// the value in the first slot on its way that holds the key, unless an
/// empty slot comes first or the tries run out.
pub open spec fn lookup_from(slots: Seq<Slot>, key: u64, position: int, step: nat) -> Option<
    usize,
>
    decreases PROBE_LIMIT - step,
{
    if step >= PROBE_LIMIT {
        None
    } else {
        match slots[position] {
            None => None,
            Some((k, v)) => if k == key {
                Some(v)
            } else {
                lookup_from(slots, key, next_position(slots, position, step), step + 1)
            },
        }
    }
}

/// The value that the table gives for `key`.
pub open spec fn lookup_in(slots: Seq<Slot>, key: u64) -> Option<usize> {
    if slots.len() == 0 {
        None
    } else {
        lookup_from(slots, key, key as int % slots.len() as int, 0)
    }
}

/// The slots after `value` was offered for `key` to a search that is at
/// `position` after `step` tries: the first empty slot on the way takes the
/// entry, unless the key is met first or the tries run out.
pub open spec fn insert_from(
    slots: Seq<Slot>,
    key: u64,
    value: usize,
    position: int,
    step: nat,
) -> Seq<Slot>
    decreases PROBE_LIMIT - step,
{
    if step >= PROBE_LIMIT {
        slots
    } else {
        match slots[position] {
            None => slots.update(position, Some((key, value))),
            Some((k, v)) => if k == key {
                slots
            } else {
                insert_from(slots, key, value, next_position(slots, position, step), step + 1)
            },
        }
    }
}

/// The slots after `value` was offered for `key`. A table without slots or
/// a saturated one takes nothing.
pub open spec fn insert_in(slots: Seq<Slot>, key: u64, value: usize) -> Seq<Slot> {
    if slots.len() == 0 || saturated(slots) {
        slots
    } else {
        insert_from(slots, key, value, key as int % slots.len() as int, 0)
    }
}

/// Whether some slot holds `value`.
pub open spec fn holds_value(slots: Seq<Slot>, value: usize) -> bool {
    exists|i: int| 0 <= i < slots.len() && (#[trigger] slots[i]) is Some && slots[i].unwrap().1 == value
}

proof fn lemma_lookup_from(slots: Seq<Slot>, key: u64, position: int, step: nat)
    requires
        0 <= position < slots.len(),
    ensures
        lookup_from(slots, key, position, step) matches Some(v) ==> holds_value(slots, v),
    decreases PROBE_LIMIT - step,
{
    if step < PROBE_LIMIT {
        match slots[position] {
            None => {},
            Some((k, v)) => {
                if k != key {
                    lemma_lookup_from(slots, key, next_position(slots, position, step), step + 1);
                }
            },
        }
    }
}

/// What the table gives for a key is a value that one of its slots holds.
pub proof fn lemma_lookup_holds(slots: Seq<Slot>, key: u64)
    ensures
        lookup_in(slots, key) matches Some(v) ==> holds_value(slots, v),
{
    if slots.len() > 0 {
        lemma_lookup_from(slots, key, key as int % slots.len() as int, 0);
    }
}

proof fn lemma_insert_from(slots: Seq<Slot>, key: u64, value: usize, position: int, step: nat)
    requires
        0 <= position < slots.len(),
    ensures
        ({
            let after = insert_from(slots, key, value, position, step);
            &&& after.len() == slots.len()
            &&& after == slots || exists|i: int|
                0 <= i < slots.len() && slots[i] is None && after == #[trigger] slots.update(
                    i,
                    Some((key, value)),
                )
            &&& after != slots ==> lookup_from(after, key, position, step) == Some(value)
                && lookup_from(slots, key, position, step) is None
        }),
    decreases PROBE_LIMIT - step,
{
    let after = insert_from(slots, key, value, position, step);
    if step < PROBE_LIMIT {
        match slots[position] {
            None => {},
            Some((k, v)) => {
                if k != key {
                    let next = next_position(slots, position, step);
                    lemma_insert_from(slots, key, value, next, step + 1);
                    if after != slots {
                        let i = choose|i: int|
                            0 <= i < slots.len() && slots[i] is None && after == #[trigger] slots.update(
                                i,
                                Some((key, value)),
                            );
                        assert(after[position] == slots[position]);
                        assert(next_position(after, position, step) == next);
                    }
                }
            },
        }
    }
}

/// Offering an entry never changes the number of slots. It changes nothing,
/// or it fills one empty slot with the entry; and it fills one only if the
/// table gave nothing for the key before and gives the new value after.
pub proof fn lemma_insert_fills_one(slots: Seq<Slot>, key: u64, value: usize)
    ensures
        insert_in(slots, key, value).len() == slots.len(),
        insert_in(slots, key, value) == slots || exists|i: int|
            0 <= i < slots.len() && slots[i] is None && insert_in(slots, key, value)
                == #[trigger] slots.update(i, Some((key, value))),
        insert_in(slots, key, value) != slots ==> lookup_in(slots, key) is None && lookup_in(
            insert_in(slots, key, value),
            key,
        ) == Some(value),
        forall|v: usize| #[trigger]
            holds_value(insert_in(slots, key, value), v) ==> v == value || holds_value(slots, v),
{
    let after = insert_in(slots, key, value);
    if slots.len() > 0 && !saturated(slots) {
        lemma_insert_from(slots, key, value, key as int % slots.len() as int, 0);
    }
    assert forall|v: usize| #[trigger] holds_value(after, v) implies v == value || holds_value(
        slots,
        v,
    ) by {
        let i = choose|i: int|
            0 <= i < after.len() && (#[trigger] after[i]) is Some && after[i].unwrap().1 == v;
        if after[i] != slots[i] {
        } else {
            assert(slots[i] is Some && slots[i].unwrap().1 == v);
        }
    }
}

proof fn lemma_fill_keeps_found(
    slots: Seq<Slot>,
    place: int,
    entry: (u64, usize),
    key: u64,
    position: int,
    step: nat,
)
    requires
        0 <= place < slots.len(),
        slots[place] is None,
        0 <= position < slots.len(),
        lookup_from(slots, key, position, step) is Some,
    ensures
        lookup_from(slots.update(place, Some(entry)), key, position, step) == lookup_from(
            slots,
            key,
            position,
            step,
        ),
    decreases PROBE_LIMIT - step,
{
    let filled = slots.update(place, Some(entry));
    if step < PROBE_LIMIT {
        match slots[position] {
            None => {},
            Some((k, v)) => {
                assert(filled[position] == slots[position]);
                if k != key {
                    assert(next_position(filled, position, step) == next_position(
                        slots,
                        position,
                        step,
                    ));
                    lemma_fill_keeps_found(
                        slots,
                        place,
                        entry,
                        key,
                        next_position(slots, position, step),
                        step + 1,
                    );
                }
            },
        }
    }
}

/// What the table gives for a key it goes on giving, whatever it is offered.
pub proof fn lemma_insert_keeps_found(slots: Seq<Slot>, key: u64, value: usize, other: u64)
    requires
        lookup_in(slots, other) is Some,
    ensures
        lookup_in(insert_in(slots, key, value), other) == lookup_in(slots, other),
{
    let after = insert_in(slots, key, value);
    lemma_insert_fills_one(slots, key, value);
    if after != slots {
        let place = choose|i: int|
            0 <= i < slots.len() && slots[i] is None && after == #[trigger] slots.update(
                i,
                Some((key, value)),
            );
        lemma_fill_keeps_found(
            slots,
            place,
            (key, value),
            other,
            other as int % slots.len() as int,
            0,
        );
    }
}

/// Offering an entry adds one entry to the table or none.
pub proof fn lemma_insert_counts(slots: Seq<Slot>, key: u64, value: usize)
    ensures
        occupied_upto(slots, slots.len()) <= occupied_upto(
            insert_in(slots, key, value),
            slots.len(),
        ) <= occupied_upto(slots, slots.len()) + 1,
{
    let after = insert_in(slots, key, value);
    lemma_insert_fills_one(slots, key, value);
    if after != slots {
        let place = choose|i: int|
            0 <= i < slots.len() && slots[i] is None && after == #[trigger] slots.update(
                i,
                Some((key, value)),
            );
        lemma_occupied_update(slots, place, (key, value), slots.len());
    }
}

/// The slots after the first `n` of `entries` were offered, one after the other.
pub open spec fn insert_all(slots: Seq<Slot>, entries: Seq<(u64, usize)>, n: nat) -> Seq<Slot>
    decreases n,
{
    if n == 0 {
        slots
    } else {
        insert_in(insert_all(slots, entries, (n - 1) as nat), entries[n - 1].0, entries[n - 1].1)
    }
}

/// However many entries a table is offered, it keeps the slots it was made
/// with, and holds no more entries than it has slots.
pub proof fn lemma_table_never_grows(slots: Seq<Slot>, entries: Seq<(u64, usize)>, n: nat)
    ensures
        insert_all(slots, entries, n).len() == slots.len(),
        occupied_upto(insert_all(slots, entries, n), slots.len()) <= slots.len(),
    decreases n,
{
    if n > 0 {
        lemma_table_never_grows(slots, entries, (n - 1) as nat);
        lemma_insert_fills_one(
            insert_all(slots, entries, (n - 1) as nat),
            entries[n - 1].0,
            entries[n - 1].1,
        );
    }
    lemma_occupied_bound(insert_all(slots, entries, n), slots.len());
}

/// A table without entries holds no value.
pub proof fn lemma_empty_holds_nothing(slots: Seq<Slot>)
    requires
        occupied_upto(slots, slots.len()) == 0,
    ensures
        forall|v: usize| !#[trigger] holds_value(slots, v),
{
    assert forall|v: usize| !#[trigger] holds_value(slots, v) by {
        if holds_value(slots, v) {
            let i = choose|i: int|
                0 <= i < slots.len() && (#[trigger] slots[i]) is Some && slots[i].unwrap().1 == v;
            lemma_occupied_counts(slots, i, slots.len());
        }
    }
}

proof fn lemma_occupied_counts(slots: Seq<Slot>, i: int, n: nat)
    requires
        0 <= i < n,
        slots[i] is Some,
    ensures
        occupied_upto(slots, n) >= 1,
    decreases n,
{
    if i < n - 1 {
        lemma_occupied_counts(slots, i, (n - 1) as nat);
    }
}

proof fn lemma_occupied_bound(slots: Seq<Slot>, n: nat)
    ensures
        occupied_upto(slots, n) <= n,
    decreases n,
{
    if n > 0 {
        lemma_occupied_bound(slots, (n - 1) as nat);
    }
}

proof fn lemma_occupied_update(slots: Seq<Slot>, i: int, entry: (u64, usize), n: nat)
    requires
        0 <= i < slots.len(),
        slots[i] is None,
        n <= slots.len(),
    ensures
        occupied_upto(slots.update(i, Some(entry)), n) == occupied_upto(slots, n) + if i < n {
            1nat
        } else {
            0
        },
    decreases n,
{
    if n > 0 {
        lemma_occupied_update(slots, i, entry, (n - 1) as nat);
    }
}

/// The table. Its size is fixed when it is made.
pub struct ApproxTable {
    slots: Vec<Slot>,
    size: usize,
}

impl View for ApproxTable {
    type V = Seq<Slot>;

    closed spec fn view(&self) -> Seq<Slot> {
        self.slots@
    }
}

impl ApproxTable {
    /// The table counts its entries right.
    pub closed spec fn wf(&self) -> bool {
        self.size == occupied_upto(self.slots@, self.slots@.len())
    }

    /// A table for `capacity` entries, with as many slots as the least
    /// power of two that is no less.
    pub fn new(capacity: usize) -> (table: Self)
        ensures
            table.wf(),
            table_size(capacity, table@.len() as usize),
            forall|i: int| 0 <= i < table@.len() ==> table@[i] is None,
            occupied_upto(table@, table@.len()) == 0,
    {
        let mut size: usize = 1;
        while size < capacity && size <= usize::MAX / 2
            invariant
                is_power_of_two(size as nat),
                size == 1 || size / 2 < capacity,
            decreases usize::MAX - size,
        {
            size = size * 2;
        }
        Self::with_slots(size)
    }

    /// An empty table with exactly `size` slots.
    pub fn with_slots(size: usize) -> (table: Self)
        ensures
            table.wf(),
            table@.len() == size,
            forall|i: int| 0 <= i < table@.len() ==> table@[i] is None,
            occupied_upto(table@, table@.len()) == 0,
    {
        let mut slots: Vec<Slot> = Vec::new();
        let mut i: usize = 0;
        while i < size
            invariant
                i <= size,
                slots.len() == i,
                forall|j: int| 0 <= j < i ==> slots[j] is None,
                occupied_upto(slots@, i as nat) == 0,
            decreases size - i,
        {
            let ghost before = slots@;
            slots.push(None);
            proof {
                lemma_occupied_agree(before, slots@, i as nat);
            }
            i += 1;
        }
        ApproxTable { slots, size: 0 }
    }

    /// The number of slots.
    pub fn capacity(&self) -> (capacity: usize)
        ensures
            capacity == self@.len(),
    {
        self.slots.len()
    }

    /// The number of entries.
    pub fn len(&self) -> (count: usize)
        requires
            self.wf(),
        ensures
            count == occupied_upto(self@, self@.len()),
            count <= self@.len(),
    {
        proof {
            lemma_occupied_bound(self.slots@, self.slots@.len());
        }
        self.size
    }

    /// The value stored under `key`, if the table still knows it.
    pub fn lookup(&self, key: u64) -> (found: Option<usize>)
        ensures
            found == lookup_in(self@, key),
            found matches Some(v) ==> holds_value(self@, v),
    {
        proof {
            lemma_lookup_holds(self.slots@, key);
        }
        let count = self.slots.len();
        if count == 0 {
            return None;
        }
        let mut position: usize = (key % (count as u64)) as usize;
        let mut step: usize = 0;
        while step < PROBE_LIMIT
            invariant
                count == self.slots.len(),
                0 <= position < count,
                step <= PROBE_LIMIT,
                lookup_in(self.slots@, key) == lookup_from(
                    self.slots@,
                    key,
                    position as int,
                    step as nat,
                ),
            decreases PROBE_LIMIT - step,
        {
            match self.slots[position] {
                None => {
                    return None;
                },
                Some((k, v)) => {
                    if k == key {
                        return Some(v);
                    }
                },
            }
            position = ((position as u128 + step as u128 + 1) % (count as u128)) as usize;
            step += 1;
        }
        None
    }

    /// Offers `value` for `key`. Returns the value that the table gave for
    /// the key before, and keeps it. If it gave none, the entry goes into
    /// the first empty slot that the search for the key comes by; if the
    /// tries run out before one is found, or the table is saturated, the
    /// entry is dropped. No slot is ever added.
    pub fn insert(&mut self, key: u64, value: usize) -> (existing: Option<usize>)
        requires
            old(self).wf(),
        ensures
            final(self).wf(),
            existing == lookup_in(old(self)@, key),
            final(self)@ == insert_in(old(self)@, key, value),
            final(self)@.len() == old(self)@.len(),
            forall|v: usize| #[trigger]
                holds_value(final(self)@, v) ==> v == value || holds_value(old(self)@, v),
    {
        proof {
            lemma_insert_fills_one(self.slots@, key, value);
            lemma_occupied_bound(self.slots@, self.slots@.len());
        }
        let count = self.slots.len();
        if count == 0 {
            return None;
        }
        if self.size as u128 * 3 > count as u128 * 2 {
            return self.lookup(key);
        }
        let ghost before = self.slots@;
        let mut position: usize = (key % (count as u64)) as usize;
        let mut step: usize = 0;
        while step < PROBE_LIMIT
            invariant
                count == self.slots.len(),
                self.slots@ == before,
                before == old(self)@,
                self.size == occupied_upto(before, before.len()),
                0 <= position < count,
                step <= PROBE_LIMIT,
                lookup_in(before, key) == lookup_from(before, key, position as int, step as nat),
                insert_in(before, key, value) == insert_from(
                    before,
                    key,
                    value,
                    position as int,
                    step as nat,
                ),
            decreases PROBE_LIMIT - step,
        {
            match self.slots[position] {
                None => {
                    self.slots[position] = Some((key, value));
                    proof {
                        lemma_occupied_update(before, position as int, (key, value), before.len());
                        lemma_occupied_bound(self.slots@, before.len());
                    }
                    self.size = self.size + 1;
                    return None;
                },
                Some((k, v)) => {
                    if k == key {
                        return Some(v);
                    }
                },
            }
            position = ((position as u128 + step as u128 + 1) % (count as u128)) as usize;
            step += 1;
        }
        None
    }
}

proof fn lemma_occupied_agree(a: Seq<Slot>, b: Seq<Slot>, n: nat)
    requires
        forall|i: int| 0 <= i < n ==> a[i] == b[i],
    ensures
        occupied_upto(a, n) == occupied_upto(b, n),
    decreases n,
{
    if n > 0 {
        lemma_occupied_agree(a, b, (n - 1) as nat);
    }
}

} // verus!
