//! A pool of values in slots that are reused, addressed by handles that go
//! stale when the value they referred to is gone.

use crate::handle::Handle;
use vstd::prelude::*;

verus! {

/// What one slot of a pool holds.
pub enum Slot<T> {
    /// Nothing. The slot can be handed out again unless its generation is
    /// the last one.
    Vacant,
    /// Nothing, but the slot is kept for whoever holds its ticket.
    Reserved,
    /// A value.
    Occupied(T),
}

/// One slot together with its generation stamp.
pub struct Record<T> {
    pub generation: u32,
    pub slot: Slot<T>,
}

/// The generation that is never issued: a slot that reaches it is retired.
pub const LAST_GENERATION: u32 = 0xffff_ffff;

/// The handle that the record at `i` would have if it were occupied.
pub open spec fn handle_at<T>(s: Seq<Record<T>>, i: int) -> Handle {
    Handle { index: i as usize, generation: s[i].generation }
}

/// `h` refers to an occupied record of `s` whose generation is `h`'s.
pub open spec fn holds<T>(s: Seq<Record<T>>, h: Handle) -> bool {
    &&& h.index < s.len()
    &&& s[h.index as int].generation == h.generation
    &&& s[h.index as int].slot is Occupied
}

/// The value that `h` refers to.
pub open spec fn value_at<T>(s: Seq<Record<T>>, h: Handle) -> T
    recommends
        holds(s, h),
{
    s[h.index as int].slot->Occupied_0
}

/// The record at `i` is kept for a ticket.
pub open spec fn is_reserved<T>(s: Seq<Record<T>>, i: usize) -> bool {
    i < s.len() && s[i as int].slot is Reserved
}

/// Every record has an index that a handle can carry, and every record that
/// is occupied or reserved a generation that a handle can carry: at least
/// one, and below the last.
pub open spec fn generations_ok<T>(s: Seq<Record<T>>) -> bool {
    &&& s.len() <= usize::MAX
    &&& forall|i: int|
        0 <= i < s.len() && !(#[trigger] s[i].slot is Vacant) ==> 1 <= s[i].generation
            < LAST_GENERATION
}

/// The handles of the occupied records of `s`, in the order of the slots.
pub open spec fn live_handles<T>(s: Seq<Record<T>>) -> Seq<Handle>
    decreases s.len(),
{
    if s.len() == 0 {
        Seq::empty()
    } else {
        let front = live_handles(s.drop_last());
        if s.last().slot is Occupied {
            front.push(handle_at(s, s.len() - 1))
        } else {
            front
        }
    }
}

/// `live_handles` lists the handles that refer to a value, each once and by
/// rising index.
pub proof fn lemma_live_handles<T>(s: Seq<Record<T>>)
    requires
        s.len() <= usize::MAX,
    ensures
        forall|k: int| 0 <= k < live_handles(s).len() ==> holds(s, #[trigger] live_handles(s)[k]),
        forall|h: Handle| holds(s, h) ==> #[trigger] live_handles(s).contains(h),
        forall|a: int, b: int|
            0 <= a < b < live_handles(s).len() ==> (#[trigger] live_handles(s)[a]).index < (
            #[trigger] live_handles(s)[b]).index,
    decreases s.len(),
{
    if s.len() > 0 {
        let front = s.drop_last();
        let last = s.len() - 1;
        lemma_live_handles(front);
        let l0 = live_handles(front);
        let l1 = live_handles(s);
        assert forall|k: int| 0 <= k < l0.len() implies holds(s, #[trigger] l0[k]) && l0[k].index
            < last by {
            assert(holds(front, l0[k]));
        }
        assert forall|h: Handle| holds(s, h) implies #[trigger] l1.contains(h) by {
            if h.index == last {
                assert(l1[l1.len() - 1] == h);
            } else {
                assert(holds(front, h));
                assert(l0.contains(h));
                let k = choose|k: int| 0 <= k < l0.len() && l0[k] == h;
                assert(l1[k] == h);
            }
        }
    }
}

/// `s` with the value of its `k`-th occupied record replaced by `values[k]`,
/// for each `k`.
pub open spec fn refilled<T>(s: Seq<Record<T>>, values: Seq<T>) -> Seq<Record<T>>
    decreases s.len(),
{
    if s.len() == 0 {
        s
    } else if s.last().slot is Occupied {
        refilled(s.drop_last(), values.drop_last()).push(
            Record { generation: s.last().generation, slot: Slot::Occupied(values.last()) },
        )
    } else {
        refilled(s.drop_last(), values).push(s.last())
    }
}

/// `r` is `s` refilled with `values`: every record has kept its place,
/// generation and kind; the records that hold no value are as they were; and
/// `values[k]` is where the `k`-th handle of `live_handles` refers to.
pub open spec fn refills<T>(s: Seq<Record<T>>, values: Seq<T>, r: Seq<Record<T>>) -> bool {
    &&& r.len() == s.len()
    &&& live_handles(r) == live_handles(s)
    &&& forall|i: int| 0 <= i < s.len() ==> (#[trigger] r[i]).generation == s[i].generation
    &&& forall|i: int|
        0 <= i < s.len() ==> ((#[trigger] r[i]).slot is Occupied <==> s[i].slot is Occupied)
    &&& forall|i: int| 0 <= i < s.len() && !(s[i].slot is Occupied) ==> #[trigger] r[i] == s[i]
    &&& forall|k: int|
        0 <= k < values.len() ==> value_at(r, #[trigger] live_handles(s)[k]) == values[k]
}

/// What `refilled` gives refills.
pub proof fn lemma_refilled<T>(s: Seq<Record<T>>, values: Seq<T>)
    requires
        s.len() <= usize::MAX,
        values.len() == live_handles(s).len(),
    ensures
        refills(s, values, refilled(s, values)),
    decreases s.len(),
{
    if s.len() > 0 {
        let front = s.drop_last();
        let r = refilled(s, values);
        if s.last().slot is Occupied {
            lemma_refilled(front, values.drop_last());
            let rf = refilled(front, values.drop_last());
            assert(r.drop_last() =~= rf);
            assert forall|k: int| 0 <= k < values.len() implies value_at(
                r,
                #[trigger] live_handles(s)[k],
            ) == values[k] by {
                if k < values.len() - 1 {
                    let h = live_handles(front)[k];
                    assert(live_handles(s)[k] == h);
                    lemma_live_handles_in_range(front, k);
                    assert(values.drop_last()[k] == values[k]);
                    assert(r[h.index as int] == rf[h.index as int]);
                }
            }
        } else {
            lemma_refilled(front, values);
            let rf = refilled(front, values);
            assert(r.drop_last() =~= rf);
            assert forall|k: int| 0 <= k < values.len() implies value_at(
                r,
                #[trigger] live_handles(s)[k],
            ) == values[k] by {
                let h = live_handles(front)[k];
                lemma_live_handles_in_range(front, k);
                assert(r[h.index as int] == rf[h.index as int]);
            }
        }
    }
}

/// The handles of `live_handles` refer to slots of the sequence.
pub proof fn lemma_live_handles_in_range<T>(s: Seq<Record<T>>, k: int)
    requires
        0 <= k < live_handles(s).len(),
    ensures
        0 <= live_handles(s)[k].index < s.len(),
        live_handles(s).len() <= s.len(),
    decreases s.len(),
{
    if s.len() > 0 {
        let front = s.drop_last();
        if k < live_handles(front).len() {
            lemma_live_handles_in_range(front, k);
        } else if live_handles(front).len() > 0 {
            lemma_live_handles_in_range(front, 0);
        }
    }
}

/// What `lemma_refilled` states, of all values at once.
pub proof fn lemma_refilled_any<T>(s: Seq<Record<T>>)
    requires
        s.len() <= usize::MAX,
    ensures
        forall|values: Seq<T>|
            values.len() == live_handles(s).len() ==> refills(
                s,
                values,
                #[trigger] refilled(s, values),
            ),
{
    assert forall|values: Seq<T>| values.len() == live_handles(s).len() implies refills(
        s,
        values,
        #[trigger] refilled(s, values),
    ) by {
        lemma_refilled(s, values);
    }
}

/// The record at `i` is vacant and not retired: the next value can go there.
pub open spec fn is_reusable<T>(s: Seq<Record<T>>, i: int) -> bool {
    0 <= i < s.len() && s[i].slot is Vacant && 1 <= s[i].generation < LAST_GENERATION
}

/// Some record can take the next value.
pub open spec fn has_vacancy<T>(s: Seq<Record<T>>) -> bool {
    exists|i: int| is_reusable(s, i)
}

/// `free` lists the reusable records of `records`, each once.
pub closed spec fn lists_reusable<T>(records: Seq<Record<T>>, free: Seq<usize>) -> bool {
    &&& free.no_duplicates()
    &&& forall|k: int| 0 <= k < free.len() ==> is_reusable(records, (#[trigger] free[k]) as int)
    &&& forall|i: int| #[trigger] is_reusable(records, i) ==> free.contains(i as usize)
}

/// `b` has the records of `a`, each of the same kind and generation, but
/// perhaps with another value.
pub open spec fn same_kinds<T>(a: Seq<Record<T>>, b: Seq<Record<T>>) -> bool {
    &&& a.len() == b.len()
    &&& forall|i: int| 0 <= i < a.len() ==> (#[trigger] b[i]).generation == a[i].generation
    &&& forall|i: int|
        0 <= i < a.len() ==> ((#[trigger] b[i]).slot is Vacant <==> a[i].slot is Vacant) && (
        b[i].slot is Reserved <==> a[i].slot is Reserved)
}

/// What lists the reusable records of some records lists those of any
/// records of the same kinds.
proof fn lemma_same_kinds<T>(a: Seq<Record<T>>, free: Seq<usize>)
    requires
        lists_reusable(a, free),
    ensures
        forall|b: Seq<Record<T>>| same_kinds(a, b) ==> #[trigger] lists_reusable(b, free),
        forall|b: Seq<Record<T>>|
            same_kinds(a, b) && generations_ok(a) ==> #[trigger] generations_ok(b),
{
    assert forall|b: Seq<Record<T>>| same_kinds(a, b) implies #[trigger] lists_reusable(
        b,
        free,
    ) by {
        assert forall|k: int| 0 <= k < free.len() implies is_reusable(
            b,
            (#[trigger] free[k]) as int,
        ) by {
            assert(is_reusable(a, free[k] as int));
        }
        assert forall|i: int| #[trigger] is_reusable(b, i) implies free.contains(i as usize) by {
            assert(is_reusable(a, i));
        }
    }
    assert forall|b: Seq<Record<T>>|
        same_kinds(a, b) && generations_ok(a) implies #[trigger] generations_ok(b) by {
        assert forall|i: int| 0 <= i < b.len() && !(#[trigger] b[i].slot is Vacant) implies 1
            <= b[i].generation < LAST_GENERATION by {
            assert(!(a[i].slot is Vacant));
        }
    }
}

/// A new value may be stored under `h`: either `h` names the slot one past
/// the end with the first generation, or a vacant slot that is not retired,
/// with the generation the slot shows.
pub open spec fn can_spawn_at<T>(s: Seq<Record<T>>, h: Handle) -> bool {
    ||| h.index == s.len() && h.generation == 1
    ||| {
        &&& h.index < s.len()
        &&& s[h.index as int].slot is Vacant
        &&& s[h.index as int].generation == h.generation
        &&& 1 <= h.generation < LAST_GENERATION
    }
}

/// `s` after `value` was stored under `h`.
pub open spec fn spawned<T>(s: Seq<Record<T>>, h: Handle, value: T) -> Seq<Record<T>> {
    let record = Record { generation: h.generation, slot: Slot::Occupied(value) };
    if h.index == s.len() {
        s.push(record)
    } else {
        s.update(h.index as int, record)
    }
}

/// `s` after the record at `i` was emptied for good: the slot is vacant and
/// its generation has moved on, so that no handle issued before matches it.
pub open spec fn released<T>(s: Seq<Record<T>>, i: int) -> Seq<Record<T>> {
    s.update(i, Record { generation: (s[i].generation + 1) as u32, slot: Slot::Vacant })
}

/// `s` after the value at `i` was taken out and the slot reserved.
pub open spec fn reserved<T>(s: Seq<Record<T>>, i: int) -> Seq<Record<T>> {
    s.update(i, Record { generation: s[i].generation, slot: Slot::Reserved })
}

/// `s` with `value` in the record at `i`, under the generation it shows.
pub open spec fn restored<T>(s: Seq<Record<T>>, i: int, value: T) -> Seq<Record<T>> {
    s.update(i, Record { generation: s[i].generation, slot: Slot::Occupied(value) })
}

/// Why several values could not be borrowed at once.
#[derive(Clone, Copy, PartialEq, Eq, Structural, Debug)]
pub enum BorrowError {
    /// Two of the handles refer to the same slot.
    Overlap,
}

/// The value in an occupied record, for writing.
fn slot_mut<T>(record: &mut Record<T>) -> (value: &mut T)
    requires
        old(record).slot is Occupied,
    ensures
        *value == old(record).slot->Occupied_0,
        *final(record) == (Record {
            generation: old(record).generation,
            slot: Slot::Occupied(*final(value)),
        }),
{
    match &mut record.slot {
        Slot::Occupied(value) => value,
        _ => vstd::pervasive::unreached(),
    }
}

/// The value in the first record of a slice, for writing, if the record is
/// occupied, and the rest of the slice.
fn split_first_value<T>(s: &mut [Record<T>]) -> (r: (Option<&mut T>, &mut [Record<T>]))
    requires
        old(s)@.len() > 0,
    ensures
        r.1@ == old(s)@.subrange(1, old(s)@.len() as int),
        old(s)@[0].slot is Occupied ==> r.0 is Some && *r.0->Some_0 == old(s)@[0].slot->Occupied_0
            && final(s)@ == seq![
            Record {
                generation: old(s)@[0].generation,
                slot: Slot::Occupied(*final(r.0->Some_0)),
            },
        ] + final(r.1)@,
        !(old(s)@[0].slot is Occupied) ==> r.0 is None && final(s)@ == seq![old(s)@[0]]
            + final(r.1)@,
{
    let (head, tail) = s.split_at_mut(1);
    let ghost h0 = head@;
    match &mut head[0].slot {
        Slot::Occupied(value) => {
            assert(h0.update(
                0,
                Record { generation: h0[0].generation, slot: Slot::Occupied(*final(value)) },
            ) =~= seq![
                Record { generation: h0[0].generation, slot: Slot::Occupied(*final(value)) },
            ]);
            (Some(value), tail)
        },
        _ => {
            assert(h0 =~= seq![h0[0]]);
            (None, tail)
        },
    }
}

/// `s` with `a` in the record at `i` and `b` in the record at `j`.
pub open spec fn restored2<T>(s: Seq<Record<T>>, i: int, a: T, j: int, b: T) -> Seq<Record<T>> {
    restored(restored(s, i, a), j, b)
}

/// `s` with `a`, `b` and `c` in the records at `i`, `j` and `k`.
pub open spec fn restored3<T>(s: Seq<Record<T>>, i: int, a: T, j: int, b: T, k: int, c: T) -> Seq<
    Record<T>,
> {
    restored(restored2(s, i, a, j, b), k, c)
}

/// `s` with `a`, `b`, `c` and `d` in the records at `i`, `j`, `k` and `l`.
pub open spec fn restored4<T>(
    s: Seq<Record<T>>,
    i: int,
    a: T,
    j: int,
    b: T,
    k: int,
    c: T,
    l: int,
    d: T,
) -> Seq<Record<T>> {
    restored(restored3(s, i, a, j, b, k, c), l, d)
}

/// The values in two different occupied records of a slice, for writing.
fn pick_two<T>(s: &mut [Record<T>], i: usize, j: usize) -> (r: (&mut T, &mut T))
    requires
        i < old(s)@.len(),
        j < old(s)@.len(),
        i != j,
        old(s)@[i as int].slot is Occupied,
        old(s)@[j as int].slot is Occupied,
    ensures
        *r.0 == old(s)@[i as int].slot->Occupied_0,
        *r.1 == old(s)@[j as int].slot->Occupied_0,
        final(s)@ == restored2(old(s)@, i as int, *final(r.0), j as int, *final(r.1)),
{
    if i < j {
        let (left, right) = s.split_at_mut(j);
        let ghost (l0, r0) = (left@, right@);
        let a = slot_mut(&mut left[i]);
        let b = slot_mut(&mut right[0]);
        assert(restored(l0, i as int, *final(a)) + restored(r0, 0, *final(b))
            =~= restored2(old(s)@, i as int, *final(a), j as int, *final(b)));
        (a, b)
    } else {
        let (left, right) = s.split_at_mut(i);
        let ghost (l0, r0) = (left@, right@);
        let b = slot_mut(&mut left[j]);
        let a = slot_mut(&mut right[0]);
        assert(restored(l0, j as int, *final(b)) + restored(r0, 0, *final(a))
            =~= restored2(old(s)@, i as int, *final(a), j as int, *final(b)));
        (a, b)
    }
}

/// The values in three different occupied records of a slice, for writing.
fn pick_three<T>(s: &mut [Record<T>], i: usize, j: usize, k: usize) -> (r: (
    &mut T,
    &mut T,
    &mut T,
))
    requires
        i < old(s)@.len(),
        j < old(s)@.len(),
        k < old(s)@.len(),
        i != j && i != k && j != k,
        old(s)@[i as int].slot is Occupied,
        old(s)@[j as int].slot is Occupied,
        old(s)@[k as int].slot is Occupied,
    ensures
        *r.0 == old(s)@[i as int].slot->Occupied_0,
        *r.1 == old(s)@[j as int].slot->Occupied_0,
        *r.2 == old(s)@[k as int].slot->Occupied_0,
        final(s)@ == restored3(
            old(s)@,
            i as int, *final(r.0),
            j as int, *final(r.1),
            k as int, *final(r.2),
        ),
{
    if k > i && k > j {
        let (left, right) = s.split_at_mut(k);
        let ghost (l0, r0) = (left@, right@);
        let (a, b) = pick_two(left, i, j);
        let c = slot_mut(&mut right[0]);
        assert(restored2(l0, i as int, *final(a), j as int, *final(b)) + restored(r0, 0, *final(c))
            =~= restored3(
                old(s)@,
                i as int, *final(a),
                j as int, *final(b),
                k as int, *final(c),
            ));
        (a, b, c)
    } else if j > i {
        let (left, right) = s.split_at_mut(j);
        let ghost (l0, r0) = (left@, right@);
        let (a, c) = pick_two(left, i, k);
        let b = slot_mut(&mut right[0]);
        assert(restored2(l0, i as int, *final(a), k as int, *final(c)) + restored(r0, 0, *final(b))
            =~= restored3(
                old(s)@,
                i as int, *final(a),
                j as int, *final(b),
                k as int, *final(c),
            ));
        (a, b, c)
    } else {
        let (left, right) = s.split_at_mut(i);
        let ghost (l0, r0) = (left@, right@);
        let (b, c) = pick_two(left, j, k);
        let a = slot_mut(&mut right[0]);
        assert(restored2(l0, j as int, *final(b), k as int, *final(c)) + restored(r0, 0, *final(a))
            =~= restored3(
                old(s)@,
                i as int, *final(a),
                j as int, *final(b),
                k as int, *final(c),
            ));
        (a, b, c)
    }
}

/// The values in four different occupied records of a slice, for writing.
fn pick_four<T>(s: &mut [Record<T>], i: usize, j: usize, k: usize, l: usize) -> (r: (
    &mut T,
    &mut T,
    &mut T,
    &mut T,
))
    requires
        i < old(s)@.len(),
        j < old(s)@.len(),
        k < old(s)@.len(),
        l < old(s)@.len(),
        i != j && i != k && i != l && j != k && j != l && k != l,
        old(s)@[i as int].slot is Occupied,
        old(s)@[j as int].slot is Occupied,
        old(s)@[k as int].slot is Occupied,
        old(s)@[l as int].slot is Occupied,
    ensures
        *r.0 == old(s)@[i as int].slot->Occupied_0,
        *r.1 == old(s)@[j as int].slot->Occupied_0,
        *r.2 == old(s)@[k as int].slot->Occupied_0,
        *r.3 == old(s)@[l as int].slot->Occupied_0,
        final(s)@ == restored4(
            old(s)@,
            i as int, *final(r.0),
            j as int, *final(r.1),
            k as int, *final(r.2),
            l as int, *final(r.3),
        ),
{
    if l > i && l > j && l > k {
        let (left, right) = s.split_at_mut(l);
        let ghost (l0, r0) = (left@, right@);
        let (a, b, c) = pick_three(left, i, j, k);
        let d = slot_mut(&mut right[0]);
        assert(restored3(
            l0,
            i as int, *final(a),
            j as int, *final(b),
            k as int, *final(c),
        ) + restored(r0, 0, *final(d))
            =~= restored4(
                old(s)@,
                i as int, *final(a),
                j as int, *final(b),
                k as int, *final(c),
                l as int, *final(d),
            ));
        (a, b, c, d)
    } else if k > i && k > j {
        let (left, right) = s.split_at_mut(k);
        let ghost (l0, r0) = (left@, right@);
        let (a, b, d) = pick_three(left, i, j, l);
        let c = slot_mut(&mut right[0]);
        assert(restored3(
            l0,
            i as int, *final(a),
            j as int, *final(b),
            l as int, *final(d),
        ) + restored(r0, 0, *final(c))
            =~= restored4(
                old(s)@,
                i as int, *final(a),
                j as int, *final(b),
                k as int, *final(c),
                l as int, *final(d),
            ));
        (a, b, c, d)
    } else if j > i {
        let (left, right) = s.split_at_mut(j);
        let ghost (l0, r0) = (left@, right@);
        let (a, c, d) = pick_three(left, i, k, l);
        let b = slot_mut(&mut right[0]);
        assert(restored3(
            l0,
            i as int, *final(a),
            k as int, *final(c),
            l as int, *final(d),
        ) + restored(r0, 0, *final(b))
            =~= restored4(
                old(s)@,
                i as int, *final(a),
                j as int, *final(b),
                k as int, *final(c),
                l as int, *final(d),
            ));
        (a, b, c, d)
    } else {
        let (left, right) = s.split_at_mut(i);
        let ghost (l0, r0) = (left@, right@);
        let (b, c, d) = pick_three(left, j, k, l);
        let a = slot_mut(&mut right[0]);
        assert(restored3(
            l0,
            j as int, *final(b),
            k as int, *final(c),
            l as int, *final(d),
        ) + restored(r0, 0, *final(a))
            =~= restored4(
                old(s)@,
                i as int, *final(a),
                j as int, *final(b),
                k as int, *final(c),
                l as int, *final(d),
            ));
        (a, b, c, d)
    }
}

/// The right to fill or to release one reserved slot. It cannot be copied,
/// and putting back or forgetting consumes it.
pub struct Ticket {
    index: usize,
}

impl View for Ticket {
    type V = usize;

    closed spec fn view(&self) -> usize {
        self.index
    }
}

impl Ticket {
    /// The index of the slot that the ticket is for.
    pub fn index(&self) -> (i: usize)
        ensures
            i == self@,
    {
        self.index
    }
}

/// Slot storage addressed by generation-stamped handles.
///
/// Viewed as the sequence of its records. Freed slots are reused; each
/// reuse happens under a generation that no earlier handle carries.
pub struct Pool<T> {
    records: Vec<Record<T>>,
    free: Vec<usize>,
}

impl<T> View for Pool<T> {
    type V = Seq<Record<T>>;

    closed spec fn view(&self) -> Seq<Record<T>> {
        self.records@
    }
}

impl<T> Pool<T> {
    /// The list of reusable slots names the vacant, unretired records, each
    /// once.
    pub closed spec fn free_ok(&self) -> bool {
        lists_reusable(self.records@, self.free@)
    }

    /// The pool's invariant.
    pub open spec fn wf(&self) -> bool {
        generations_ok(self@) && self.free_ok()
    }

    /// After the slot `i`, which held or was kept for a value, was made
    /// vacant, the list of reusable slots lacks at most `i`.
    proof fn lemma_emptied(&self, before: Pool<T>, i: usize)
        requires
            before.wf(),
            i < before.records@.len(),
            !(before.records@[i as int].slot is Vacant),
            self.free == before.free,
            self.records@ == before.records@.update(
                i as int,
                Record { generation: before.records@[i as int].generation, slot: Slot::Vacant },
            ),
        ensures
            generations_ok(self@),
            self.free@.no_duplicates(),
            forall|k: int|
                0 <= k < self.free@.len() ==> (#[trigger] self.free@[k]) != i && is_reusable(
                    self.records@,
                    self.free@[k] as int,
                ),
            forall|j: int| #[trigger]
                is_reusable(self.records@, j) && j != i ==> self.free@.contains(j as usize),
            1 <= self.records@[i as int].generation < LAST_GENERATION,
    {
        assert forall|k: int| 0 <= k < self.free@.len() implies (#[trigger] self.free@[k]) != i
            && is_reusable(self.records@, self.free@[k] as int) by {
            assert(is_reusable(before.records@, before.free@[k] as int));
        }
        assert forall|j: int| #[trigger]
            is_reusable(self.records@, j) && j != i implies self.free@.contains(j as usize) by {
            assert(is_reusable(before.records@, j));
        }
        assert forall|j: int|
            0 <= j < self@.len() && !(#[trigger] self@[j].slot is Vacant) implies 1
            <= self@[j].generation < LAST_GENERATION by {
            assert(!(before@[j].slot is Vacant));
        }
    }

    /// After the slot `i`, which held or was kept for a value, was filled or
    /// reserved, the pool is sound as before.
    proof fn lemma_refilled_slot(&self, before: Pool<T>, i: usize)
        requires
            before.wf(),
            i < before.records@.len(),
            !(before.records@[i as int].slot is Vacant),
            self.free == before.free,
            self.records@.len() == before.records@.len(),
            !(self.records@[i as int].slot is Vacant),
            self.records@[i as int].generation == before.records@[i as int].generation,
            forall|j: int|
                0 <= j < before.records@.len() && j != i ==> #[trigger] self.records@[j]
                    == before.records@[j],
        ensures
            self.wf(),
    {
        assert forall|k: int| 0 <= k < self.free@.len() implies is_reusable(
            self.records@,
            (#[trigger] self.free@[k]) as int,
        ) by {
            assert(is_reusable(before.records@, before.free@[k] as int));
        }
        assert forall|j: int| #[trigger] is_reusable(self.records@, j) implies self.free@.contains(
            j as usize,
        ) by {
            assert(is_reusable(before.records@, j));
        }
        assert forall|j: int|
            0 <= j < self@.len() && !(#[trigger] self@[j].slot is Vacant) implies 1
            <= self@[j].generation < LAST_GENERATION by {
            assert(!(before@[j].slot is Vacant));
        }
    }

    /// A pool has no more slots than an index can name.
    pub proof fn lemma_bounded(&self)
        ensures
            self@.len() <= usize::MAX,
    {
        assert(self.records@.len() == self.records.len());
    }

    /// An empty pool.
    pub fn new() -> (pool: Pool<T>)
        ensures
            pool.wf(),
            pool@.len() == 0,
    {
        Pool { records: Vec::new(), free: Vec::new() }
    }

    /// Stores `value` and returns the handle that now refers to it. A vacant
    /// slot is reused where there is one; otherwise the pool grows by a slot.
    pub fn spawn(&mut self, value: T) -> (h: Handle)
        requires
            old(self).wf(),
        ensures
            final(self).wf(),
            can_spawn_at(old(self)@, h),
            has_vacancy(old(self)@) ==> h.index < old(self)@.len(),
            final(self)@ == spawned(old(self)@, h, value),
    {
        match self.free.pop() {
            Some(i) => {
                let ghost listed = old(self).free@;
                assert(listed[listed.len() - 1] == i);
                assert(is_reusable(old(self).records@, listed[listed.len() - 1] as int));
                let generation: u32 = self.records[i].generation;
                self.records[i].slot = Slot::Occupied(value);
                proof {
                    assert forall|k: int| 0 <= k < self.free@.len() implies is_reusable(
                        self.records@,
                        (#[trigger] self.free@[k]) as int,
                    ) by {
                        assert(self.free@[k] == listed[k]);
                        assert(is_reusable(old(self).records@, listed[k] as int));
                        assert(listed[k] != listed[listed.len() - 1]);
                    }
                    assert forall|j: int| #[trigger]
                        is_reusable(self.records@, j) implies self.free@.contains(j as usize) by {
                        assert(is_reusable(old(self).records@, j));
                        assert(listed.contains(j as usize));
                        let k = choose|k: int| 0 <= k < listed.len() && listed[k] == j as usize;
                        assert(self.free@[k] == j as usize);
                    }
                }
                Handle { index: i, generation }
            },
            None => {
                proof {
                    if has_vacancy(self@) {
                        let j = choose|j: int| is_reusable(self.records@, j);
                        assert(self.free@.contains(j as usize));
                    }
                }
                let i: usize = self.records.len();
                self.records.push(Record { generation: 1, slot: Slot::Occupied(value) });
                proof {
                    assert(self.records@.len() == self.records.len());
                    assert forall|j: int| #[trigger]
                        is_reusable(self.records@, j) implies self.free@.contains(j as usize) by {
                        assert(is_reusable(old(self).records@, j));
                    }
                }
                Handle { index: i, generation: 1 }
            },
        }
    }

    /// Whether `h` refers to a value of this pool.
    pub fn is_valid_handle(&self, h: Handle) -> (b: bool)
        ensures
            b == holds(self@, h),
    {
        if h.index < self.records.len() {
            let record = &self.records[h.index];
            record.generation == h.generation && matches!(record.slot, Slot::Occupied(_))
        } else {
            false
        }
    }

    /// The number of slots, whatever they hold.
    pub fn get_capacity(&self) -> (n: usize)
        ensures
            n == self@.len(),
    {
        self.records.len()
    }

    /// The handle of the value in slot `index`, or the sentinel where the
    /// index is out of bounds or the slot holds no value.
    pub fn handle_from_index(&self, index: usize) -> (h: Handle)
        ensures
            index < self@.len() && self@[index as int].slot is Occupied ==> h == handle_at(
                self@,
                index as int,
            ),
            !(index < self@.len() && self@[index as int].slot is Occupied) ==> h == Handle::none(),
    {
        if index < self.records.len() {
            let record = &self.records[index];
            if matches!(record.slot, Slot::Occupied(_)) {
                return Handle { index, generation: record.generation };
            }
        }
        Handle::none()
    }

    /// The value that `h` refers to.
    pub fn borrow(&self, h: Handle) -> (value: &T)
        requires
            holds(self@, h),
        ensures
            *value == value_at(self@, h),
    {
        match &self.records[h.index].slot {
            Slot::Occupied(value) => value,
            _ => vstd::pervasive::unreached(),
        }
    }

    /// The value that `h` refers to, or nothing where `h` refers to none.
    pub fn try_borrow(&self, h: Handle) -> (value: Option<&T>)
        ensures
            holds(self@, h) ==> value == Some(&value_at(self@, h)),
            !holds(self@, h) ==> value is None,
    {
        if h.index < self.records.len() {
            let record = &self.records[h.index];
            if record.generation == h.generation {
                match &record.slot {
                    Slot::Occupied(value) => {
                        return Some(value);
                    },
                    _ => {},
                }
            }
        }
        None
    }

    /// The value that `h` refers to, for writing. The pool afterwards holds
    /// whatever the caller left behind the reference, in the same slot.
    pub fn borrow_mut(&mut self, h: Handle) -> (value: &mut T)
        requires
            old(self).wf(),
            holds(old(self)@, h),
        ensures
            *value == value_at(old(self)@, h),
            final(self)@ == restored(old(self)@, h.index as int, *final(value)),
            final(self).wf(),
    {
        proof {
            lemma_same_kinds(self.records@, self.free@);
        }
        let record = &mut self.records[h.index];
        match &mut record.slot {
            Slot::Occupied(value) => value,
            _ => vstd::pervasive::unreached(),
        }
    }

    /// The values of the pool, in the order of their slots.
    pub fn iter(&self) -> (values: Vec<&T>)
        ensures
            values@.len() == live_handles(self@).len(),
            forall|k: int|
                0 <= k < values@.len() ==> *(#[trigger] values@[k]) == value_at(
                    self@,
                    live_handles(self@)[k],
                ),
    {
        let mut values: Vec<&T> = Vec::new();
        let mut i: usize = 0;
        while i < self.records.len()
            invariant
                i <= self.records@.len(),
                values@.len() == live_handles(self@.take(i as int)).len(),
                forall|k: int|
                    0 <= k < values@.len() ==> *(#[trigger] values@[k]) == value_at(
                        self@,
                        live_handles(self@.take(i as int))[k],
                    ),
            decreases self.records@.len() - i,
        {
            proof {
                assert(self@.take(i + 1).drop_last() =~= self@.take(i as int));
            }
            match &self.records[i].slot {
                Slot::Occupied(value) => {
                    values.push(value);
                },
                _ => {},
            }
            i = i + 1;
        }
        proof {
            assert(self@.take(i as int) =~= self@);
        }
        values
    }

    /// The values of the pool with their handles, in the order of their
    /// slots.
    pub fn pair_iter(&self) -> (pairs: Vec<(Handle, &T)>)
        ensures
            pairs@.len() == live_handles(self@).len(),
            forall|k: int|
                0 <= k < pairs@.len() ==> (#[trigger] pairs@[k]).0 == live_handles(self@)[k]
                    && *pairs@[k].1 == value_at(self@, live_handles(self@)[k]),
    {
        let mut pairs: Vec<(Handle, &T)> = Vec::new();
        let mut i: usize = 0;
        while i < self.records.len()
            invariant
                i <= self.records@.len(),
                pairs@.len() == live_handles(self@.take(i as int)).len(),
                forall|k: int|
                    0 <= k < pairs@.len() ==> (#[trigger] pairs@[k]).0 == live_handles(
                        self@.take(i as int),
                    )[k] && *pairs@[k].1 == value_at(self@, live_handles(self@.take(i as int))[k]),
            decreases self.records@.len() - i,
        {
            proof {
                assert(self@.take(i + 1).drop_last() =~= self@.take(i as int));
            }
            let record = &self.records[i];
            match &record.slot {
                Slot::Occupied(value) => {
                    pairs.push((Handle { index: i, generation: record.generation }, value));
                },
                _ => {},
            }
            i = i + 1;
        }
        proof {
            assert(self@.take(i as int) =~= self@);
        }
        pairs
    }

    /// The values of the pool, each for writing, in the order of their
    /// slots.
    pub fn iter_mut(&mut self) -> (values: Vec<&mut T>)
        requires
            old(self).wf(),
        ensures
            values@.len() == live_handles(old(self)@).len(),
            forall|k: int|
                0 <= k < values@.len() ==> *(#[trigger] values@[k]) == value_at(
                    old(self)@,
                    live_handles(old(self)@)[k],
                ),
            final(self)@ == refilled(
                old(self)@,
                Seq::new(values@.len(), |k: int| *final(values@[k])),
            ),
            final(self).wf(),
    {
        proof {
            lemma_refilled_any(self@);
            lemma_same_kinds(self.records@, self.free@);
        }
        let mut values: Vec<&mut T> = Vec::new();
        let ghost whole = self.records@;
        let mut rest: &mut [Record<T>] = self.records.as_mut_slice();
        let mut i: usize = 0;
        while rest.len() > 0
            invariant
                i + rest@.len() == whole.len(),
                rest@ == whole.subrange(i as int, whole.len() as int),
                values@.len() == live_handles(whole.take(i as int)).len(),
                forall|k: int|
                    0 <= k < values@.len() ==> *(#[trigger] values@[k]) == value_at(
                        whole,
                        live_handles(whole.take(i as int))[k],
                    ),
                whole.len() <= usize::MAX,
                after_borrow(self.records)@ == refilled(
                    whole.take(i as int),
                    Seq::new(values@.len(), |k: int| *final(values@[k])),
                ) + final(rest)@,
            decreases rest@.len(),
        {
            proof {
                assert(whole.take(i + 1).drop_last() =~= whole.take(i as int));
            }
            let ghost taken = values@;
            let ghost record = rest@[0];
            assert(record == whole[i as int]);
            let (first, tail) = split_first_value(rest);
            match first {
                Some(value) => {
                    values.push(value);
                    assert(Seq::new(values@.len(), |k: int| *final(values@[k])).drop_last()
                        =~= Seq::new(taken.len(), |k: int| *final(taken[k])));
                },
                None => {},
            }
            rest = tail;
            i = i + 1;
            assert(after_borrow(self.records)@ =~= refilled(
                whole.take(i as int),
                Seq::new(values@.len(), |k: int| *final(values@[k])),
            ) + final(rest)@);
        }
        proof {
            assert(whole.take(i as int) =~= whole);
        }
        values
    }

    /// The values of the pool with their handles, each value for writing,
    /// in the order of their slots.
    pub fn pair_iter_mut(&mut self) -> (pairs: Vec<(Handle, &mut T)>)
        requires
            old(self).wf(),
        ensures
            pairs@.len() == live_handles(old(self)@).len(),
            forall|k: int|
                0 <= k < pairs@.len() ==> (#[trigger] pairs@[k]).0 == live_handles(old(self)@)[k]
                    && *pairs@[k].1 == value_at(old(self)@, live_handles(old(self)@)[k]),
            final(self)@ == refilled(
                old(self)@,
                Seq::new(pairs@.len(), |k: int| *final(pairs@[k].1)),
            ),
            final(self).wf(),
    {
        proof {
            lemma_refilled_any(self@);
            lemma_same_kinds(self.records@, self.free@);
        }
        let mut pairs: Vec<(Handle, &mut T)> = Vec::new();
        let ghost whole = self.records@;
        let mut rest: &mut [Record<T>] = self.records.as_mut_slice();
        let mut i: usize = 0;
        while rest.len() > 0
            invariant
                i + rest@.len() == whole.len(),
                rest@ == whole.subrange(i as int, whole.len() as int),
                pairs@.len() == live_handles(whole.take(i as int)).len(),
                forall|k: int|
                    0 <= k < pairs@.len() ==> (#[trigger] pairs@[k]).0 == live_handles(
                        whole.take(i as int),
                    )[k] && *pairs@[k].1 == value_at(whole, live_handles(whole.take(i as int))[k]),
                whole.len() <= usize::MAX,
                after_borrow(self.records)@ == refilled(
                    whole.take(i as int),
                    Seq::new(pairs@.len(), |k: int| *final(pairs@[k].1)),
                ) + final(rest)@,
            decreases rest@.len(),
        {
            proof {
                assert(whole.take(i + 1).drop_last() =~= whole.take(i as int));
            }
            let ghost taken = pairs@;
            let ghost record = rest@[0];
            assert(record == whole[i as int]);
            let generation: u32 = rest[0].generation;
            let (first, tail) = split_first_value(rest);
            match first {
                Some(value) => {
                    pairs.push((Handle { index: i, generation }, value));
                    assert(Seq::new(pairs@.len(), |k: int| *final(pairs@[k].1)).drop_last()
                        =~= Seq::new(taken.len(), |k: int| *final(taken[k].1)));
                },
                None => {},
            }
            rest = tail;
            i = i + 1;
            assert(after_borrow(self.records)@ =~= refilled(
                whole.take(i as int),
                Seq::new(pairs@.len(), |k: int| *final(pairs@[k].1)),
            ) + final(rest)@);
        }
        proof {
            assert(whole.take(i as int) =~= whole);
        }
        pairs
    }

    /// The values that two handles refer to, both for writing. The handles
    /// must refer to different slots.
    pub fn borrow_two_mut(&mut self, handles: (Handle, Handle)) -> (r: (&mut T, &mut T))
        requires
            old(self).wf(),
            holds(old(self)@, handles.0),
            holds(old(self)@, handles.1),
            handles.0.index != handles.1.index,
        ensures
            *r.0 == value_at(old(self)@, handles.0),
            *r.1 == value_at(old(self)@, handles.1),
            final(self)@ == restored2(
                old(self)@,
                handles.0.index as int,
                *final(r.0),
                handles.1.index as int,
                *final(r.1),
            ),
            final(self).wf(),
    {
        proof {
            lemma_same_kinds(self.records@, self.free@);
        }
        pick_two(self.records.as_mut_slice(), handles.0.index, handles.1.index)
    }

    /// The values that three handles refer to, all for writing, or an error
    /// where two of the handles refer to the same slot.
    pub fn borrow_three_mut(&mut self, handles: (Handle, Handle, Handle)) -> (r: Result<
        (&mut T, &mut T, &mut T),
        BorrowError,
    >)
        requires
            old(self).wf(),
            holds(old(self)@, handles.0),
            holds(old(self)@, handles.1),
            holds(old(self)@, handles.2),
        ensures
            r is Err <==> handles.0.index == handles.1.index || handles.0.index == handles.2.index
                || handles.1.index == handles.2.index,
            r is Err ==> final(self)@ == old(self)@,
            r is Ok ==> {
                let (a, b, c) = r->Ok_0;
                &&& *a == value_at(old(self)@, handles.0)
                &&& *b == value_at(old(self)@, handles.1)
                &&& *c == value_at(old(self)@, handles.2)
                &&& final(self)@ == restored3(
                    old(self)@,
                    handles.0.index as int,
                    *final(a),
                    handles.1.index as int,
                    *final(b),
                    handles.2.index as int,
                    *final(c),
                )
            },
            final(self).wf(),
    {
        proof {
            lemma_same_kinds(self.records@, self.free@);
        }
        if handles.0.index == handles.1.index || handles.0.index == handles.2.index
            || handles.1.index == handles.2.index {
            return Err(BorrowError::Overlap);
        }
        Ok(
            pick_three(
                self.records.as_mut_slice(),
                handles.0.index,
                handles.1.index,
                handles.2.index,
            ),
        )
    }

    /// The values that four handles refer to, all for writing. The handles
    /// must refer to different slots.
    pub fn borrow_four_mut(&mut self, handles: (Handle, Handle, Handle, Handle)) -> (r: (
        &mut T,
        &mut T,
        &mut T,
        &mut T,
    ))
        requires
            old(self).wf(),
            holds(old(self)@, handles.0),
            holds(old(self)@, handles.1),
            holds(old(self)@, handles.2),
            holds(old(self)@, handles.3),
            handles.0.index != handles.1.index,
            handles.0.index != handles.2.index,
            handles.0.index != handles.3.index,
            handles.1.index != handles.2.index,
            handles.1.index != handles.3.index,
            handles.2.index != handles.3.index,
        ensures
            *r.0 == value_at(old(self)@, handles.0),
            *r.1 == value_at(old(self)@, handles.1),
            *r.2 == value_at(old(self)@, handles.2),
            *r.3 == value_at(old(self)@, handles.3),
            final(self)@ == restored4(
                old(self)@,
                handles.0.index as int,
                *final(r.0),
                handles.1.index as int,
                *final(r.1),
                handles.2.index as int,
                *final(r.2),
                handles.3.index as int,
                *final(r.3),
            ),
            final(self).wf(),
    {
        proof {
            lemma_same_kinds(self.records@, self.free@);
        }
        pick_four(
            self.records.as_mut_slice(),
            handles.0.index,
            handles.1.index,
            handles.2.index,
            handles.3.index,
        )
    }

    /// Removes the value that `h` refers to and returns it. The slot's
    /// generation moves on, so `h` and its copies are stale from now on.
    pub fn free(&mut self, h: Handle) -> (value: T)
        requires
            old(self).wf(),
            holds(old(self)@, h),
        ensures
            final(self).wf(),
            value == value_at(old(self)@, h),
            final(self)@ == released(old(self)@, h.index as int),
    {
        let mut slot: Slot<T> = Slot::Vacant;
        std::mem::swap(&mut self.records[h.index].slot, &mut slot);
        proof {
            self.lemma_emptied(*old(self), h.index);
        }
        self.retire_or_recycle(h.index);
        match slot {
            Slot::Occupied(value) => value,
            _ => vstd::pervasive::unreached(),
        }
    }

    /// Moves the generation of the vacant slot `i` on and, unless that
    /// retires the slot, lists it for reuse.
    fn retire_or_recycle(&mut self, i: usize)
        requires
            i < old(self)@.len(),
            old(self)@[i as int].slot is Vacant,
            1 <= old(self)@[i as int].generation < LAST_GENERATION,
            generations_ok(old(self)@),
            old(self).free@.no_duplicates(),
            forall|k: int|
                0 <= k < old(self).free@.len() ==> (#[trigger] old(self).free@[k]) != i
                    && is_reusable(old(self).records@, old(self).free@[k] as int),
            forall|j: int| #[trigger]
                is_reusable(old(self).records@, j) && j != i ==> old(self).free@.contains(
                    j as usize,
                ),
        ensures
            final(self).wf(),
            final(self)@ == released(old(self)@, i as int),
    {
        let ghost listed = self.free@;
        let next: u32 = self.records[i].generation + 1;
        self.records[i].generation = next;
        if next < LAST_GENERATION {
            self.free.push(i);
        }
        proof {
            assert forall|k: int| 0 <= k < self.free@.len() implies is_reusable(
                self.records@,
                (#[trigger] self.free@[k]) as int,
            ) by {
                if k < listed.len() {
                    assert(self.free@[k] == listed[k]);
                    assert(is_reusable(old(self).records@, listed[k] as int));
                }
            }
            assert forall|a: int, b: int|
                0 <= a < self.free@.len() && 0 <= b < self.free@.len() && a
                    != b implies self.free@[a] != self.free@[b] by {
                if a < listed.len() {
                    assert(self.free@[a] == listed[a]);
                }
                if b < listed.len() {
                    assert(self.free@[b] == listed[b]);
                }
            }
            assert forall|j: int| #[trigger]
                is_reusable(self.records@, j) implies self.free@.contains(j as usize) by {
                if j == i {
                    assert(self.free@[listed.len() as int] == i);
                } else {
                    assert(is_reusable(old(self).records@, j));
                    assert(listed.contains(j as usize));
                    let k = choose|k: int| 0 <= k < listed.len() && listed[k] == j as usize;
                    assert(self.free@[k] == j as usize);
                }
            }
            assert(self@ =~= released(old(self)@, i as int));
        }
    }

    /// Takes the value that `h` refers to out of the pool and reserves its
    /// slot: until the ticket is put back or forgotten the slot is neither
    /// valid nor reused.
    pub fn take_reserve(&mut self, h: Handle) -> (out: (Ticket, T))
        requires
            old(self).wf(),
            holds(old(self)@, h),
        ensures
            final(self).wf(),
            out.0@ == h.index,
            out.1 == value_at(old(self)@, h),
            final(self)@ == reserved(old(self)@, h.index as int),
    {
        let mut slot: Slot<T> = Slot::Reserved;
        std::mem::swap(&mut self.records[h.index].slot, &mut slot);
        proof {
            assert(self@ =~= reserved(old(self)@, h.index as int));
            self.lemma_refilled_slot(*old(self), h.index);
        }
        match slot {
            Slot::Occupied(value) => (Ticket { index: h.index }, value),
            _ => vstd::pervasive::unreached(),
        }
    }

    /// Whether `ticket` is for a slot that this pool keeps reserved.
    pub fn is_reserved(&self, ticket: &Ticket) -> (b: bool)
        ensures
            b == is_reserved(self@, ticket@),
    {
        ticket.index < self.records.len() && matches!(
            self.records[ticket.index].slot,
            Slot::Reserved
        )
    }

    /// Stores `value` in the slot that `ticket` reserved. The handle returned
    /// is the one that referred to the slot when it was reserved.
    pub fn put_back(&mut self, ticket: Ticket, value: T) -> (h: Handle)
        requires
            old(self).wf(),
            is_reserved(old(self)@, ticket@),
        ensures
            final(self).wf(),
            h == handle_at(old(self)@, ticket@ as int),
            final(self)@ == restored(old(self)@, ticket@ as int, value),
    {
        let i: usize = ticket.index;
        self.records[i].slot = Slot::Occupied(value);
        proof {
            assert(self@ =~= restored(old(self)@, i as int, value));
            self.lemma_refilled_slot(*old(self), i);
        }
        Handle { index: i, generation: self.records[i].generation }
    }

    /// Gives up the slot that `ticket` reserved. Its generation moves on, so
    /// that handles issued for it before are stale for good.
    pub fn forget_ticket(&mut self, ticket: Ticket)
        requires
            old(self).wf(),
            is_reserved(old(self)@, ticket@),
        ensures
            final(self).wf(),
            final(self)@ == released(old(self)@, ticket@ as int),
    {
        let i: usize = ticket.index;
        self.records[i].slot = Slot::Vacant;
        proof {
            self.lemma_emptied(*old(self), i);
        }
        self.retire_or_recycle(i);
        assert(self@ =~= released(old(self)@, i as int));
    }
}

} // verus!
