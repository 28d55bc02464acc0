//! Packing of entries into 64-bit words, and their placement at shuffled
//! slots linked by successor pointers.
use vstd::prelude::*;
use vstd::set_lib::{lemma_int_range, lemma_subset_equality, set_int_range};
use crate::scanner::AsmEntry;

verus! {

/// The word holding background, foreground, successor slot, repeat count and
/// character, most significant field first (8, 8, 32, 8 and 8 bits).
pub open spec fn pack_bits(bg: u8, fg: u8, next: u32, repeat: u8, ch: u8) -> u64 {
    ((bg as u64) << 56u64) | ((fg as u64) << 48u64) | ((next as u64) << 16u64) | ((
    repeat as u64) << 8u64) | (ch as u64)
}

/// The packed word of an entry whose successor sits at slot `next`.
pub open spec fn packed_entry(e: AsmEntry, next: u32) -> u64 {
    pack_bits(e.color_bg, e.color_fg, next, e.repeat, e.character)
}

/// The successor slot held in a packed word.
pub open spec fn next_field(p: u64) -> u32 {
    ((p >> 16u64) & 0xffff_ffffu64) as u32
}

/// The entry held in a packed word.
pub open spec fn entry_field(p: u64) -> AsmEntry {
    AsmEntry {
        color_bg: ((p >> 56u64) & 0xffu64) as u8,
        color_fg: ((p >> 48u64) & 0xffu64) as u8,
        repeat: ((p >> 8u64) & 0xffu64) as u8,
        character: (p & 0xffu64) as u8,
    }
}

/// Unpacking a packed word gives back the entry and the successor slot.
pub proof fn lemma_unpack(e: AsmEntry, next: u32)
    ensures
        next_field(packed_entry(e, next)) == next,
        entry_field(packed_entry(e, next)) == e,
{
    let bg = e.color_bg;
    let fg = e.color_fg;
    let rp = e.repeat;
    let ch = e.character;
    let p = pack_bits(bg, fg, next, rp, ch);
    assert(((pack_bits(bg, fg, next, rp, ch) >> 16u64) & 0xffff_ffffu64) == next as u64)
        by (bit_vector);
    assert(((pack_bits(bg, fg, next, rp, ch) >> 56u64) & 0xffu64) == bg as u64) by (bit_vector);
    assert(((pack_bits(bg, fg, next, rp, ch) >> 48u64) & 0xffu64) == fg as u64) by (bit_vector);
    assert(((pack_bits(bg, fg, next, rp, ch) >> 8u64) & 0xffu64) == rp as u64) by (bit_vector);
    assert((pack_bits(bg, fg, next, rp, ch) & 0xffu64) == ch as u64) by (bit_vector);
}

/// Packs an entry and the slot of its successor into one word.
pub fn pack_entry(e: &AsmEntry, next: u32) -> (r: u64)
    ensures
        r == packed_entry(*e, next),
{
    ((e.color_bg as u64) << 56u64) | ((e.color_fg as u64) << 48u64) | ((next as u64) << 16u64)
        | ((e.repeat as u64) << 8u64) | (e.character as u64)
}

/// The successor slot held in a packed word.
pub fn next_slot(p: u64) -> (r: u32)
    ensures
        r == next_field(p),
{
    ((p >> 16u64) & 0xffff_ffffu64) as u32
}

/// The entry held in a packed word.
pub fn unpack_entry(p: u64) -> (r: AsmEntry)
    ensures
        r == entry_field(p),
{
    AsmEntry {
        color_bg: ((p >> 56u64) & 0xffu64) as u8,
        color_fg: ((p >> 48u64) & 0xffu64) as u8,
        repeat: ((p >> 8u64) & 0xffu64) as u8,
        character: (p & 0xffu64) as u8,
    }
}

/// `order` gives the slots of entries 1..n-1 of `n` entries: the numbers
/// 1..n-1, each once.
pub open spec fn is_slot_order(order: Seq<u32>, n: nat) -> bool {
    &&& order.len() + 1 == n
    &&& order.no_duplicates()
    &&& forall|k: int| 0 <= k < order.len() ==> 1 <= #[trigger] order[k] < n
}

/// Slot of logical entry `i`: entry 0 stays at slot 0.
pub open spec fn slot_of(order: Seq<u32>, i: int) -> int {
    if i == 0 {
        0
    } else {
        order[i - 1] as int
    }
}

/// Successor pointer of logical entry `i`: the slot of entry `i + 1`, and 0
/// for the last entry.
pub open spec fn next_slot_of(order: Seq<u32>, i: int) -> u32 {
    if i < order.len() {
        order[i]
    } else {
        0
    }
}

/// `packed` holds, at the slot of each logical entry, that entry packed with
/// its successor pointer.
pub open spec fn is_linked_layout(packed: Seq<u64>, entries: Seq<AsmEntry>, order: Seq<u32>) -> bool {
    &&& packed.len() == entries.len()
    &&& forall|i: int|
        0 <= i < entries.len() ==> packed[slot_of(order, i)] == packed_entry(
            #[trigger] entries[i],
            next_slot_of(order, i),
        )
}

/// Places each entry, packed with its successor pointer, at its slot.
pub fn link_entries(entries: &Vec<AsmEntry>, order: &Vec<u32>) -> (r: Vec<u64>)
    requires
        is_slot_order(order@, entries@.len()),
    ensures
        is_linked_layout(r@, entries@, order@),
{
    let n = entries.len();
    let mut out: Vec<u64> = Vec::new();
    let mut k: usize = 0;
    while k < n
        invariant
            k <= n,
            out@.len() == k,
        decreases n - k,
    {
        out.push(0);
        k += 1;
    }
    let mut i: usize = 0;
    while i < n
        invariant
            n == entries@.len(),
            is_slot_order(order@, n as nat),
            i <= n,
            out@.len() == n,
            forall|j: int|
                0 <= j < i ==> out@[slot_of(order@, j)] == packed_entry(
                    #[trigger] entries@[j],
                    next_slot_of(order@, j),
                ),
        decreases n - i,
    {
        let slot: usize = if i == 0 {
            0
        } else {
            order[i - 1] as usize
        };
        let next: u32 = if i + 1 < n {
            order[i]
        } else {
            0
        };
        let p = pack_entry(&entries[i], next);
        out.set(slot, p);
        proof {
            assert forall|j: int| 0 <= j < i implies slot_of(order@, j) != slot as int by {
                if j > 0 {
                    assert(order@[j - 1] != order@[i - 1]);
                }
            }
        }
        i += 1;
    }
    out
}

/// Relies on rand's `SliceRandom::shuffle`, driven by a `StdRng` seeded
/// through `SeedableRng::seed_from_u64`: the shuffle only swaps elements, so
/// it leaves a rearrangement of the input.
#[verifier::external_body]
fn shuffle_slots(v: &mut Vec<u32>, seed: u64)
    ensures
        final(v)@.to_multiset() == old(v)@.to_multiset(),
{
    let mut rng = <rand::rngs::StdRng as rand::SeedableRng>::seed_from_u64(seed);
    rand::seq::SliceRandom::shuffle(v.as_mut_slice(), &mut rng);
}

/// A uniformly shuffled slot order for `n` entries, drawn from a generator
/// seeded with `seed`.
pub fn shuffled_order(n: usize, seed: u64) -> (r: Vec<u32>)
    requires
        1 <= n <= 0x1_0000_0000,
    ensures
        is_slot_order(r@, n as nat),
{
    let mut v: Vec<u32> = Vec::new();
    let mut k: usize = 1;
    while k < n
        invariant
            1 <= k <= n,
            n <= 0x1_0000_0000,
            v@ =~= Seq::new((k - 1) as nat, |j: int| (j + 1) as u32),
        decreases n - k,
    {
        v.push(k as u32);
        k += 1;
    }
    let ghost before = v@;
    assert(before.no_duplicates());
    shuffle_slots(&mut v, seed);
    proof {
        let after = v@;
        before.to_multiset_ensures();
        after.to_multiset_ensures();
        before.lemma_multiset_has_no_duplicates();
        after.lemma_multiset_has_no_duplicates_conv();
        assert forall|k: int| 0 <= k < after.len() implies 1 <= #[trigger] after[k] < n by {
            assert(after.contains(after[k]));
            assert(after.to_multiset().count(after[k]) > 0);
            assert(before.to_multiset().count(after[k]) > 0);
            assert(before.contains(after[k]));
        }
    }
    v
}

/// Slot reached from slot 0 after following `k` successor pointers.
pub open spec fn walk(packed: Seq<u64>, k: nat) -> int
    decreases k,
{
    if k == 0 {
        0
    } else {
        next_field(packed[walk(packed, (k - 1) as nat)]) as int
    }
}

/// Some logical entry sits at slot `s`.
pub open spec fn slot_taken(order: Seq<u32>, s: int) -> bool {
    exists|i: int| 0 <= i <= order.len() && #[trigger] slot_of(order, i) == s
}

/// In a linked layout of `n` entries the slots form a bijection onto 0..n-1,
/// and following successor pointers from slot 0 visits every entry once, in
/// the order they were scanned in.
pub proof fn lemma_layout_traversal(packed: Seq<u64>, entries: Seq<AsmEntry>, order: Seq<u32>)
    requires
        is_slot_order(order, entries.len()),
        is_linked_layout(packed, entries, order),
    ensures
        forall|i: int| 0 <= i < entries.len() ==> 0 <= #[trigger] slot_of(order, i) < entries.len(),
        forall|i: int, j: int|
            0 <= i < entries.len() && 0 <= j < entries.len() && i != j ==> #[trigger] slot_of(
                order,
                i,
            ) != #[trigger] slot_of(order, j),
        forall|s: int| 0 <= s < entries.len() ==> #[trigger] slot_taken(order, s),
        forall|k: nat|
            k < entries.len() ==> #[trigger] walk(packed, k) == slot_of(order, k as int)
                && entry_field(packed[walk(packed, k)]) == entries[k as int],
{
    let n = entries.len();
    assert forall|i: int, j: int|
        0 <= i < n && 0 <= j < n && i != j implies #[trigger] slot_of(order, i)
        != #[trigger] slot_of(order, j) by {
        if i > 0 && j > 0 {
            assert(order[i - 1] != order[j - 1]);
        } else if i > 0 {
            assert(1 <= order[i - 1]);
        } else if j > 0 {
            assert(1 <= order[j - 1]);
        }
    }
    let ints = order.map_values(|x: u32| x as int);
    assert(ints.no_duplicates()) by {
        assert forall|a: int, b: int| 0 <= a < ints.len() && 0 <= b < ints.len() && a != b
            implies ints[a] != ints[b] by {
            assert(order[a] != order[b]);
        }
    }
    ints.unique_seq_to_set();
    lemma_int_range(1, n as int);
    assert(ints.to_set().subset_of(set_int_range(1, n as int))) by {
        assert forall|s: int| ints.to_set().contains(s) implies set_int_range(1, n as int).contains(
            s,
        ) by {
            let k = choose|k: int| 0 <= k < ints.len() && ints[k] == s;
            assert(1 <= order[k] < n);
        }
    }
    lemma_subset_equality(ints.to_set(), set_int_range(1, n as int));
    assert forall|s: int| 0 <= s < n implies #[trigger] slot_taken(order, s) by {
        if s == 0 {
            assert(slot_of(order, 0) == 0);
        } else {
            assert(set_int_range(1, n as int).contains(s));
            assert(ints.to_set().contains(s));
            let k = choose|k: int| 0 <= k < ints.len() && ints[k] == s;
            assert(slot_of(order, k + 1) == s);
        }
    }
    assert forall|k: nat| k < n implies #[trigger] walk(packed, k) == slot_of(order, k as int)
        && entry_field(packed[walk(packed, k)]) == entries[k as int] by {
        lemma_walk(packed, entries, order, k);
    }
}

/// Following successor pointers from slot 0 stays inside `packed` and meets
/// `packed.len()` distinct slots.
pub open spec fn chain_ok(packed: Seq<u64>) -> bool {
    &&& packed.len() >= 1
    &&& forall|k: nat| k < packed.len() ==> 0 <= #[trigger] walk(packed, k) < packed.len()
    &&& forall|k1: nat, k2: nat|
        k1 < k2 < packed.len() ==> #[trigger] walk(packed, k1) != #[trigger] walk(packed, k2)
}

/// The entries met along the chain from slot 0, in order.
pub open spec fn chain_entries(packed: Seq<u64>) -> Seq<AsmEntry> {
    Seq::new(packed.len(), |k: int| entry_field(packed[walk(packed, k as nat)]))
}

/// A linked layout decodes, by following pointers from slot 0, to the
/// entries it was built from.
pub proof fn lemma_linked_layout_decodes(
    packed: Seq<u64>,
    entries: Seq<AsmEntry>,
    order: Seq<u32>,
)
    requires
        is_slot_order(order, entries.len()),
        is_linked_layout(packed, entries, order),
    ensures
        chain_ok(packed),
        chain_entries(packed) == entries,
{
    lemma_layout_traversal(packed, entries, order);
    assert forall|k1: nat, k2: nat| k1 < k2 < packed.len() implies #[trigger] walk(packed, k1)
        != #[trigger] walk(packed, k2) by {
        assert(walk(packed, k1) == slot_of(order, k1 as int));
        assert(walk(packed, k2) == slot_of(order, k2 as int));
    }
    assert forall|k: nat| k < packed.len() implies 0 <= #[trigger] walk(packed, k) < packed.len() by {
        assert(walk(packed, k) == slot_of(order, k as int));
    }
    assert(chain_entries(packed) =~= entries);
}

/// Follows successor pointers from slot 0 through `packed.len()` words and
/// returns the entries met, or `None` when the chain leaves the layout or
/// meets a slot twice.
pub fn decode_chain(packed: &Vec<u64>) -> (r: Option<Vec<AsmEntry>>)
    ensures
        r.is_some() == chain_ok(packed@),
        r matches Some(es) ==> es@ == chain_entries(packed@),
{
    let n = packed.len();
    if n == 0 {
        return None;
    }
    let mut visited: Vec<bool> = Vec::new();
    let mut k: usize = 0;
    while k < n
        invariant
            k <= n,
            visited@.len() == k,
            forall|s: int| 0 <= s < k ==> !visited@[s],
        decreases n - k,
    {
        visited.push(false);
        k += 1;
    }
    let mut out: Vec<AsmEntry> = Vec::new();
    let mut slot: usize = 0;
    let mut i: usize = 0;
    while i < n
        invariant
            n == packed@.len(),
            i <= n,
            visited@.len() == n,
            slot as int == walk(packed@, i as nat),
            forall|s: int|
                0 <= s < n ==> (visited@[s] <==> exists|k: nat|
                    k < i && #[trigger] walk(packed@, k) == s),
            forall|k: nat| k < i ==> 0 <= #[trigger] walk(packed@, k) < n,
            forall|k1: nat, k2: nat|
                k1 < k2 < i ==> #[trigger] walk(packed@, k1) != #[trigger] walk(packed@, k2),
            out@ =~= chain_entries(packed@).take(i as int),
        decreases n - i,
    {
        if slot >= n {
            return None;
        }
        if visited[slot] {
            proof {
                let k = choose|k: nat| k < i && #[trigger] walk(packed@, k) == slot as int;
                assert(walk(packed@, k) == walk(packed@, i as nat));
            }
            return None;
        }
        visited.set(slot, true);
        out.push(unpack_entry(packed[slot]));
        let next = next_slot(packed[slot]);
        proof {
            assert(walk(packed@, (i + 1) as nat) == next as int);
            assert forall|s: int| 0 <= s < n implies (visited@[s] <==> exists|k: nat|
                k < i + 1 && #[trigger] walk(packed@, k) == s) by {
                if s == slot as int {
                    assert(walk(packed@, i as nat) == s);
                } else if visited@[s] {
                    let k = choose|k: nat| k < i && #[trigger] walk(packed@, k) == s;
                    assert(k < i + 1);
                }
            }
            assert forall|k1: nat, k2: nat| k1 < k2 < i + 1 implies #[trigger] walk(packed@, k1)
                != #[trigger] walk(packed@, k2) by {
                if k2 == i {
                    if walk(packed@, k1) == walk(packed@, k2) {
                        assert(visited@[slot as int]);
                    }
                }
            }
        }
        slot = next as usize;
        i += 1;
    }
    Some(out)
}

proof fn lemma_walk(packed: Seq<u64>, entries: Seq<AsmEntry>, order: Seq<u32>, k: nat)
    requires
        is_slot_order(order, entries.len()),
        is_linked_layout(packed, entries, order),
        k < entries.len(),
    ensures
        walk(packed, k) == slot_of(order, k as int),
        entry_field(packed[walk(packed, k)]) == entries[k as int],
    decreases k,
{
    if k > 0 {
        let k1 = (k - 1) as nat;
        lemma_walk(packed, entries, order, k1);
        lemma_unpack(entries[k1 as int], next_slot_of(order, k1 as int));
    }
    lemma_unpack(entries[k as int], next_slot_of(order, k as int));
}

} // verus!
