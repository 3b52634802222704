//! Identifiers of representations, and their allocation from a shared counter.

use crate::text::decimal;
use crate::text::decimal_digits;
use std::sync::atomic::AtomicU64;
use std::sync::atomic::Ordering;
use vstd::prelude::*;
use vstd::std_specs::convert::FromSpecImpl;
use vstd::string::StringExecFns;

verus! {

/// An opaque name for one representation in the IR: a 64-bit number that is never zero.
///
/// Identifiers are handed out in blocks from a counter that all allocating parties share. The
/// counter holds the highest number handed out so far, so each allocation yields numbers
/// strictly greater than every earlier one.
#[derive(Clone, Copy, Debug, PartialEq, Eq, Hash, PartialOrd, Ord, Structural)]
pub struct Id {
    value: u64,
}

impl View for Id {
    type V = u64;

    closed spec fn view(&self) -> u64 {
        self.value
    }
}

/// The identifiers that one allocation of `len` identifiers yields when the counter stood at
/// `prev`: the numbers `prev + 1` to `prev + len`.
pub open spec fn block(prev: nat, len: nat) -> Set<nat> {
    Set::new(|n: nat| prev < n <= prev + len)
}

/// How many identifiers allocations of the sizes `sizes` ask for in all.
pub open spec fn total(sizes: Seq<nat>) -> nat
    decreases sizes.len(),
{
    if sizes.len() == 0 {
        0
    } else {
        total(sizes.drop_last()) + sizes.last()
    }
}

/// The block that the allocation number `i` yields, when allocations of the sizes `sizes` take
/// effect in that order on a counter that stood at `start`.
pub open spec fn block_of(start: nat, sizes: Seq<nat>, i: int) -> Set<nat>
    recommends
        0 <= i < sizes.len(),
{
    block(start + total(sizes.take(i)), sizes[i])
}

/// All identifiers that those allocations yield.
pub open spec fn handed_out(start: nat, sizes: Seq<nat>) -> Set<nat> {
    Set::new(|n: nat| exists|i: int| 0 <= i < sizes.len() && block_of(start, sizes, i).contains(n))
}

/// `ids` are the identifiers that follow `prev`, in ascending order.
pub open spec fn follows(prev: u64, ids: Seq<Id>) -> bool {
    forall|i: int| 0 <= i < ids.len() ==> (#[trigger] ids[i])@ == prev + 1 + i
}

impl Id {
    #[verifier::type_invariant]
    spec fn nonzero(&self) -> bool {
        self.value != 0
    }

    /// Two identifiers are the same exactly when their numbers are.
    pub broadcast proof fn lemma_view_injective(a: Id, b: Id)
        ensures
            #[trigger] a@ == #[trigger] b@ <==> a == b,
    {
    }

    /// The identifier with the number `value`.
    pub(crate) fn from_number(value: u64) -> (id: Id)
        requires
            value != 0,
        ensures
            id@ == value,
    {
        Id { value }
    }

    /// The number of this identifier.
    pub fn number(self) -> (value: u64)
        ensures
            value == self@,
            value != 0,
    {
        proof {
            use_type_invariant(&self);
        }
        self.value
    }

    /// Allocates one identifier from `highest_id`: the number that follows the counter's value.
    /// Returns `None` when the counter is exhausted.
    ///
    /// An exhausted counter is spent. The step that found it exhausted has wrapped it around,
    /// so a later allocation from it could yield a number a second time: a caller that gets
    /// `None` must never allocate from that counter again.
    pub fn new(highest_id: &AtomicU64) -> (out: Option<Id>)
        ensures
            out matches Some(id) ==> id@ != 0,
    {
        match Id::new_array::<1>(highest_id) {
            Some(ids) => Some(ids[0]),
            None => None,
        }
    }

    /// Allocates `LEN` identifiers from `highest_id` in one atomic step. They are consecutive
    /// numbers, in ascending order. Returns `None` when the counter is exhausted, and the
    /// counter is then spent, as for [`Id::new`]. An allocation of no identifiers cannot
    /// exhaust the counter.
    pub fn new_array<const LEN: usize>(highest_id: &AtomicU64) -> (out: Option<[Id; LEN]>)
        ensures
            LEN == 0 ==> out is Some,
            out matches Some(ids) ==> exists|prev: u64|
                prev + LEN <= u64::MAX && #[trigger] follows(prev, ids@),
    {
        let prev = fetch_and_advance(highest_id, Id::array_len::<LEN>());
        Id::array_after::<LEN>(prev)
    }

    /// `LEN` as a 64-bit number.
    fn array_len<const LEN: usize>() -> (len: u64)
        ensures
            len == LEN,
    {
        LEN as u64
    }

    /// The `LEN` identifiers that follow `prev`, in ascending order; `None` if they would not
    /// all fit in 64 bits.
    pub fn array_after<const LEN: usize>(prev: u64) -> (out: Option<[Id; LEN]>)
        ensures
            out.is_some() <==> prev + LEN <= u64::MAX,
            out matches Some(ids) ==> follows(prev, ids@),
    {
        if LEN as u64 > u64::MAX - prev {
            return None;
        }
        let mut ids: [Id; LEN] = [Id { value: 1 };LEN];
        let mut done: usize = 0;
        while done < LEN
            invariant
                done <= LEN,
                prev + LEN <= u64::MAX,
                forall|i: int| 0 <= i < done ==> (#[trigger] ids@[i])@ == prev + 1 + i,
            decreases LEN - done,
        {
            ids[done] = Id { value: prev + 1 + done as u64 };
            done = done + 1;
        }
        Some(ids)
    }

    /// Renders the identifier as `Id(n)`, with its number in decimal.
    pub fn to_string(&self) -> (out: String)
        ensures
            out@ == "Id("@ + decimal_digits(self@ as nat) + ")"@,
    {
        let mut out = String::from_str("Id(");
        out.append(decimal(self.value).as_str());
        out.append(")");
        out
    }
}

/// Adds `len` to the counter and returns the value it had before. The counter is shared, so
/// nothing is known of that value here.
fn fetch_and_advance(highest_id: &AtomicU64, len: u64) -> u64 {
    highest_id.fetch_add(len, Ordering::Relaxed)
}

impl From<Id> for u64 {
    fn from(value: Id) -> (out: u64) {
        value.number()
    }
}

impl FromSpecImpl<Id> for u64 {
    open spec fn obeys_from_spec() -> bool {
        true
    }

    open spec fn from_spec(value: Id) -> u64 {
        value@
    }
}

/// The identifiers that one allocation yields are its block, each number of the block once,
/// in ascending order.
pub proof fn lemma_follows_fills_block(prev: u64, ids: Seq<Id>)
    requires
        follows(prev, ids),
    ensures
        forall|n: nat|
            block(prev as nat, ids.len()).contains(n) <==> exists|i: int|
                0 <= i < ids.len() && (#[trigger] ids[i])@ == n,
        forall|i: int, j: int| 0 <= i < j < ids.len() ==> (#[trigger] ids[i])@ < (#[trigger] ids[j])@,
{
    assert forall|n: nat| block(prev as nat, ids.len()).contains(n) implies exists|i: int|
        0 <= i < ids.len() && (#[trigger] ids[i])@ == n by {
        let i = n - prev - 1;
        assert(ids[i]@ == n);
    }
}

/// The sizes of the allocations that yielded `results`.
pub open spec fn sizes_of(results: Seq<Seq<Id>>) -> Seq<nat> {
    results.map_values(|ids: Seq<Id>| ids.len())
}

/// The allocation number `i` of those that yielded `results` found the counter where the
/// allocations before it had left it, when the first found it at `start`, and yielded the
/// identifiers that follow.
pub open spec fn allocated_in_turn(start: u64, results: Seq<Seq<Id>>, i: int) -> bool {
    let prev = start + total(sizes_of(results).take(i));
    prev <= u64::MAX && follows(prev as u64, results[i])
}

/// Identifier uniqueness: when allocations take effect on the counter one after the other,
/// each as one atomic step, in whatever order and from whatever callers, then no identifier
/// occurs twice, neither within what one allocation yielded nor in what two of them
/// yielded, and the identifiers are exactly the numbers that follow the counter's first
/// value, as many as were asked for in all.
pub proof fn lemma_allocated_ids_differ(start: u64, results: Seq<Seq<Id>>)
    requires
        forall|i: int| 0 <= i < results.len() ==> #[trigger] allocated_in_turn(start, results, i),
    ensures
        forall|i: int, p: int, j: int, q: int|
            0 <= i < results.len() && 0 <= p < results[i].len() && 0 <= j < results.len() && 0
                <= q < results[j].len() && (i != j || p != q) ==> (#[trigger] results[i][p])
                != (#[trigger] results[j][q]),
        forall|n: nat|
            block(start as nat, total(sizes_of(results))).contains(n) <==> exists|i: int, p: int|
                0 <= i < results.len() && 0 <= p < results[i].len() && (
                #[trigger] results[i][p])@ == n,
{
    let sizes = sizes_of(results);
    lemma_blocks_tile(start as nat, sizes);
    assert forall|i: int, p: int| 0 <= i < results.len() && 0 <= p < results[i].len() implies (
    #[trigger] block_of(start as nat, sizes, i)).contains((#[trigger] results[i][p])@ as nat) by {
        assert(allocated_in_turn(start, results, i));
    }
    assert forall|i: int, p: int, j: int, q: int|
        0 <= i < results.len() && 0 <= p < results[i].len() && 0 <= j < results.len() && 0 <= q
            < results[j].len() && (i != j || p != q) implies (#[trigger] results[i][p]) != (
    #[trigger] results[j][q]) by {
        assert(allocated_in_turn(start, results, i));
        assert(allocated_in_turn(start, results, j));
        assert(block_of(start as nat, sizes, i).contains(results[i][p]@ as nat));
        assert(block_of(start as nat, sizes, j).contains(results[j][q]@ as nat));
        if i < j {
            assert(block_of(start as nat, sizes, i).disjoint(block_of(start as nat, sizes, j)));
        } else if j < i {
            assert(block_of(start as nat, sizes, j).disjoint(block_of(start as nat, sizes, i)));
        }
    }
    assert forall|n: nat| block(start as nat, total(sizes)).contains(n) <==> exists|
        i: int,
        p: int,
    |
        0 <= i < results.len() && 0 <= p < results[i].len() && (#[trigger] results[i][p])@
            == n by {
        if block(start as nat, total(sizes)).contains(n) {
            assert(handed_out(start as nat, sizes).contains(n));
            let i = choose|i: int|
                0 <= i < sizes.len() && block_of(start as nat, sizes, i).contains(n);
            assert(allocated_in_turn(start, results, i));
            let p = n - (start + total(sizes.take(i))) - 1;
            assert(results[i][p]@ == n);
        }
        if exists|i: int, p: int|
            0 <= i < results.len() && 0 <= p < results[i].len() && (#[trigger] results[i][p])@
                == n {
            let (i, p) = choose|i: int, p: int|
                0 <= i < results.len() && 0 <= p < results[i].len() && (
                #[trigger] results[i][p])@ == n;
            assert(block_of(start as nat, sizes, i).contains(results[i][p]@ as nat));
            assert(handed_out(start as nat, sizes).contains(n));
        }
    }
}

/// However many allocations take effect on the counter, and in whatever order: no identifier
/// is handed out twice, and the identifiers handed out are exactly the `total(sizes)` numbers
/// that follow the counter's first value.
pub proof fn lemma_blocks_tile(start: nat, sizes: Seq<nat>)
    ensures
        forall|i: int, j: int|
            0 <= i < j < sizes.len() ==> (#[trigger] block_of(start, sizes, i)).disjoint(
                #[trigger] block_of(start, sizes, j),
            ),
        handed_out(start, sizes) == block(start, total(sizes)),
    decreases sizes.len(),
{
    if sizes.len() > 0 {
        let init = sizes.drop_last();
        let last = sizes.len() - 1;
        lemma_blocks_tile(start, init);
        assert(sizes.take(last) =~= init);
        assert forall|i: int| 0 <= i < last implies #[trigger] block_of(start, sizes, i)
            == block_of(start, init, i) by {
            assert(sizes.take(i) =~= init.take(i));
        }
        assert forall|i: int, j: int| 0 <= i < j < sizes.len() implies (#[trigger] block_of(
            start,
            sizes,
            i,
        )).disjoint(#[trigger] block_of(start, sizes, j)) by {
            if j == last {
                assert forall|n: nat| block_of(start, sizes, i).contains(n) implies !block_of(
                    start,
                    sizes,
                    j,
                ).contains(n) by {
                    assert(block_of(start, init, i).contains(n));
                    assert(handed_out(start, init).contains(n));
                }
            }
        }
        assert forall|n: nat| handed_out(start, sizes).contains(n) <==> block(
            start,
            total(sizes),
        ).contains(n) by {
            if handed_out(start, sizes).contains(n) {
                let i = choose|i: int|
                    0 <= i < sizes.len() && block_of(start, sizes, i).contains(n);
                if i < last {
                    assert(block_of(start, init, i).contains(n));
                    assert(handed_out(start, init).contains(n));
                }
            }
            if block(start, total(sizes)).contains(n) {
                if n <= start + total(init) {
                    assert(handed_out(start, init).contains(n));
                    let i = choose|i: int|
                        0 <= i < init.len() && block_of(start, init, i).contains(n);
                    assert(block_of(start, sizes, i).contains(n));
                } else {
                    assert(block_of(start, sizes, last).contains(n));
                }
            }
        }
        assert(handed_out(start, sizes) =~= block(start, total(sizes)));
    } else {
        assert(handed_out(start, sizes) =~= block(start, total(sizes)));
    }
}

} // verus!
