//! The blocks of a term in descending order of what they reach.
use crate::bound::{SCALE, WIDE_SCALE};
use crate::count::{
    count, lemma_count_bound, lemma_count_none, lemma_count_split,
};
use vstd::prelude::*;
use vstd::relations::injective_on;
use vstd::set_lib::{lemma_int_range, lemma_map_size, lemma_subset_equality, set_int_range};

verus! {

/// The ceilings of one term's blocks, at whatever width the segment carries.
///
/// A walk asks for a block and gets a fraction of the most the term can
/// contribute, and does not have to know which section the number came out of.
#[derive(Debug, Clone, Copy)]
pub struct Ceilings<'a> {
    pub narrow: &'a [u8],
    /// The same blocks at two bytes each, or nothing.
    pub wide: &'a [u8],
}

/// A byte, or nothing past the end.
pub open spec fn byte_of(bytes: Seq<u8>, at: int) -> int {
    if 0 <= at < bytes.len() {
        bytes[at] as int
    } else {
        0
    }
}

/// What a block is ordered by.
pub open spec fn reach_of(narrow: Seq<u8>, wide: Seq<u8>, block: int) -> int {
    if wide.len() == 0 {
        byte_of(narrow, block)
    } else {
        byte_of(wide, 2 * block) + 256 * byte_of(wide, 2 * block + 1)
    }
}

/// Whether `order` is the blocks largest first, ties in document order, each of
/// them once.
pub open spec fn is_order(narrow: Seq<u8>, wide: Seq<u8>, order: Seq<u32>) -> bool {
    &&& order.len() == narrow.len()
    &&& forall|i: int| 0 <= i < order.len() ==> #[trigger] order[i] < narrow.len()
    &&& forall|block: u32| block < narrow.len() ==> #[trigger] order.contains(block)
    &&& forall|i: int, j: int|
        0 <= i < j < order.len() ==> {
            let (a, b) = (#[trigger] order[i] as int, #[trigger] order[j] as int);
            reach_of(narrow, wide, a) > reach_of(narrow, wide, b) || (reach_of(narrow, wide, a)
                == reach_of(narrow, wide, b) && a < b)
        }
}

/// A term's blocks have one order.
pub proof fn law_order_is_unique(narrow: Seq<u8>, wide: Seq<u8>, a: Seq<u32>, b: Seq<u32>)
    requires
        is_order(narrow, wide, a),
        is_order(narrow, wide, b),
    ensures
        a == b,
{
    lemma_order_prefix(narrow, wide, a, b, a.len() as int);
    assert(a =~= b);
}

proof fn lemma_order_prefix(narrow: Seq<u8>, wide: Seq<u8>, a: Seq<u32>, b: Seq<u32>, n: int)
    requires
        is_order(narrow, wide, a),
        is_order(narrow, wide, b),
        0 <= n <= a.len(),
    ensures
        forall|i: int| 0 <= i < n ==> #[trigger] a[i] == b[i],
    decreases n,
{
    if n > 0 {
        lemma_order_prefix(narrow, wide, a, b, n - 1);
        let x = a[n - 1];
        let y = b[n - 1];
        if x != y {
            assert(b.contains(x));
            assert(a.contains(y));
            let i = b.index_of(x);
            let j = a.index_of(y);
            assert(b[i] == x && a[j] == y);
            if i < n - 1 {
                assert(a[i] == b[i]);
            }
            if j < n - 1 {
                assert(a[j] == b[j]);
            }
        }
    }
}

impl<'a> Ceilings<'a> {
    /// How many blocks the term has.
    pub fn len(&self) -> (n: usize)
        ensures
            n == self.narrow@.len(),
    {
        self.narrow.len()
    }

    /// Whether the term has no ceilings at all, which is a short list or a
    /// segment written before the section existed.
    pub fn is_empty(&self) -> (empty: bool)
        ensures
            empty == (self.narrow@.len() == 0),
    {
        self.narrow.len() == 0
    }

    /// Whether these are the two byte ceilings.
    pub fn is_wide(&self) -> (wide: bool)
        ensures
            wide == (self.wide@.len() > 0),
    {
        self.wide.len() > 0
    }

    /// What a block reaches, over what a ceiling of one is stored as.
    pub fn fraction(&self, block: usize) -> (found: Option<(u16, u16)>)
        ensures
            found == if self.wide@.len() == 0 {
                if block < self.narrow@.len() {
                    Some((self.narrow@[block as int] as u16, 255u16))
                } else {
                    None
                }
            } else if 2 * block + 1 < self.wide@.len() {
                Some(
                    (
                        (self.wide@[2 * block] + 256 * self.wide@[2 * block + 1]) as u16,
                        65535u16,
                    ),
                )
            } else {
                None
            },
    {
        if self.wide.len() == 0 {
            if block < self.narrow.len() {
                return Some((self.narrow[block] as u16, SCALE as u16));
            }
            return None;
        }
        if block < self.wide.len() / 2 {
            let low: u16 = self.wide[2 * block] as u16;
            let high: u16 = self.wide[2 * block + 1] as u16;
            return Some((low + 256 * high, WIDE_SCALE));
        }
        None
    }

    /// The blocks in descending order of what they reach.
    ///
    /// A walk in this order can stop at the first block under the threshold,
    /// which is the whole point of it, so the order has to be exact and not
    /// nearly right.
    pub fn order(&self) -> (order: Vec<u32>)
        requires
            self.narrow@.len() <= u32::MAX,
        ensures
            is_order(self.narrow@, self.wide@, order@),
    {
        let mut start: Vec<u32> = Vec::with_capacity(self.narrow.len());
        while start.len() < self.narrow.len()
            invariant
                start@.len() <= self.narrow@.len() <= u32::MAX,
                forall|i: int| 0 <= i < start@.len() ==> #[trigger] start@[i] == i,
            decreases self.narrow.len() - start.len(),
        {
            let next: u32 = start.len() as u32;
            start.push(next);
        }
        if self.wide.len() == 0 {
            let order = sorted_by_byte(&start, self.narrow, 1, 0);
            proof {
                let from = choose|from: Seq<int>|
                    #[trigger] is_pass(start@, order@, self.narrow@, 1, 0, from);
                lemma_pass_covers(start@, order@, self.narrow@, 1, 0, from);
                assert forall|block: u32| block < self.narrow@.len() implies
                    #[trigger] order@.contains(block) by {
                    assert(start@[block as int] == block);
                    assert(start@.contains(block));
                }
                assert forall|i: int| 0 <= i < order@.len() implies #[trigger] order@[i]
                    == from[i] by {
                    assert(order@[i] == start@[from[i]]);
                }
            }
            return order;
        }
        // Least significant byte first and then the most significant, each pass
        // keeping the order equals arrived in, which is what leaves the whole two
        // byte key descending after the second.
        let low = sorted_by_byte(&start, self.wide, 2, 0);
        let order = sorted_by_byte(&low, self.wide, 2, 1);
        proof {
            let first = choose|from: Seq<int>|
                #[trigger] is_pass(start@, low@, self.wide@, 2, 0, from);
            let second = choose|from: Seq<int>|
                #[trigger] is_pass(low@, order@, self.wide@, 2, 1, from);
            lemma_pass_covers(start@, low@, self.wide@, 2, 0, first);
            lemma_pass_covers(low@, order@, self.wide@, 2, 1, second);
            assert forall|block: u32| block < self.narrow@.len() implies #[trigger] order@.contains(
                block,
            ) by {
                assert(start@[block as int] == block);
                assert(start@.contains(block));
                assert(low@.contains(block));
            }
            assert forall|i: int| 0 <= i < order@.len() implies #[trigger] order@[i]
                < self.narrow@.len() by {
                assert(order@[i] == low@[second[i]]);
                assert(low@[second[i]] == start@[first[second[i]]]);
            }
            assert forall|i: int, j: int| 0 <= i < j < order@.len() implies {
                let (a, b) = (#[trigger] order@[i] as int, #[trigger] order@[j] as int);
                reach_of(self.narrow@, self.wide@, a) > reach_of(self.narrow@, self.wide@, b) || (
                reach_of(self.narrow@, self.wide@, a) == reach_of(self.narrow@, self.wide@, b) && a
                    < b)
            } by {
                let (p, q) = (second[i], second[j]);
                assert(order@[i] == low@[p] && order@[j] == low@[q]);
                if p < q {
                    assert(low@[p] == start@[first[p]] && low@[q] == start@[first[q]]);
                }
            }
        }
        order
    }
}

/// The byte a block is sorted by.
pub open spec fn key_of(bytes: Seq<u8>, stride: int, at: int, block: u32) -> int {
    byte_of(bytes, block * stride + at)
}

/// One pass of a stable sort: `from` says where each block of `out` was in
/// `order`.
pub open spec fn is_pass(
    order: Seq<u32>,
    out: Seq<u32>,
    bytes: Seq<u8>,
    stride: int,
    at: int,
    from: Seq<int>,
) -> bool {
    &&& out.len() == order.len()
    &&& from.len() == order.len()
    &&& forall|i: int|
        0 <= i < out.len() ==> 0 <= #[trigger] from[i] < order.len() && out[i] == order[from[i]]
    &&& forall|p: int| 0 <= p < order.len() ==> #[trigger] from.contains(p)
    &&& forall|i: int, j: int|
        #![trigger from[i], from[j]]
        0 <= i < j < out.len() ==> goes_first(
            key_of(bytes, stride, at, out[i]),
            from[i],
            key_of(bytes, stride, at, out[j]),
            from[j],
        )
}

/// Whether a key at one place goes before a key at another.
pub open spec fn goes_first(a: int, p: int, b: int, q: int) -> bool {
    a > b || (a == b && p < q)
}

proof fn lemma_pass_covers(
    order: Seq<u32>,
    out: Seq<u32>,
    bytes: Seq<u8>,
    stride: int,
    at: int,
    from: Seq<int>,
)
    requires
        is_pass(order, out, bytes, stride, at, from),
    ensures
        forall|block: u32| order.contains(block) ==> #[trigger] out.contains(block),
{
    assert forall|block: u32| order.contains(block) implies #[trigger] out.contains(block) by {
        let p = order.index_of(block);
        assert(from.contains(p));
        let i = from.index_of(p);
        assert(out[i] == block);
    }
}

// ---------------------------------------------------------------------------
// Where a counting sort puts things.
// ---------------------------------------------------------------------------

/// The entries whose key is above `q`.
spec fn above(keys: Seq<int>, q: int) -> spec_fn(int) -> bool {
    |i: int| keys[i] > q
}

/// The entries whose key is `q`.
spec fn equal(keys: Seq<int>, q: int) -> spec_fn(int) -> bool {
    |i: int| keys[i] == q
}

/// Where entry `i` goes: after everything larger and after its equals that came
/// before it.
spec fn place(keys: Seq<int>, i: int) -> int {
    (count(above(keys, keys[i]), 0, keys.len() as int) + count(equal(keys, keys[i]), 0, i)) as int
}

/// What is above `q - 1` is what is above `q` and what is `q`.
proof fn lemma_above_step(keys: Seq<int>, q: int, n: int)
    requires
        0 <= n <= keys.len(),
    ensures
        count(above(keys, q - 1), 0, n) == count(above(keys, q), 0, n) + count(
            equal(keys, q),
            0,
            n,
        ),
    decreases n,
{
    if n > 0 {
        lemma_above_step(keys, q, n - 1);
    }
}

proof fn lemma_above_less(keys: Seq<int>, p: int, q: int, n: int)
    requires
        p <= q,
        0 <= n <= keys.len(),
    ensures
        count(above(keys, q), 0, n) <= count(above(keys, p), 0, n),
    decreases q - p,
{
    if p < q {
        lemma_above_step(keys, q, n);
        lemma_above_less(keys, p, q - 1, n);
    }
}

/// Larger entries go first, and equal ones in the order they came in.
proof fn lemma_place(keys: Seq<int>, i: int, j: int)
    requires
        0 <= i < keys.len(),
        0 <= j < keys.len(),
        keys[i] > keys[j] || (keys[i] == keys[j] && i < j),
    ensures
        place(keys, i) < place(keys, j),
{
    let n = keys.len() as int;
    lemma_count_split(equal(keys, keys[i]), 0, i, i + 1);
    assert(count(equal(keys, keys[i]), i, i + 1) == 1) by {
        assert(count(equal(keys, keys[i]), i, i) == 0);
    }
    if keys[i] == keys[j] {
        lemma_count_split(equal(keys, keys[i]), 0, i + 1, j);
    } else {
        lemma_count_split(equal(keys, keys[i]), 0, i + 1, n);
        lemma_above_step(keys, keys[i], n);
        lemma_above_less(keys, keys[j], keys[i] - 1, n);
    }
}

proof fn lemma_place_bound(keys: Seq<int>, i: int)
    requires
        0 <= i < keys.len(),
    ensures
        0 <= place(keys, i) < keys.len(),
{
    let n = keys.len() as int;
    lemma_count_split(equal(keys, keys[i]), 0, i, i + 1);
    assert(count(equal(keys, keys[i]), i, i + 1) == 1) by {
        assert(count(equal(keys, keys[i]), i, i) == 0);
    }
    lemma_count_split(equal(keys, keys[i]), 0, i + 1, n);
    lemma_above_step(keys, keys[i], n);
    lemma_count_bound(above(keys, keys[i] - 1), 0, n);
}

/// Every place is taken.
proof fn lemma_place_onto(keys: Seq<int>, at: int) -> (i: int)
    requires
        0 <= at < keys.len(),
    ensures
        0 <= i < keys.len(),
        place(keys, i) == at,
{
    let n = keys.len() as int;
    let all = set_int_range(0, n);
    let f = |i: int| place(keys, i);
    lemma_int_range(0, n);
    assert(injective_on(f, all)) by {
        assert forall|x: int, y: int|
            all.contains(x) && all.contains(y) && #[trigger] f(x) == #[trigger] f(y) implies x
            == y by {
            if keys[x] > keys[y] || (keys[x] == keys[y] && x < y) {
                lemma_place(keys, x, y);
            } else if x != y {
                lemma_place(keys, y, x);
            }
        }
    }
    let image = all.map(f);
    lemma_map_size(all, image, f);
    assert(image.subset_of(all)) by {
        assert forall|y: int| image.contains(y) implies all.contains(y) by {
            let x = choose|x: int| all.contains(x) && f(x) == y;
            lemma_place_bound(keys, x);
        }
    }
    lemma_subset_equality(image, all);
    assert(image.contains(at));
    choose|i: int| all.contains(i) && f(i) == at
}

/// The byte a block is sorted by, or nothing past the end.
fn key(bytes: &[u8], stride: usize, at: usize, block: u32) -> (found: u8)
    requires
        1 <= stride <= 2,
        at < 2,
    ensures
        found == key_of(bytes@, stride as int, at as int, block),
{
    proof {
        assert(0 <= block * stride <= 2 * block) by (nonlinear_arith)
            requires
                1 <= stride <= 2,
                0 <= block,
        ;
    }
    let place: u64 = block as u64 * stride as u64 + at as u64;
    if place < bytes.len() as u64 {
        bytes[place as usize]
    } else {
        0
    }
}

/// One pass of a counting sort over blocks, by one byte of each block's ceiling,
/// largest first and keeping the order equals arrived in.
fn sorted_by_byte(order: &Vec<u32>, bytes: &[u8], stride: usize, at: usize) -> (out: Vec<u32>)
    requires
        1 <= stride <= 2,
        at < 2,
        order@.len() <= u32::MAX,
    ensures
        exists|from: Seq<int>|
            #[trigger] is_pass(order@, out@, bytes@, stride as int, at as int, from),
{
    let ghost n = order@.len() as int;
    let ghost keys = Seq::new(
        order@.len(),
        |i: int| key_of(bytes@, stride as int, at as int, order@[i]),
    );
    let mut counts: Vec<u32> = vec![0u32; 256];
    let mut i: usize = 0;
    proof {
        assert forall|q: int| 0 <= q < 256 implies #[trigger] counts@[q] == count(
            equal(keys, q),
            0,
            0,
        ) by {}
    }
    while i < order.len()
        invariant
            i <= order@.len() <= u32::MAX,
            1 <= stride <= 2,
            at < 2,
            keys == Seq::new(
                order@.len(),
                |i: int| key_of(bytes@, stride as int, at as int, order@[i]),
            ),
            counts@.len() == 256,
            forall|q: int|
                0 <= q < 256 ==> #[trigger] counts@[q] == count(equal(keys, q), 0, i as int),
        decreases order.len() - i,
    {
        let quantum: usize = key(bytes, stride, at, order[i]) as usize;
        proof {
            lemma_count_bound(equal(keys, quantum as int), 0, i as int);
        }
        let had: u32 = counts[quantum];
        counts.set(quantum, had + 1);
        i = i + 1;
    }
    // Running total from the top down, so the bucket of the largest byte starts
    // at nothing and each one after it starts where the last ended.
    let mut start: Vec<u32> = vec![0u32; 256];
    let mut running: u32 = 0;
    let mut quantum: usize = 256;
    proof {
        lemma_count_none(above(keys, 255), 0, n);
    }
    while quantum > 0
        invariant
            quantum <= 256,
            n == keys.len(),
            n <= u32::MAX,
            counts@.len() == 256,
            start@.len() == 256,
            running == count(above(keys, quantum - 1), 0, n),
            forall|q: int| 0 <= q < 256 ==> #[trigger] counts@[q] == count(equal(keys, q), 0, n),
            forall|q: int|
                quantum <= q < 256 ==> #[trigger] start@[q] == count(above(keys, q), 0, n),
        decreases quantum,
    {
        quantum = quantum - 1;
        start.set(quantum, running);
        proof {
            lemma_above_step(keys, quantum as int, n);
            lemma_count_bound(above(keys, quantum - 1), 0, n);
        }
        running = running + counts[quantum];
    }
    let mut out: Vec<u32> = vec![0u32; order.len()];
    let ghost mut from: Seq<int> = Seq::new(order@.len(), |k: int| 0);
    let mut i: usize = 0;
    while i < order.len()
        invariant
            i <= order@.len() <= u32::MAX,
            n == keys.len(),
            n == order@.len(),
            1 <= stride <= 2,
            at < 2,
            keys == Seq::new(
                order@.len(),
                |i: int| key_of(bytes@, stride as int, at as int, order@[i]),
            ),
            start@.len() == 256,
            out@.len() == n,
            from.len() == n,
            forall|q: int|
                0 <= q < 256 ==> #[trigger] start@[q] == count(above(keys, q), 0, n) + count(
                    equal(keys, q),
                    0,
                    i as int,
                ),
            forall|p: int|
                0 <= p < i ==> out@[#[trigger] place(keys, p)] == order@[p] && from[place(keys, p)]
                    == p,
        decreases order.len() - i,
    {
        let block: u32 = order[i];
        let quantum: usize = key(bytes, stride, at, block) as usize;
        let slot: u32 = start[quantum];
        proof {
            assert(keys[i as int] == quantum);
            lemma_place_bound(keys, i as int);
            assert(slot == place(keys, i as int));
            assert forall|p: int| 0 <= p < i implies #[trigger] place(keys, p) != place(
                keys,
                i as int,
            ) && 0 <= place(keys, p) < n by {
                lemma_place_bound(keys, p);
                if keys[p] > keys[i as int] || keys[p] == keys[i as int] {
                    lemma_place(keys, p, i as int);
                } else {
                    lemma_place(keys, i as int, p);
                }
            }
            from = from.update(slot as int, i as int);
        }
        out.set(slot as usize, block);
        start.set(quantum, slot + 1);
        i = i + 1;
    }
    proof {
        assert forall|k: int| 0 <= k < n implies 0 <= #[trigger] from[k] < n && out@[k]
            == order@[from[k]] && place(keys, from[k]) == k by {
            let p = lemma_place_onto(keys, k);
            assert(from[place(keys, p)] == p);
        }
        assert forall|p: int| 0 <= p < n implies #[trigger] from.contains(p) by {
            lemma_place_bound(keys, p);
            assert(from[place(keys, p)] == p);
        }
        assert forall|k: int, l: int|
            #![trigger from[k], from[l]]
            0 <= k < l < n implies goes_first(
            key_of(bytes@, stride as int, at as int, out@[k]),
            from[k],
            key_of(bytes@, stride as int, at as int, out@[l]),
            from[l],
        ) by {
            let (p, q) = (from[k], from[l]);
            assert(keys[p] == key_of(bytes@, stride as int, at as int, out@[k]));
            assert(keys[q] == key_of(bytes@, stride as int, at as int, out@[l]));
            if keys[q] > keys[p] || (keys[q] == keys[p] && q < p) {
                lemma_place(keys, q, p);
            }
        }
        assert(is_pass(order@, out@, bytes@, stride as int, at as int, from));
    }
    out
}

} // verus!
