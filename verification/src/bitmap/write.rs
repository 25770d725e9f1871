//! Writing a set down.
use super::chunks::{chunks_ok, ordinals, Chunk};
use super::format::{
    any_runs, body_bytes, body_len, chunk_set, container_bytes, descriptor_bytes, encoded,
    flag_bytes, header_size, keys_of, lemma_body_len, lemma_chunk_sets, lemma_container_len,
    lemma_container_same, lemma_encoded_len, lemma_runs_of, list_bytes, offset_bytes,
    offsets_size, run_bytes, run_flags, shape_of, shape_size, word_bytes, Shape, COOKIE_PLAIN,
    COOKIE_RUNS, OFFSETS_FROM,
};
use super::runs::Run;
use super::store::{lemma_same_members, members, Store, ARRAY_MAX, BITS_BYTES};
use super::words::{in_words, Words};
use crate::bits::{bit, bits_value, lemma_bits_value};
use crate::codec::{le_bytes, put_u16, put_u32, put_u64};
use vstd::prelude::*;

verus! {

impl Shape {
    /// How many bytes the container takes, without the key and the count.
    pub fn size(self) -> (bytes: usize)
        requires
            shape_size(self) <= usize::MAX,
        ensures
            bytes == shape_size(self),
    {
        match self {
            Shape::Array(n) => 2 * n,
            Shape::Words => BITS_BYTES,
            Shape::Runs(n) => 2 + 4 * n,
        }
    }

    fn is_runs(self) -> (runs: bool)
        ensures
            runs == (self is Runs),
    {
        matches!(self, Shape::Runs(_))
    }
}

impl Store {
    /// Which shape this container is cheapest written down as.
    pub fn shape(&self) -> (shape: Shape)
        requires
            self.wf(),
        ensures
            shape == shape_of(self.set()),
    {
        let n: usize = self.len();
        let as_array: usize = 2 * n;
        let least: usize = if as_array <= BITS_BYTES {
            as_array
        } else {
            BITS_BYTES
        };
        let runs: usize = self.runs_within(least / 4);
        if 4 * runs < as_array && 4 * runs < BITS_BYTES {
            return Shape::Runs(runs);
        }
        if n <= ARRAY_MAX {
            Shape::Array(n)
        } else {
            Shape::Words
        }
    }

    /// Writes the container, without the key and the count that name it.
    pub fn write_to(&self, shape: Shape, out: &mut Vec<u8>)
        requires
            self.wf(),
            shape == shape_of(self.set()),
        ensures
            final(out)@ == old(out)@ + container_bytes(self.set()),
    {
        match shape {
            Shape::Array(_) => {
                let list = self.collect_array();
                write_list(list.as_slice(), out);
            },
            Shape::Words => {
                match self {
                    Store::Bits(words) => write_words(words, out),
                    other => {
                        let words = other.to_words();
                        write_words(&words, out);
                        proof {
                            assert forall|x: int| 0 <= x < 65536 implies #[trigger] words.set()(x)
                                == self.set()(x) by {
                                assert(in_words(words.bits@, x) == self.holds(x));
                            }
                        }
                    },
                }
                proof {
                    let words = match self {
                        Store::Bits(words) => words.set(),
                        _ => self.set(),
                    };
                    assert forall|x: int| 0 <= x < 65536 implies #[trigger] words(x)
                        == self.set()(x) by {}
                }
            },
            Shape::Runs(count) => {
                let runs = self.collect_runs();
                proof {
                    assert forall|x: int| 0 <= x < 65536 implies
                        #[trigger] super::runs::in_runs(runs@, x) == self.set()(x) by {}
                    lemma_runs_of(runs@, self.set());
                    self.lemma_count();
                }
                put_u16(out, count as u16);
                write_runs(runs.as_slice(), out);
                proof {
                    assert(out@ =~= old(out)@ + container_bytes(self.set()));
                }
            },
        }
    }
}

fn write_list(list: &[u16], out: &mut Vec<u8>)
    ensures
        final(out)@ == old(out)@ + list_bytes(list@),
{
    let ghost before = out@;
    let mut i: usize = 0;
    assert(list@.skip(0) =~= list@);
    while i < list.len()
        invariant
            i <= list@.len(),
            out@ + list_bytes(list@.skip(i as int)) == before + list_bytes(list@),
        decreases list.len() - i,
    {
        let ghost had = out@;
        put_u16(out, list[i]);
        proof {
            let rest = list@.skip(i as int);
            assert(rest.skip(1) =~= list@.skip(i + 1));
            assert(rest[0] == list@[i as int]);
            assert(out@ + list_bytes(list@.skip(i + 1)) =~= had + list_bytes(rest));
        }
        i = i + 1;
    }
    proof {
        assert(list@.skip(i as int) =~= Seq::<u16>::empty());
        assert(out@ =~= out@ + list_bytes(list@.skip(i as int)));
    }
}

fn write_runs(runs: &[Run], out: &mut Vec<u8>)
    requires
        forall|i: int| 0 <= i < runs@.len() ==> (#[trigger] runs@[i]).start <= runs@[i].last,
    ensures
        final(out)@ == old(out)@ + run_bytes(runs@),
{
    let ghost before = out@;
    let mut i: usize = 0;
    assert(runs@.skip(0) =~= runs@);
    while i < runs.len()
        invariant
            i <= runs@.len(),
            forall|i: int| 0 <= i < runs@.len() ==> (#[trigger] runs@[i]).start <= runs@[i].last,
            out@ + run_bytes(runs@.skip(i as int)) == before + run_bytes(runs@),
        decreases runs.len() - i,
    {
        let ghost had = out@;
        let run = runs[i];
        assert(runs@[i as int].start <= runs@[i as int].last);
        put_u16(out, run.start);
        // A length rather than an end, and one less than the length at that: a
        // run covering a whole chunk has to fit in two bytes.
        put_u16(out, run.last - run.start);
        proof {
            let rest = runs@.skip(i as int);
            assert(rest.skip(1) =~= runs@.skip(i + 1));
            assert(rest[0] == run);
            assert(out@ + run_bytes(runs@.skip(i + 1)) =~= had + run_bytes(rest));
        }
        i = i + 1;
    }
    proof {
        assert(runs@.skip(i as int) =~= Seq::<Run>::empty());
        assert(out@ =~= out@ + run_bytes(runs@.skip(i as int)));
    }
}

fn write_words(words: &Words, out: &mut Vec<u8>)
    requires
        words.wf(),
    ensures
        forall|g: spec_fn(int) -> bool|
            (forall|x: int| 0 <= x < 65536 ==> #[trigger] words.set()(x) == g(x))
                ==> final(out)@ == old(out)@ + #[trigger] word_bytes(g, 0),
{
    let ghost before = out@;
    let ghost f = words.set();
    let mut i: usize = 0;
    while i < 1024
        invariant
            i <= 1024,
            words.wf(),
            f == words.set(),
            out@ + word_bytes(f, i as int) == before + word_bytes(f, 0),
        decreases 1024 - i,
    {
        let ghost had = out@;
        let word: u64 = words.bits[i];
        put_u64(out, word);
        proof {
            assert forall|j: int| 0 <= j < 64 implies #[trigger] bit(word, j) == f(64 * i + j) by {
                assert((64 * i + j) / 64 == i && (64 * i + j) % 64 == j);
            }
            lemma_bits_value(word, f, 64 * i);
            assert(out@ + word_bytes(f, i + 1) =~= had + word_bytes(f, i as int));
        }
        i = i + 1;
    }
    proof {
        assert(out@ =~= out@ + word_bytes(f, 1024));
        assert forall|g: spec_fn(int) -> bool|
            (forall|x: int| 0 <= x < 65536 ==> #[trigger] words.set()(x) == g(x)) implies out@
            == before + #[trigger] word_bytes(g, 0) by {
            assert forall|x: int| 0 <= x < 65536 implies #[trigger] f(x) == g(x) by {}
            super::format::lemma_word_bytes_same(f, g, 0);
        }
    }
}

/// How many bytes the offsets take, which is none for a small bitmap of runs.
pub fn offsets_len(containers: usize, runs: bool) -> (bytes: usize)
    requires
        containers <= 65536,
    ensures
        bytes == offsets_size(containers as nat, runs),
{
    if !runs || containers >= OFFSETS_FROM {
        4 * containers
    } else {
        0
    }
}

/// The shape each container goes down as, in order.
///
/// Asked once and carried through the write, because deciding it walks the
/// container and because everything else about the layout follows from it.
pub fn shapes(chunks: &Vec<Chunk>) -> (out: Vec<Shape>)
    requires
        chunks_ok(chunks@),
    ensures
        out@.len() == chunks@.len(),
        forall|i: int|
            0 <= i < out@.len() ==> #[trigger] out@[i] == shape_of(
                chunk_set(ordinals(chunks@), chunks@[i].key as int),
            ) && out@[i] == shape_of(chunks@[i].store.set()) && shape_size(out@[i]) <= 8192,
{
    let mut out: Vec<Shape> = Vec::new();
    let mut i: usize = 0;
    while i < chunks.len()
        invariant
            i <= chunks@.len(),
            out@.len() == i,
            chunks_ok(chunks@),
            forall|k: int|
                0 <= k < i ==> #[trigger] out@[k] == shape_of(
                    chunk_set(ordinals(chunks@), chunks@[k].key as int),
                ) && out@[k] == shape_of(chunks@[k].store.set()) && shape_size(out@[k]) <= 8192,
        decreases chunks.len() - i,
    {
        let shape = chunks[i].store.shape();
        proof {
            lemma_chunk_container(chunks@, i as int);
            lemma_container_len(chunks@[i as int].store.set());
        }
        out.push(shape);
        i = i + 1;
    }
    out
}

/// A chunk goes down as what the set holds of it.
proof fn lemma_chunk_container(chunks: Seq<Chunk>, i: int)
    requires
        chunks_ok(chunks),
        0 <= i < chunks.len(),
    ensures
        shape_of(chunk_set(ordinals(chunks), chunks[i].key as int)) == shape_of(
            chunks[i].store.set(),
        ),
        members(chunk_set(ordinals(chunks), chunks[i].key as int)) == members(
            chunks[i].store.set(),
        ),
        container_bytes(chunk_set(ordinals(chunks), chunks[i].key as int)) == container_bytes(
            chunks[i].store.set(),
        ),
{
    lemma_chunk_sets(chunks);
    let f = chunk_set(ordinals(chunks), chunks[i].key as int);
    let g = chunks[i].store.set();
    assert forall|x: int| 0 <= x < 65536 implies #[trigger] f(x) == g(x) by {
        assert(chunk_set(ordinals(chunks), chunks[i].key as int)(x) == chunks[i].store.holds(x));
    }
    lemma_container_same(f, g);
    lemma_same_members(f, g);
}

/// Whether any container goes down as runs.
fn holds_runs(shapes: &Vec<Shape>) -> (runs: bool)
    ensures
        runs == exists|i: int| 0 <= i < shapes@.len() && #[trigger] shapes@[i] is Runs,
{
    let mut i: usize = 0;
    while i < shapes.len()
        invariant
            i <= shapes@.len(),
            forall|k: int| 0 <= k < i ==> !(#[trigger] shapes@[k] is Runs),
        decreases shapes.len() - i,
    {
        if shapes[i].is_runs() {
            return true;
        }
        i = i + 1;
    }
    false
}

/// How many bytes come before the first container.
fn header(shapes: &Vec<Shape>) -> (bytes: usize)
    requires
        shapes@.len() <= 65536,
    ensures
        bytes == header_size(
            shapes@.len(),
            exists|i: int| 0 <= i < shapes@.len() && #[trigger] shapes@[i] is Runs,
        ),
        bytes <= 0x10_0000,
{
    let containers: usize = shapes.len();
    let runs: bool = holds_runs(shapes);
    let cookie: usize = if runs {
        4 + (containers + 7) / 8
    } else {
        8
    };
    cookie + 4 * containers + offsets_len(containers, runs)
}

/// What the shapes of the chunks say about the set they hold.
proof fn lemma_shapes(chunks: Seq<Chunk>, shapes: Seq<Shape>)
    requires
        chunks_ok(chunks),
        shapes.len() == chunks.len(),
        forall|i: int|
            0 <= i < shapes.len() ==> #[trigger] shapes[i] == shape_of(
                chunk_set(ordinals(chunks), chunks[i].key as int),
            ),
    ensures
        keys_of(ordinals(chunks)).len() == chunks.len(),
        chunks.len() <= 65536,
        forall|i: int|
            0 <= i < chunks.len() ==> #[trigger] keys_of(ordinals(chunks))[i] == chunks[i].key,
        any_runs(ordinals(chunks), keys_of(ordinals(chunks))) == exists|i: int|
            0 <= i < shapes.len() && #[trigger] shapes[i] is Runs,
        forall|i: int|
            0 <= i < shapes.len() ==> run_flags(ordinals(chunks), keys_of(ordinals(chunks)))(i) == (
            #[trigger] shapes[i] is Runs),
{
    lemma_chunk_sets(chunks);
    let s = ordinals(chunks);
    let ks = keys_of(s);
    assert forall|i: int| 0 <= i < shapes.len() implies run_flags(s, ks)(i) == (
    #[trigger] shapes[i] is Runs) by {
        assert(ks[i] == chunks[i].key);
    }
    if any_runs(s, ks) {
        let i = choose|i: int| #[trigger] run_flags(s, ks)(i);
        assert(shapes[i] is Runs);
    }
    if exists|i: int| 0 <= i < shapes.len() && #[trigger] shapes[i] is Runs {
        let i = choose|i: int| 0 <= i < shapes.len() && #[trigger] shapes[i] is Runs;
        assert(run_flags(s, ks)(i));
    }
}

/// How many bytes [`chunks_write`] appends.
pub fn chunks_size(chunks: &Vec<Chunk>) -> (bytes: usize)
    requires
        chunks_ok(chunks@),
    ensures
        bytes == encoded(ordinals(chunks@)).len(),
{
    let shapes = shapes(chunks);
    let ghost s = ordinals(chunks@);
    let ghost ks = keys_of(s);
    proof {
        lemma_shapes(chunks@, shapes@);
        lemma_encoded_len(s);
        lemma_body_len(s, ks);
        assert(ks.skip(0) =~= ks);
    }
    let mut total: usize = header(&shapes);
    let ghost head = total;
    let mut i: usize = 0;
    while i < shapes.len()
        invariant
            i <= shapes@.len(),
            shapes@.len() == ks.len(),
            ks.len() <= 65536,
            head <= 0x10_0000,
            total <= head + 8192 * i,
            total + body_len(s, ks.skip(i as int)) == head + body_len(s, ks),
            forall|k: int|
                0 <= k < shapes@.len() ==> #[trigger] shapes@[k] == shape_of(
                    chunk_set(s, ks[k] as int),
                ) && shape_size(shapes@[k]) <= 8192,
        decreases shapes.len() - i,
    {
        proof {
            assert(shapes@[i as int] == shape_of(chunk_set(s, ks[i as int] as int)));
            assert(ks.skip(i as int)[0] == ks[i as int]);
            assert(ks.skip(i as int).skip(1) =~= ks.skip(i + 1));
        }
        total = total + shapes[i].size();
        i = i + 1;
    }
    total
}

/// Writes the run flags, one bit per container.
fn write_flags(shapes: &Vec<Shape>, out: &mut Vec<u8>, s: Ghost<Set<u32>>, ks: Ghost<Seq<u16>>)
    requires
        shapes@.len() == ks@.len(),
        shapes@.len() <= 65536,
        forall|i: int|
            0 <= i < shapes@.len() ==> run_flags(s@, ks@)(i) == (#[trigger] shapes@[i] is Runs),
    ensures
        final(out)@ == old(out)@ + flag_bytes(s@, ks@),
{
    let ghost before = out@;
    let ghost f = run_flags(s@, ks@);
    let containers: usize = shapes.len();
    let bytes: usize = (containers + 7) / 8;
    let mut b: usize = 0;
    assert(before + flag_bytes(s@, ks@).take(0) =~= before);
    while b < bytes
        invariant
            b <= bytes,
            containers == shapes@.len(),
            containers <= 65536,
            bytes == (containers + 7) / 8,
            f == run_flags(s@, ks@),
            shapes@.len() == ks@.len(),
            out@ == before + flag_bytes(s@, ks@).take(b as int),
            forall|i: int|
                0 <= i < shapes@.len() ==> f(i) == (#[trigger] shapes@[i] is Runs),
        decreases bytes - b,
    {
        let mut value: u32 = 0;
        let mut left: usize = 8;
        let ghost mut room: int = 1;
        proof {
            vstd::arithmetic::power2::lemma2_to64();
        }
        while left > 0
            invariant
                left <= 8,
                b < bytes,
                containers == shapes@.len(),
                containers <= 65536,
                bytes == (containers + 7) / 8,
                f == run_flags(s@, ks@),
                shapes@.len() == ks@.len(),
                value == bits_value(f, 8 * b + left, (8 - left) as nat),
                value < room,
                room == vstd::arithmetic::power2::pow2((8 - left) as nat),
                room <= 256,
                forall|i: int|
                    0 <= i < shapes@.len() ==> f(i) == (#[trigger] shapes@[i] is Runs),
            decreases left,
        {
            left = left - 1;
            let at: usize = 8 * b + left;
            let set: bool = at < containers && shapes[at].is_runs();
            proof {
                assert(f(at as int) == set);
                vstd::arithmetic::power2::lemma_pow2_unfold((8 - left) as nat);
                vstd::arithmetic::power2::lemma2_to64();
                if left > 0 {
                    vstd::arithmetic::power2::lemma_pow2_strictly_increases(
                        (8 - left) as nat,
                        8,
                    );
                }
            }
            value = 2 * value + if set {
                1
            } else {
                0
            };
            proof {
                room = 2 * room;
            }
        }
        proof {
            assert(bits_value(f, 8 * b + 0, 8) == value);
        }
        out.push(value as u8);
        proof {
            let flags = flag_bytes(s@, ks@);
            assert(flags.take(b + 1) =~= flags.take(b as int).push(value as u8));
            assert(out@ =~= before + flags.take(b + 1));
        }
        b = b + 1;
    }
    proof {
        assert(flag_bytes(s@, ks@).take(b as int) =~= flag_bytes(s@, ks@));
    }
}

/// Writes the set the chunks hold.
pub fn chunks_write(chunks: &Vec<Chunk>, out: &mut Vec<u8>)
    requires
        chunks_ok(chunks@),
    ensures
        final(out)@ == old(out)@ + encoded(ordinals(chunks@)),
{
    let ghost before = out@;
    let ghost s = ordinals(chunks@);
    let ghost ks = keys_of(s);
    let containers: usize = chunks.len();
    let shapes = shapes(chunks);
    proof {
        lemma_shapes(chunks@, shapes@);
    }
    let runs: bool = holds_runs(&shapes);
    assert(runs == any_runs(s, ks));
    assert(runs ==> containers > 0);
    if runs {
        // The count goes in the top half of the cookie, less one, which is why
        // a bitmap of no containers is never written this way.
        let above: u32 = (containers - 1) as u32;
        put_u32(out, COOKIE_RUNS + above * 65536);
        write_flags(&shapes, out, Ghost(s), Ghost(ks));
    } else {
        put_u32(out, COOKIE_PLAIN);
        put_u32(out, containers as u32);
    }
    let ghost first = if runs {
        le_bytes((12347 + 65536 * (ks.len() - 1)) as nat, 4) + flag_bytes(s, ks)
    } else {
        le_bytes(12346, 4) + le_bytes(ks.len(), 4)
    };
    assert(out@ =~= before + first);
    write_descriptors(chunks, out);
    assert(out@ =~= before + first + descriptor_bytes(s, ks));
    let ghost third: Seq<u8> = if offsets_size(ks.len(), runs) > 0 {
        offset_bytes(s, ks, header_size(ks.len(), runs))
    } else {
        Seq::empty()
    };
    if offsets_len(containers, runs) > 0 {
        // Measured from the first byte of the bitmap, and the offsets are
        // themselves part of what comes before the first container.
        let at: usize = header(&shapes);
        write_offsets(&shapes, at, out, Ghost(s), Ghost(ks));
    }
    assert(out@ =~= before + first + descriptor_bytes(s, ks) + third);
    write_bodies(chunks, &shapes, out);
    assert(out@ =~= before + encoded(s));
}

fn write_descriptors(chunks: &Vec<Chunk>, out: &mut Vec<u8>)
    requires
        chunks_ok(chunks@),
    ensures
        final(out)@ == old(out)@ + descriptor_bytes(
            ordinals(chunks@),
            keys_of(ordinals(chunks@)),
        ),
{
    let ghost before = out@;
    let ghost s = ordinals(chunks@);
    let ghost ks = keys_of(s);
    proof {
        lemma_chunk_sets(chunks@);
        assert(ks.skip(0) =~= ks);
    }
    let mut i: usize = 0;
    while i < chunks.len()
        invariant
            i <= chunks@.len(),
            chunks_ok(chunks@),
            s == ordinals(chunks@),
            ks == keys_of(s),
            ks == Seq::new(chunks@.len(), |i: int| chunks@[i].key),
            out@ + descriptor_bytes(s, ks.skip(i as int)) == before + descriptor_bytes(s, ks),
        decreases chunks.len() - i,
    {
        let ghost had = out@;
        put_u16(out, chunks[i].key);
        proof {
            lemma_chunk_container(chunks@, i as int);
            chunks@[i as int].store.lemma_count();
        }
        // One less than the count, so that a container holding a whole chunk
        // fits in the two bytes it is given. A container is never empty, so
        // nothing is lost by it.
        let least: u16 = (chunks[i].store.len() - 1) as u16;
        put_u16(out, least);
        proof {
            let rest = ks.skip(i as int);
            assert(rest[0] == chunks@[i as int].key);
            assert(rest.skip(1) =~= ks.skip(i + 1));
            assert(out@ + descriptor_bytes(s, ks.skip(i + 1)) =~= had + descriptor_bytes(s, rest));
        }
        i = i + 1;
    }
    proof {
        assert(ks.skip(i as int) =~= Seq::<u16>::empty());
        assert(out@ =~= out@ + descriptor_bytes(s, ks.skip(i as int)));
    }
}

fn write_offsets(
    shapes: &Vec<Shape>,
    from: usize,
    out: &mut Vec<u8>,
    s: Ghost<Set<u32>>,
    ks: Ghost<Seq<u16>>,
)
    requires
        shapes@.len() == ks@.len(),
        shapes@.len() <= 65536,
        from <= 0x10_0000,
        forall|i: int|
            0 <= i < shapes@.len() ==> #[trigger] shapes@[i] == shape_of(
                chunk_set(s@, ks@[i] as int),
            ) && shape_size(shapes@[i]) <= 8192,
    ensures
        final(out)@ == old(out)@ + offset_bytes(s@, ks@, from as nat),
{
    let ghost before = out@;
    let mut at: usize = from;
    let mut i: usize = 0;
    assert(ks@.skip(0) =~= ks@);
    while i < shapes.len()
        invariant
            i <= shapes@.len(),
            shapes@.len() == ks@.len(),
            shapes@.len() <= 65536,
            from <= 0x10_0000,
            at <= from + 8192 * i,
            out@ + offset_bytes(s@, ks@.skip(i as int), at as nat) == before + offset_bytes(
                s@,
                ks@,
                from as nat,
            ),
            forall|i: int|
                0 <= i < shapes@.len() ==> #[trigger] shapes@[i] == shape_of(
                    chunk_set(s@, ks@[i] as int),
                ) && shape_size(shapes@[i]) <= 8192,
        decreases shapes.len() - i,
    {
        let ghost had = out@;
        let ghost was = at;
        put_u32(out, at as u32);
        assert(shapes@[i as int] == shape_of(chunk_set(s@, ks@[i as int] as int)));
        at = at + shapes[i].size();
        proof {
            let rest = ks@.skip(i as int);
            assert(rest[0] == ks@[i as int]);
            assert(rest.skip(1) =~= ks@.skip(i + 1));
            assert(out@ + offset_bytes(s@, ks@.skip(i + 1), at as nat) =~= had + offset_bytes(
                s@,
                rest,
                was as nat,
            ));
        }
        i = i + 1;
    }
    proof {
        assert(ks@.skip(i as int) =~= Seq::<u16>::empty());
        assert(out@ =~= out@ + offset_bytes(s@, ks@.skip(i as int), at as nat));
    }
}

fn write_bodies(chunks: &Vec<Chunk>, shapes: &Vec<Shape>, out: &mut Vec<u8>)
    requires
        chunks_ok(chunks@),
        shapes@.len() == chunks@.len(),
        forall|i: int|
            0 <= i < shapes@.len() ==> #[trigger] shapes@[i] == shape_of(chunks@[i].store.set()),
    ensures
        final(out)@ == old(out)@ + body_bytes(ordinals(chunks@), keys_of(ordinals(chunks@))),
{
    let ghost before = out@;
    let ghost s = ordinals(chunks@);
    let ghost ks = keys_of(s);
    proof {
        lemma_chunk_sets(chunks@);
        assert(ks.skip(0) =~= ks);
    }
    let mut i: usize = 0;
    while i < chunks.len()
        invariant
            i <= chunks@.len(),
            chunks_ok(chunks@),
            shapes@.len() == chunks@.len(),
            forall|i: int|
                0 <= i < shapes@.len() ==> #[trigger] shapes@[i] == shape_of(
                    chunks@[i].store.set(),
                ),
            s == ordinals(chunks@),
            ks == keys_of(s),
            ks == Seq::new(chunks@.len(), |i: int| chunks@[i].key),
            out@ + body_bytes(s, ks.skip(i as int)) == before + body_bytes(s, ks),
        decreases chunks.len() - i,
    {
        let ghost had = out@;
        chunks[i].store.write_to(shapes[i], out);
        proof {
            lemma_chunk_container(chunks@, i as int);
            let rest = ks.skip(i as int);
            assert(rest[0] == chunks@[i as int].key);
            assert(rest.skip(1) =~= ks.skip(i + 1));
            assert(out@ + body_bytes(s, ks.skip(i + 1)) =~= had + body_bytes(s, rest));
        }
        i = i + 1;
    }
    proof {
        assert(ks.skip(i as int) =~= Seq::<u16>::empty());
        assert(out@ =~= out@ + body_bytes(s, ks.skip(i as int)));
    }
}

} // verus!
