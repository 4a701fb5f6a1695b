//! The mixer's voice list: voices are appended with a zero clock, and after each tick
//! the finished ones are removed and the clocks of the rest advance.
use vstd::prelude::*;

verus! {

/// A sounding voice and the number of ticks it has been sampled (its clock).
#[derive(Debug, Clone, Copy)]
pub struct Chunk<V> {
    pub sample: V,
    pub samples: u64,
}

/// `c` one tick later: its clock advanced by one, stopping at `u64::MAX`.
pub open spec fn advanced<V>(c: Chunk<V>) -> Chunk<V> {
    Chunk {
        sample: c.sample,
        samples: if c.samples == u64::MAX {
            u64::MAX
        } else {
            (c.samples + 1) as u64
        },
    }
}

/// The voices that stay after a tick, with their clocks advanced by one (saturating),
/// in their order: those whose flag in `finished` is false.
pub open spec fn survivors<V>(chunks: Seq<Chunk<V>>, finished: Seq<bool>) -> Seq<Chunk<V>>
    decreases chunks.len(),
{
    if chunks.len() == 0 || finished.len() == 0 {
        Seq::empty()
    } else {
        let rest = survivors(chunks.drop_last(), finished.drop_last());
        if finished.last() {
            rest
        } else {
            rest.push(advanced(chunks.last()))
        }
    }
}

/// The positions, in increasing order, of the voices whose flag is false.
pub open spec fn unfinished_positions(finished: Seq<bool>) -> Seq<int> {
    Seq::new(finished.len(), |i: int| i).filter(|i: int| !finished[i])
}

/// Eviction: after a tick the voices are the unfinished ones, in their order, each with
/// its clock advanced. No position flagged finished is kept, and every position not
/// flagged is.
pub proof fn lemma_retire_keeps_exactly_unfinished<V>(chunks: Seq<Chunk<V>>, finished: Seq<bool>)
    requires
        chunks.len() == finished.len(),
    ensures
        survivors(chunks, finished) == unfinished_positions(finished).map_values(
            |j: int| advanced(chunks[j]),
        ),
        forall|k: int|
            0 <= k < unfinished_positions(finished).len() ==> 0 <= #[trigger] unfinished_positions(
                finished,
            )[k] < finished.len() && !finished[unfinished_positions(finished)[k]],
        forall|j: int|
            0 <= j < finished.len() && !finished[j] ==> #[trigger] unfinished_positions(
                finished,
            ).contains(j),
    decreases chunks.len(),
{
    let n = finished.len();
    let ids = Seq::new(n, |i: int| i);
    let pred = |i: int| !finished[i];
    let pos = ids.filter(pred);
    if n > 0 {
        let f0 = finished.drop_last();
        let c0 = chunks.drop_last();
        lemma_retire_keeps_exactly_unfinished(c0, f0);
        let ids0 = Seq::new((n - 1) as nat, |i: int| i);
        let pred0 = |i: int| !f0[i];
        assert(ids.drop_last() =~= ids0);
        // the two predicates agree below n - 1
        lemma_filter_congruent(ids0, pred, pred0);
        reveal(Seq::filter);
        assert(pos == if pred(ids.last()) {
            ids0.filter(pred).push(n - 1)
        } else {
            ids0.filter(pred)
        });
        let m0 = ids0.filter(pred0).map_values(|j: int| advanced(c0[j]));
        let m = pos.map_values(|j: int| advanced(chunks[j]));
        ids0.lemma_filter_len(pred0);
        assert(forall|k: int| 0 <= k < ids0.filter(pred0).len() ==> 0 <= #[trigger] ids0.filter(pred0)[k] < n - 1);
        if pred(ids.last()) {
            assert(m =~= m0.push(advanced(chunks.last())));
        } else {
            assert(m =~= m0);
        }
    } else {
        reveal(Seq::filter);
        assert(pos.map_values(|j: int| advanced(chunks[j])) =~= Seq::empty());
    }
    broadcast use Seq::lemma_filter_pred, Seq::lemma_filter_contains;
    assert forall|k: int| 0 <= k < pos.len() implies 0 <= #[trigger] pos[k] < n && !finished[pos[k]] by {
        ids.lemma_filter_pred(pred, k);
        lemma_filter_in_range(ids, pred, k);
    }
    assert forall|j: int| 0 <= j < n && !finished[j] implies #[trigger] pos.contains(j) by {
        ids.lemma_filter_contains(pred, j);
    }
}

/// Filtering by two predicates that agree on every element gives the same result.
proof fn lemma_filter_congruent(s: Seq<int>, p: spec_fn(int) -> bool, q: spec_fn(int) -> bool)
    requires
        forall|k: int| 0 <= k < s.len() ==> p(#[trigger] s[k]) == q(s[k]),
    ensures
        s.filter(p) == s.filter(q),
    decreases s.len(),
{
    reveal(Seq::filter);
    if s.len() > 0 {
        lemma_filter_congruent(s.drop_last(), p, q);
    }
}

/// Every element that a filter keeps is an element of the sequence.
proof fn lemma_filter_in_range(s: Seq<int>, p: spec_fn(int) -> bool, k: int)
    requires
        forall|i: int| 0 <= i < s.len() ==> #[trigger] s[i] == i,
        0 <= k < s.filter(p).len(),
    ensures
        0 <= s.filter(p)[k] < s.len(),
    decreases s.len(),
{
    reveal(Seq::filter);
    let t = s.drop_last().filter(p);
    if p(s.last()) && k == t.len() {
    } else {
        lemma_filter_in_range(s.drop_last(), p, k);
        s.drop_last().lemma_filter_len(p);
    }
}

/// The set of voices being mixed. Each tick the caller samples every voice once at its
/// clock, then hands the finished flags to `retire`.
pub struct Mixer<V> {
    pub chunks: Vec<Chunk<V>>,
}

impl<V> Mixer<V> {
    /// A mixer with no voices.
    pub fn new() -> (r: Self)
        ensures
            r.chunks@.len() == 0,
    {
        Mixer { chunks: Vec::new() }
    }

    /// Starts a voice with its clock at zero, after the existing ones.
    pub fn add_sample(&mut self, sample: V)
        ensures
            final(self).chunks@ == old(self).chunks@.push(Chunk { sample, samples: 0 }),
    {
        self.chunks.push(Chunk { sample, samples: 0 });
    }

    /// Ends a tick: removes every voice whose flag in `finished` is set, keeps the
    /// order of the others and advances their clocks by one.
    pub fn retire(&mut self, finished: &Vec<bool>)
        requires
            finished@.len() == old(self).chunks@.len(),
        ensures
            final(self).chunks@ == survivors(old(self).chunks@, finished@),
    {
        let ghost orig = self.chunks@;
        let mut kept: Vec<Chunk<V>> = Vec::new();
        let mut rest: Vec<Chunk<V>> = Vec::new();
        std::mem::swap(&mut rest, &mut self.chunks);
        let n = rest.len();
        // The voices are taken out back to front and then back out front to back, so that
        // each one is moved, never copied.
        let mut reversed: Vec<Chunk<V>> = Vec::new();
        while rest.len() > 0
            invariant
                rest@.len() + reversed@.len() == n,
                n == orig.len(),
                finished@.len() == n,
                forall|j: int| 0 <= j < rest@.len() ==> #[trigger] rest@[j] == orig[j],
                forall|j: int|
                    0 <= j < reversed@.len() ==> #[trigger] reversed@[j] == orig[n - 1 - j],
            decreases rest@.len(),
        {
            let c = rest.pop().unwrap();
            reversed.push(c);
        }
        let mut i: usize = 0;
        while reversed.len() > 0
            invariant
                i + reversed@.len() == n,
                n == orig.len(),
                finished@.len() == n,
                forall|j: int|
                    0 <= j < reversed@.len() ==> #[trigger] reversed@[j] == orig[n - 1 - j],
                kept@ == survivors(orig.subrange(0, i as int), finished@.subrange(0, i as int)),
            decreases reversed@.len(),
        {
            let c = reversed.pop().unwrap();
            proof {
                let s0 = orig.subrange(0, i as int + 1);
                let f0 = finished@.subrange(0, i as int + 1);
                assert(s0.drop_last() =~= orig.subrange(0, i as int));
                assert(f0.drop_last() =~= finished@.subrange(0, i as int));
            }
            if !finished[i] {
                let samples = c.samples.saturating_add(1);
                kept.push(Chunk { sample: c.sample, samples });
            }
            i = i + 1;
        }
        proof {
            assert(orig.subrange(0, n as int) =~= orig);
            assert(finished@.subrange(0, n as int) =~= finished@);
        }
        self.chunks = kept;
    }
}

} // verus!
