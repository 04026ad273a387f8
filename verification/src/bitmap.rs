//! Multi-layer bitmap realization of the occupancy index.
//!
//! The base layer is the occupancy bit-set itself, packed 64 bits to a
//! word. Each acceleration layer summarizes the layer below it: bit `j`
//! of word `w` is set exactly when child word `w * 64 + j` exists and is
//! all ones. `first_free` walks down from the top layer, so it inspects
//! only one word per layer after the top-level scan.

use vstd::prelude::*;
use crate::nth_bit;

verus! {

proof fn lemma_bit_or(w: u64, j: u64)
    by (bit_vector)
    requires
        j < 64,
    ensures
        forall|k: u64| k < 64 ==> #[trigger] nth_bit(w | (1u64 << j), k) == (k == j || nth_bit(w, k)),
{
}

proof fn lemma_bit_clear(w: u64, j: u64)
    by (bit_vector)
    requires
        j < 64,
    ensures
        forall|k: u64|
            k < 64 ==> #[trigger] nth_bit(w & !(1u64 << j), k) == (k != j && nth_bit(w, k)),
{
}

proof fn lemma_full_word()
    by (bit_vector)
    ensures
        forall|k: u64| k < 64 ==> #[trigger] nth_bit(u64::MAX, k),
{
}

proof fn lemma_mask_low(w: u64, o: u64)
    by (bit_vector)
    requires
        o < 64,
    ensures
        forall|k: u64|
            k < 64 ==> #[trigger] nth_bit(w & !(u64::MAX << o), k) == (k < o && nth_bit(w, k)),
{
}

/// Index of the lowest clear bit of a word that is not all ones.
fn first_zero_bit(w: u64) -> (j: u64)
    requires
        w != u64::MAX,
    ensures
        j < 64,
        !nth_bit(w, j),
        forall|k: u64| k < j ==> nth_bit(w, k),
{
    let mut j: u64 = 0;
    proof {
        assert(w >> 0u64 != u64::MAX >> 0u64) by (bit_vector)
            requires
                w != u64::MAX,
        ;
    }
    while (w >> j) & 1u64 == 1u64
        invariant
            j <= 63,
            w >> j != u64::MAX >> j,
            forall|k: u64| k < j ==> nth_bit(w, k),
        decreases 64 - j,
    {
        proof {
            assert(j < 63) by (bit_vector)
                requires
                    (w >> j) & 1u64 == 1u64 && w >> j != u64::MAX >> j && j <= 63,
            ;
            assert(w >> ((j + 1) as u64) != u64::MAX >> ((j + 1) as u64)) by (bit_vector)
                requires
                    (w >> j) & 1u64 == 1u64 && w >> j != u64::MAX >> j && j < 63,
            ;
        }
        j += 1;
    }
    j
}

/// Occupancy bit-set of length `size` with acceleration layers for
/// logarithmic first-free queries.
pub struct AcceleratedBitmap {
    base: Vec<u64>,
    accel_layers: Vec<Vec<u64>>,
    size: usize,
}

impl AcceleratedBitmap {
    /// The layer below acceleration layer `l`: the base for `l == 0`,
    /// otherwise the previous acceleration layer.
    pub closed spec fn child_words(&self, l: int) -> Seq<u64> {
        if l == 0 {
            self.base@
        } else {
            self.accel_layers@[l - 1]@
        }
    }

    /// Structural well-formedness: every layer has exactly the word count
    /// demanded by the layer below it, bits at or beyond `size` are clear,
    /// and every summary bit reflects whether its child word is all ones.
    pub closed spec fn wf(&self) -> bool {
        &&& self.base@.len() == self.size / 64 + 1
        &&& forall|j: u64|
            (self.size % 64) as u64 <= j < 64 ==> !#[trigger] nth_bit(
                self.base@[self.base@.len() - 1],
                j,
            )
        &&& forall|l: int|
            0 <= l < self.accel_layers@.len() ==> #[trigger] self.accel_layers@[l]@.len() == (
            self.child_words(l).len() - 1) / 64 + 1 && self.accel_layers@[l]@.len() >= 1
        &&& forall|l: int, w: int, j: u64|
            0 <= l < self.accel_layers@.len() && 0 <= w < self.accel_layers@[l]@.len() && j < 64
                ==> #[trigger] nth_bit(self.accel_layers@[l]@[w], j) == (w * 64 + j
                < self.child_words(l).len() && self.child_words(l)[w * 64 + j] == u64::MAX)
    }

    /// The sequence of occupancy bits this structure tracks.
    pub closed spec fn view(&self) -> Seq<bool> {
        Seq::new(self.size as nat, |i: int| nth_bit(self.base@[i / 64], (i % 64) as u64))
    }

    /// The caller-visible bit count.
    pub closed spec fn spec_size(&self) -> usize {
        self.size
    }

    /// Creates an empty bitmap with `layers` acceleration layers above the
    /// base bit-set.
    pub fn new(layers: usize) -> (r: Self)
        ensures
            r.wf(),
            r.spec_size() == 0,
            r@ =~= Seq::<bool>::empty(),
    {
        let mut base: Vec<u64> = Vec::new();
        base.push(0u64);
        let mut accel_layers: Vec<Vec<u64>> = Vec::new();
        let mut i: usize = 0;
        while i < layers
            invariant
                accel_layers@.len() == i,
                forall|l: int| 0 <= l < i ==> #[trigger] accel_layers@[l]@ =~= seq![0u64],
            decreases layers - i,
        {
            let mut layer: Vec<u64> = Vec::new();
            layer.push(0u64);
            accel_layers.push(layer);
            i += 1;
        }
        let r = Self { base, accel_layers, size: 0 };
        proof {
            assert forall|j: u64| (0usize % 64) as u64 <= j < 64 implies !nth_bit(0u64, j) by {
                assert(!nth_bit(0u64, j)) by (bit_vector)
                    requires
                        j < 64,
                ;
            }
            assert forall|l: int, w: int, j: u64|
                0 <= l < r.accel_layers@.len() && 0 <= w < r.accel_layers@[l]@.len() && j
                    < 64 implies #[trigger] nth_bit(r.accel_layers@[l]@[w], j) == (w * 64 + j
                < r.child_words(l).len() && r.child_words(l)[w * 64 + j] == u64::MAX) by {
                assert(r.accel_layers@[l]@[w] == 0u64);
                assert(!nth_bit(0u64, j)) by (bit_vector)
                    requires
                        j < 64,
                ;
                if w * 64 + j < r.child_words(l).len() {
                    assert(w == 0 && j == 0);
                    assert(r.child_words(l)[0] == 0u64);
                }
            }
        }
        r
    }

    /// True when word `c` of the rebuilt layer `new_words` is all ones:
    /// that holds exactly for carried-over full words below the new
    /// boundary word.
    spec fn carried_full(new_words: Seq<u64>, old_words: Seq<u64>, c: int) -> bool {
        c < new_words.len() - 1 && c < old_words.len() && old_words[c] == u64::MAX
    }

    /// Sets the tracked bit count to `size`. Bits below the old and new
    /// size are kept; new bits start out free; every summary layer is
    /// brought back in step.
    #[verifier::rlimit(100)]
    pub fn resize(&mut self, size: usize)
        requires
            old(self).wf(),
        ensures
            final(self).wf(),
            final(self).spec_size() == size,
            final(self)@ =~= Seq::new(
                size as nat,
                |i: int| if i < old(self)@.len() { old(self)@[i] } else { false },
            ),
    {
        let fwc: usize = size / 64;
        proof {
            vstd::arithmetic::div_mod::lemma_fundamental_div_mod(size as int, 64);
        }
        while self.base.len() < fwc + 1
            invariant
                fwc < usize::MAX,
                old(self).base@.len() <= self.base@.len() ==> self.base@ =~= old(self).base@
                    + Seq::new((self.base@.len() - old(self).base@.len()) as nat, |i: int| 0u64),
                self.base@.len() < old(self).base@.len() ==> self.base@ == old(self).base@,
                self.accel_layers@ == old(self).accel_layers@,
                self.size == old(self).size,
            decreases fwc + 1 - self.base@.len(),
        {
            self.base.push(0u64);
        }
        self.base.truncate(fwc + 1);
        let o: u64 = (size % 64) as u64;
        let lastw: u64 = self.base[fwc];
        self.base.set(fwc, lastw & !(u64::MAX << o));
        self.size = size;
        proof {
            lemma_mask_low(lastw, o);
            lemma_full_word();
            assert(self.base@.len() == fwc + 1);
            // boundary word is not full: its top bit is clear
            assert(!nth_bit(self.base@[fwc as int], 63));
            assert(self.base@[fwc as int] != u64::MAX);
            assert forall|j2: u64| (size % 64) as u64 <= j2 < 64 implies !#[trigger] nth_bit(
                self.base@[self.base@.len() - 1],
                j2,
            ) by {}
            // words below the boundary are carried over or fresh zeros
            assert forall|c: int| 0 <= c < fwc implies #[trigger] self.base@[c] == (if c < old(
                self,
            ).base@.len() {
                old(self).base@[c]
            } else {
                0u64
            }) by {}
            // the base now matches the carried_full characterization
            assert forall|c: int| 0 <= c < fwc + 1 implies (#[trigger] self.base@[c] == u64::MAX)
                == Self::carried_full(self.base@, old(self).base@, c) by {
                if c < fwc && c >= old(self).base@.len() {
                    assert(self.base@[c] == 0u64);
                    assert(nth_bit(u64::MAX, 0));
                    assert(!nth_bit(0u64, 0)) by (bit_vector);
                }
            }
            // the view now holds the old bits below both sizes and zeros above
            assert forall|i: int| 0 <= i < size implies #[trigger] self@[i] == (if i < old(
                self,
            )@.len() {
                old(self)@[i]
            } else {
                false
            }) by {
                let ofwc = old(self).size as int / 64;
                let jj: u64 = (i % 64) as u64;
                assert(0 <= i % 64 < 64 && i / 64 <= fwc);
                assert(!nth_bit(0u64, jj)) by (bit_vector)
                    requires
                        jj < 64,
                ;
                if i < old(self).size {
                    assert(i / 64 <= ofwc && ofwc < old(self).base@.len());
                    if i / 64 == fwc {
                        assert(i % 64 < o);
                        assert(self.base@[fwc as int] == lastw & !(u64::MAX << o));
                        assert(lastw == old(self).base@[fwc as int]);
                    } else {
                        assert(self.base@[i / 64] == old(self).base@[i / 64]);
                    }
                } else {
                    assert(i / 64 >= ofwc);
                    if i / 64 == ofwc {
                        assert((i % 64) as u64 >= (old(self).size % 64) as u64);
                        assert(!nth_bit(old(self).base@[old(self).base@.len() - 1], (i % 64) as u64));
                        if i / 64 == fwc {
                            assert(lastw == old(self).base@[ofwc]);
                        } else {
                            assert(self.base@[i / 64] == old(self).base@[i / 64]);
                        }
                    } else {
                        assert(i / 64 > ofwc);
                        if i / 64 == fwc {
                            if fwc < old(self).base@.len() {
                                assert(false);
                            }
                            assert(lastw == 0u64);
                        } else {
                            assert(self.base@[i / 64] == 0u64);
                        }
                    }
                }
            }
        }
        let ghost base_fixed = self.base@;
        let ghost view_fixed = self@;
        proof {
            assert(view_fixed =~= Seq::new(
                size as nat,
                |i: int| if i < old(self)@.len() { old(self)@[i] } else { false },
            ));
        }
        let mut child_len: usize = fwc + 1;
        let mut l: usize = 0;
        while l < self.accel_layers.len()
            invariant
                l <= self.accel_layers@.len(),
                self.size == size,
                self.base@ == base_fixed,
                self@ =~= view_fixed,
                base_fixed.len() == size / 64 + 1,
                self.accel_layers@.len() == old(self).accel_layers@.len(),
                old(self).wf(),
                forall|j2: u64|
                    (self.size % 64) as u64 <= j2 < 64 ==> !#[trigger] nth_bit(
                        self.base@[self.base@.len() - 1],
                        j2,
                    ),
                forall|l2: int|
                    l <= l2 < self.accel_layers@.len() ==> #[trigger] self.accel_layers@[l2]@ == old(
                        self,
                    ).accel_layers@[l2]@,
                forall|l2: int|
                    0 <= l2 < l ==> #[trigger] self.accel_layers@[l2]@.len() == (self.child_words(
                        l2,
                    ).len() - 1) / 64 + 1 && self.accel_layers@[l2]@.len() >= 1,
                forall|l2: int, w2: int, j2: u64|
                    0 <= l2 < l && 0 <= w2 < self.accel_layers@[l2]@.len() && j2 < 64
                        ==> #[trigger] nth_bit(self.accel_layers@[l2]@[w2], j2) == (w2 * 64 + j2
                        < self.child_words(l2).len() && self.child_words(l2)[w2 * 64 + j2]
                        == u64::MAX),
                child_len == self.child_words(l as int).len(),
                child_len >= 1,
                forall|c: int|
                    0 <= c < child_len ==> (#[trigger] self.child_words(l as int)[c] == u64::MAX)
                        == Self::carried_full(
                        self.child_words(l as int),
                        old(self).child_words(l as int),
                        c,
                    ),
            decreases self.accel_layers@.len() - l,
        {
            let ghost prev = *self;
            let ghost oclen: int = old(self).child_words(l as int).len() as int;
            let need: usize = (child_len - 1) / 64 + 1;
            let b: u64 = (((child_len - 1) % 64)) as u64;
            proof {
                vstd::arithmetic::div_mod::lemma_fundamental_div_mod(child_len - 1 as int, 64);
                assert(need >= 1);
            }
            let inner: &mut Vec<u64> = &mut self.accel_layers[l];
            let ghost old_inner = inner@;
            proof {
                assert(old_inner == old(self).accel_layers@[l as int]@);
                assert(old_inner.len() == (oclen - 1) / 64 + 1);
                assert(oclen >= 1);
                assert(old_inner.len() >= 1);
                assert(old_inner.len() * 64 >= oclen) by (nonlinear_arith)
                    requires
                        old_inner.len() == (oclen - 1) / 64 + 1 && oclen >= 1,
                ;
            }
            while inner.len() < need
                invariant
                    old_inner.len() <= inner@.len() ==> inner@ =~= old_inner + Seq::new(
                        (inner@.len() - old_inner.len()) as nat,
                        |i: int| 0u64,
                    ),
                    inner@.len() < old_inner.len() ==> inner@ == old_inner,
                decreases need - inner@.len(),
            {
                inner.push(0u64);
            }
            inner.truncate(need);
            let lw2: u64 = inner[need - 1];
            inner.set(need - 1, lw2 & !(u64::MAX << b));
            proof {
                lemma_mask_low(lw2, b);
                lemma_full_word();
                assert(inner@.len() == need);
                assert(!nth_bit(inner@[need - 1], 63));
                assert(inner@[need - 1] != u64::MAX);
                assert(self.accel_layers@ == prev.accel_layers@.update(l as int, *inner));
                assert(self.child_words(l as int) == prev.child_words(l as int));
                // words below the boundary are carried over or fresh zeros
                assert forall|w2: int| 0 <= w2 < need - 1 implies #[trigger] inner@[w2] == (
                if w2 < old_inner.len() {
                    old_inner[w2]
                } else {
                    0u64
                }) by {}
                // every summary bit of the rebuilt layer is now correct
                assert forall|w2: int, j2: u64|
                    0 <= w2 < need && j2 < 64 implies #[trigger] nth_bit(inner@[w2], j2) == (w2 * 64
                    + j2 < child_len && self.child_words(l as int)[w2 * 64 + j2] == u64::MAX) by {
                    let c = w2 * 64 + j2;
                    assert(0 <= c) by (nonlinear_arith)
                        requires
                            0 <= w2 && 0 <= j2 && c == w2 * 64 + j2,
                    ;
                    let under: u64 = if w2 < old_inner.len() {
                        old_inner[w2]
                    } else {
                        0u64
                    };
                    assert(!nth_bit(0u64, j2)) by (bit_vector)
                        requires
                            j2 < 64,
                    ;
                    // what the underlying word says about child c
                    if w2 < old_inner.len() {
                        assert(nth_bit(under, j2) == (c < oclen && old(self).child_words(
                            l as int,
                        )[c] == u64::MAX));
                    } else {
                        assert(c >= old_inner.len() * 64) by (nonlinear_arith)
                            requires
                                w2 >= old_inner.len() && 0 <= j2 && c == w2 * 64 + j2,
                        ;
                        assert(c >= oclen);
                        assert(!nth_bit(under, j2));
                    }
                    if w2 < need - 1 {
                        assert(inner@[w2] == under);
                        assert(c < child_len - 1) by (nonlinear_arith)
                            requires
                                w2 < need - 1 && 0 <= j2 < 64 && need == (child_len - 1) / 64 + 1
                                    && c == w2 * 64 + j2 && child_len >= 1,
                        ;
                    } else {
                        assert(w2 == need - 1);
                        assert((c >= child_len - 1) == (j2 >= b)) by (nonlinear_arith)
                            requires
                                w2 == need - 1 && need == (child_len - 1) / 64 + 1 && b == ((
                                child_len - 1) % 64) as u64 && c == w2 * 64 + j2 && 0 <= j2 < 64
                                    && child_len >= 1,
                        ;
                        assert(inner@[w2] == lw2 & !(u64::MAX << b));
                        assert(lw2 == under);
                        if j2 >= b {
                            assert(!nth_bit(inner@[w2], j2));
                            if c < child_len {
                                assert(c == child_len - 1);
                            }
                        } else {
                            assert(nth_bit(inner@[w2], j2) == nth_bit(lw2, j2));
                            assert(c < child_len - 1);
                        }
                    }
                }
                // the characterization carries one layer up
                assert(self.child_words(l + 1 as int) == inner@);
                assert forall|c: int|
                    0 <= c < need implies (#[trigger] self.child_words(l + 1)[c] == u64::MAX)
                        == Self::carried_full(
                        self.child_words(l + 1),
                        old(self).child_words(l + 1),
                        c,
                    ) by {
                    assert(old(self).child_words(l + 1) == old_inner);
                    if c < need - 1 {
                        if c < old_inner.len() {
                            assert(inner@[c] == old_inner[c]);
                        } else {
                            assert(inner@[c] == 0u64);
                            assert(nth_bit(u64::MAX, 0));
                            assert(!nth_bit(0u64, 0)) by (bit_vector);
                        }
                    }
                }
            }
            child_len = need;
            l += 1;
        }
    }


    /// Writes the bit at `idx` and refreshes the summary word on every
    /// acceleration layer above it.
    pub fn set(&mut self, idx: usize, value: bool)
        requires
            old(self).wf(),
            idx < old(self).spec_size(),
        ensures
            final(self).wf(),
            final(self)@ =~= old(self)@.update(idx as int, value),
            final(self).spec_size() == old(self).spec_size(),
    {
        let w: usize = idx / 64;
        let j: u64 = (idx % 64) as u64;
        let word: u64 = self.base[w];
        let neww: u64 = if value {
            word | (1u64 << j)
        } else {
            word & !(1u64 << j)
        };
        self.base.set(w, neww);
        proof {
            if value {
                lemma_bit_or(word, j);
            } else {
                lemma_bit_clear(word, j);
            }
            assert forall|i: int| 0 <= i < self.size implies #[trigger] self@[i] == old(
                self,
            )@.update(idx as int, value)[i] by {
                if i / 64 == w {
                    assert(0 <= i % 64 < 64);
                    if i == idx {
                        assert(i % 64 == j);
                    } else {
                        assert(i % 64 != j);
                    }
                }
            }
            assert(self@ =~= old(self)@.update(idx as int, value));
            assert forall|j2: u64|
                (self.size % 64) as u64 <= j2 < 64 implies !#[trigger] nth_bit(
                self.base@[self.base@.len() - 1],
                j2,
            ) by {
                if w == self.base@.len() - 1 {
                    assert(idx < self.size && idx / 64 == self.size / 64);
                    assert(j < (self.size % 64) as u64);
                }
            }
        }
        let mut child_full: bool = neww == u64::MAX;
        let mut cidx: usize = w;
        let mut l: usize = 0;
        proof {
            assert forall|l2: int, w2: int, j2: u64|
                0 <= l2 < self.accel_layers@.len() && 0 <= w2 < self.accel_layers@[l2]@.len() && j2
                    < 64 && !(l2 == 0 && w2 * 64 + j2 == cidx) implies #[trigger] nth_bit(
                self.accel_layers@[l2]@[w2],
                j2,
            ) == (w2 * 64 + j2 < self.child_words(l2).len() && self.child_words(l2)[w2 * 64 + j2]
                == u64::MAX) by {
                assert(nth_bit(old(self).accel_layers@[l2]@[w2], j2) == (w2 * 64 + j2 < old(
                    self,
                ).child_words(l2).len() && old(self).child_words(l2)[w2 * 64 + j2] == u64::MAX));
            }
        }
        while l < self.accel_layers.len()
            invariant
                l <= self.accel_layers@.len(),
                self.size == old(self).size,
                self.base@.len() == old(self).base@.len(),
                self.base@ == old(self).base@.update(w as int, neww),
                self.accel_layers@.len() == old(self).accel_layers@.len(),
                forall|l2: int|
                    0 <= l2 < self.accel_layers@.len() ==> #[trigger] self.accel_layers@[l2]@.len()
                        == old(self).accel_layers@[l2]@.len(),
                forall|l2: int|
                    l <= l2 < self.accel_layers@.len() ==> #[trigger] self.accel_layers@[l2]@ == old(
                        self,
                    ).accel_layers@[l2]@,
                old(self).wf(),
                w == idx / 64,
                cidx < self.child_words(l as int).len(),
                child_full == (self.child_words(l as int)[cidx as int] == u64::MAX),
                forall|l2: int, w2: int, j2: u64|
                    0 <= l2 < self.accel_layers@.len() && 0 <= w2 < self.accel_layers@[l2]@.len()
                        && j2 < 64 && !(l2 == l && w2 * 64 + j2 == cidx)
                        ==> #[trigger] nth_bit(self.accel_layers@[l2]@[w2], j2) == (w2 * 64 + j2
                        < self.child_words(l2).len() && self.child_words(l2)[w2 * 64 + j2]
                        == u64::MAX),
            decreases self.accel_layers@.len() - l,
        {
            let ghost prev = *self;
            let lw: usize = cidx / 64;
            let lj: u64 = (cidx % 64) as u64;
            proof {
                assert(self.accel_layers@[l as int]@.len() == (self.child_words(l as int).len() - 1)
                    / 64 + 1);
                assert(cidx as int <= self.child_words(l as int).len() - 1);
                assert(cidx as int / 64 <= (self.child_words(l as int).len() - 1) / 64) by (nonlinear_arith)
                    requires
                        0 <= cidx as int <= self.child_words(l as int).len() - 1,
                ;
            }
            let cur: u64 = self.accel_layers[l][lw];
            let ncur: u64 = if child_full {
                cur | (1u64 << lj)
            } else {
                cur & !(1u64 << lj)
            };
            let inner: &mut Vec<u64> = &mut self.accel_layers[l];
            inner.set(lw, ncur);
            proof {
                if child_full {
                    lemma_bit_or(cur, lj);
                } else {
                    lemma_bit_clear(cur, lj);
                }
                assert(self.accel_layers@[l as int]@ == prev.accel_layers@[l as int]@.update(
                    lw as int,
                    ncur,
                ));
                assert(lw * 64 + lj == cidx);
                assert forall|l2: int, w2: int, j2: u64|
                    0 <= l2 < self.accel_layers@.len() && 0 <= w2 < self.accel_layers@[l2]@.len()
                        && j2 < 64 && !(l2 == l + 1 && w2 * 64 + j2 == lw) implies #[trigger] nth_bit(
                    self.accel_layers@[l2]@[w2],
                    j2,
                ) == (w2 * 64 + j2 < self.child_words(l2).len() && self.child_words(l2)[w2 * 64 + j2]
                    == u64::MAX) by {
                    if l2 == l {
                        if w2 == lw {
                            if j2 == lj {
                                assert(nth_bit(ncur, lj) == child_full);
                            } else {
                                assert(w2 * 64 + j2 != cidx);
                                assert(nth_bit(ncur, j2) == nth_bit(cur, j2));
                            }
                        } else {
                            assert(w2 * 64 + j2 != cidx) by (nonlinear_arith)
                                requires
                                    w2 != lw && 0 <= j2 < 64 && 0 <= lj < 64 && cidx == lw * 64
                                        + lj,
                            ;
                        }
                    } else if l2 == l + 1 {
                        assert(self.child_words(l2) == prev.child_words(l2).update(lw as int, ncur));
                        assert(w2 * 64 + j2 != lw);
                    } else {
                        assert(self.accel_layers@[l2]@ == prev.accel_layers@[l2]@);
                        if l2 > 0 {
                            assert(self.child_words(l2) == prev.child_words(l2));
                        }
                    }
                }
            }
            child_full = ncur == u64::MAX;
            cidx = lw;
            l += 1;
        }
    }

    /// The last word of any layer is never all ones, because the bits at
    /// and beyond the tracked size are kept clear.
    proof fn lemma_last_word_not_full(&self, l: int)
        requires
            self.wf(),
            0 <= l <= self.accel_layers@.len(),
        ensures
            self.child_words(l).len() >= 1,
            self.child_words(l)[self.child_words(l).len() - 1] != u64::MAX,
        decreases l,
    {
        lemma_full_word();
        if l == 0 {
            assert(!nth_bit(self.base@[self.base@.len() - 1], 63));
        } else {
            self.lemma_last_word_not_full(l - 1);
            let clen = self.child_words(l - 1).len() as int;
            let w = (clen - 1) / 64;
            let j = ((clen - 1) % 64) as u64;
            vstd::arithmetic::div_mod::lemma_fundamental_div_mod(clen - 1, 64);
            assert(w * 64 + j == clen - 1);
            assert(self.accel_layers@[l - 1]@.len() == (clen - 1) / 64 + 1);
            assert(0 <= w < self.accel_layers@[l - 1]@.len() && j < 64);
            assert(nth_bit(self.accel_layers@[l - 1]@[w], j) == (w * 64 + j < clen
                && self.child_words(l - 1)[clen - 1] == u64::MAX));
            assert(!nth_bit(self.accel_layers@[l - 1]@[w], j));
        }
    }

    /// Finds the lowest free index, or `None` when every tracked bit is
    /// occupied. Walks one word per layer after scanning the top layer.
    #[verifier::rlimit(100)]
    pub fn first_free(&self) -> (r: Option<usize>)
        requires
            self.wf(),
        ensures
            match r {
                Some(i) => i < self.spec_size() && !self@[i as int] && forall|k: int|
                    0 <= k < i ==> self@[k],
                None => forall|k: int| 0 <= k < self@.len() ==> self@[k],
            },
    {
        let nlayers: usize = self.accel_layers.len();
        let mut lvl: usize = nlayers;
        let mut w: usize = 0;
        proof {
            self.lemma_last_word_not_full(nlayers as int);
        }
        if nlayers == 0 {
            let blen: usize = self.base.len();
            while self.base[w] == u64::MAX
                invariant
                    self.wf(),
                    nlayers == 0,
                    blen == self.base@.len(),
                    w < self.base@.len(),
                    forall|c: int| 0 <= c < w ==> #[trigger] self.base@[c] == u64::MAX,
                    self.base@[self.base@.len() - 1] != u64::MAX,
                decreases self.base@.len() - w,
            {
                w += 1;
            }
        } else {
            let tlen: usize = self.accel_layers[nlayers - 1].len();
            while self.accel_layers[nlayers - 1][w] == u64::MAX
                invariant
                    self.wf(),
                    1 <= nlayers == self.accel_layers@.len(),
                    tlen == self.accel_layers@[nlayers - 1]@.len(),
                    w < self.accel_layers@[nlayers - 1]@.len(),
                    forall|c: int| 0 <= c < w ==> #[trigger] self.accel_layers@[nlayers - 1]@[c] == u64::MAX,
                    self.accel_layers@[nlayers - 1]@[self.accel_layers@[nlayers - 1]@.len() - 1]
                        != u64::MAX,
                decreases self.accel_layers@[nlayers - 1]@.len() - w,
            {
                w += 1;
            }
        }
        while lvl > 0
            invariant
                self.wf(),
                lvl <= nlayers == self.accel_layers@.len(),
                w < self.child_words(lvl as int).len(),
                self.child_words(lvl as int)[w as int] != u64::MAX,
                forall|c: int| 0 <= c < w ==> #[trigger] self.child_words(lvl as int)[c] == u64::MAX,
            decreases lvl,
        {
            let word: u64 = self.accel_layers[lvl - 1][w];
            let j: u64 = first_zero_bit(word);
            let clen_exec: usize = if lvl == 1 {
                self.base.len()
            } else {
                self.accel_layers[lvl - 2].len()
            };
            proof {
                assert(clen_exec == self.child_words(lvl - 1).len());
                self.lemma_last_word_not_full(lvl - 1);
                lemma_full_word();
                let clen = self.child_words(lvl - 1).len() as int;
                let cstar = clen - 1;
                // the next word index stays below the child layer's length
                assert((w as int) * 64 + j < clen) by {
                    if (w as int) * 64 + j > cstar {
                        if cstar < (w as int) * 64 {
                            let pc = cstar / 64;
                            let pj = (cstar % 64) as u64;
                            vstd::arithmetic::div_mod::lemma_fundamental_div_mod(cstar, 64);
                            assert(pc < w) by (nonlinear_arith)
                                requires
                                    cstar == pc * 64 + pj && 0 <= pj < 64 && cstar < (w as int) * 64
                                        && 0 <= pc,
                            ;
                            assert(self.child_words(lvl as int)[pc] == u64::MAX);
                            assert(nth_bit(u64::MAX, pj));
                            assert(nth_bit(self.accel_layers@[lvl - 1]@[pc], pj) == (pc * 64 + pj
                                < clen && self.child_words(lvl - 1)[cstar] == u64::MAX));
                            assert(false);
                        } else {
                            let bj = (cstar - (w as int) * 64) as u64;
                            assert(bj < j);
                            assert(nth_bit(word, bj));
                            assert(nth_bit(self.accel_layers@[lvl - 1]@[w as int], bj) == ((
                            w as int) * 64 + bj < clen && self.child_words(lvl - 1)[cstar]
                                == u64::MAX));
                            assert(false);
                        }
                    }
                }
                // the chosen child word is not all ones
                assert(nth_bit(word, j) == ((w as int) * 64 + j < clen && self.child_words(
                    lvl - 1,
                )[(w as int) * 64 + j] == u64::MAX));
                // every child word before it is all ones
                assert forall|c: int| 0 <= c < (w as int) * 64 + j implies #[trigger] self.child_words(
                    lvl - 1,
                )[c] == u64::MAX by {
                    vstd::arithmetic::div_mod::lemma_fundamental_div_mod(c, 64);
                    let pc = c / 64;
                    let pj = (c % 64) as u64;
                    assert(0 <= pc <= w as int) by (nonlinear_arith)
                        requires
                            c == pc * 64 + pj && 0 <= pj < 64 && 0 <= c < (w as int) * 64 + j && j
                                < 64,
                    ;
                    if pc < w as int {
                        assert(self.child_words(lvl as int)[pc] == u64::MAX);
                        assert(nth_bit(u64::MAX, pj));
                        assert(nth_bit(self.accel_layers@[lvl - 1]@[pc], pj) == (pc * 64 + pj < clen
                            && self.child_words(lvl - 1)[c] == u64::MAX));
                    } else {
                        assert(pj < j) by (nonlinear_arith)
                            requires
                                c == pc * 64 + pj && pc == w as int && c < (w as int) * 64 + j,
                        ;
                        assert(nth_bit(word, pj));
                        assert(nth_bit(self.accel_layers@[lvl - 1]@[w as int], pj) == ((w as int)
                            * 64 + pj < clen && self.child_words(lvl - 1)[c] == u64::MAX));
                    }
                }
            }
            w = w * 64 + (j as usize);
            lvl -= 1;
        }
        let word: u64 = self.base[w];
        let j: u64 = first_zero_bit(word);
        proof {
            lemma_full_word();
            // the first clear bit cannot lie beyond the tracked size
            assert((w as int) * 64 + j <= self.size) by {
                if (w as int) * 64 + j > self.size {
                    let sw = self.size as int / 64;
                    let sj = (self.size as int % 64) as u64;
                    vstd::arithmetic::div_mod::lemma_fundamental_div_mod(self.size as int, 64);
                    assert(self.base@.len() == sw + 1);
                    assert(sj == (self.size % 64) as u64);
                    assert(!nth_bit(self.base@[self.base@.len() - 1], sj));
                    assert(!nth_bit(self.base@[sw], sj));
                    if sw < w as int {
                        assert(self.base@[sw] == u64::MAX);
                        assert(nth_bit(u64::MAX, sj));
                        assert(false);
                    } else if sw == w as int {
                        assert(sj < j) by (nonlinear_arith)
                            requires
                                self.size as int == sw * 64 + sj && sw == w as int && (w as int)
                                    * 64 + j > self.size as int,
                        ;
                        assert(nth_bit(word, sj));
                        assert(false);
                    } else {
                        assert((w as int) * 64 + j < sw * 64) by (nonlinear_arith)
                            requires
                                (w as int) < sw && j < 64,
                        ;
                        assert(false);
                    }
                }
            }
        }
        let idx: usize = w * 64 + (j as usize);
        proof {
            vstd::arithmetic::div_mod::lemma_fundamental_div_mod(idx as int, 64);
            assert forall|k: int| 0 <= k < idx && k < self@.len() implies self@[k] by {
                if true {
                    vstd::arithmetic::div_mod::lemma_fundamental_div_mod(k, 64);
                    let pc = k / 64;
                    let pj = (k % 64) as u64;
                    assert(0 <= pc <= w as int) by (nonlinear_arith)
                        requires
                            k == pc * 64 + pj && 0 <= pj < 64 && 0 <= k < (w as int) * 64 + j && j
                                < 64,
                    ;
                    if pc < w as int {
                        assert(self.base@[pc] == u64::MAX);
                        assert(nth_bit(u64::MAX, pj));
                    } else {
                        assert(pj < j) by (nonlinear_arith)
                            requires
                                k == pc * 64 + pj && pc == w as int && k < (w as int) * 64 + j,
                        ;
                        assert(nth_bit(word, pj));
                    }
                }
            }
        }
        if idx < self.size {
            proof {
                assert(idx as int / 64 == w as int && idx as int % 64 == j) by (nonlinear_arith)
                    requires
                        idx == (w as int) * 64 + j && 0 <= j < 64 && 0 <= w as int && idx as int
                            == 64 * (idx as int / 64) + idx as int % 64 && 0 <= idx as int % 64
                            < 64,
                ;
                assert(!self@[idx as int]);
            }
            Some(idx)
        } else {
            None
        }
    }

    /// Tests the stored bit at `idx`.
    pub fn is_set(&self, idx: usize) -> (r: bool)
        requires
            self.wf(),
            idx < self.spec_size(),
        ensures
            r == self@[idx as int],
    {
        let j: u64 = (idx % 64) as u64;
        (self.base[idx / 64] >> j) & 1u64 == 1u64
    }
}

} // verus!
