//! A seeded bag randomizer: pieces come in shuffled batches of all seven types.
use vstd::prelude::*;
use crate::piece::NUM_PIECES;

verus! {

/// Multiplier of the linear congruential generator.
pub const LCG_A: u64 = 16807;
/// Modulus of the linear congruential generator.
pub const LCG_M: u64 = 2147483647;
/// Below this many buffered pieces, `next` draws another bag first.
pub const REFILL_BELOW: usize = 10;

/// The generator state after one step from `s`.
pub open spec fn lcg(s: int) -> int {
    (LCG_A * s) % (LCG_M as int)
}

/// The swap partner for position `i`, drawn from the generator state `s`.
pub open spec fn pick(s: int, i: int) -> int {
    if s == 0 {
        0
    } else {
        ((s - 1) * (i + 1)) / (LCG_M as int)
    }
}

pub open spec fn swap(a: Seq<usize>, i: int, j: int) -> Seq<usize> {
    a.update(i, a[j]).update(j, a[i])
}

/// Fisher-Yates shuffle steps `i`, `i - 1`, ..., `1` on `a`; returns the
/// sequence and the final generator state.
pub open spec fn shuffle(a: Seq<usize>, s: int, i: int) -> (Seq<usize>, int)
    decreases i,
{
    if i < 1 {
        (a, s)
    } else {
        let s2 = lcg(s);
        shuffle(swap(a, i, pick(s2, i)), s2, i - 1)
    }
}

pub open spec fn identity_bag() -> Seq<usize> {
    seq![0usize, 1, 2, 3, 4, 5, 6]
}

/// The bag drawn from generator state `s`.
pub open spec fn bag(s: int) -> Seq<usize> {
    shuffle(identity_bag(), s, 6).0
}

/// The generator state after drawing a bag from `s`.
pub open spec fn after_bag(s: int) -> int {
    shuffle(identity_bag(), s, 6).1
}

/// Piece `i` of the endless run of bags drawn from generator state `s`.
pub open spec fn stream(s: int, i: nat) -> usize
    decreases i,
{
    if i < 7 {
        bag(s)[i as int]
    } else {
        stream(after_bag(s), (i - 7) as nat)
    }
}

/// What a queue holds: the generator state and the buffered pieces, front first.
pub struct QueueModel {
    pub seed: int,
    pub pieces: Seq<usize>,
}

impl QueueModel {
    /// Piece `i` of those still to come.
    pub open spec fn upcoming(self, i: nat) -> usize {
        if i < self.pieces.len() {
            self.pieces[i as int]
        } else {
            stream(self.seed, (i - self.pieces.len()) as nat)
        }
    }

    /// The generator state lies below the modulus and buffered pieces are piece types.
    pub open spec fn wf(self) -> bool {
        &&& 0 <= self.seed < LCG_M
        &&& forall|i: int| 0 <= i < self.pieces.len() ==> #[trigger] self.pieces[i] < NUM_PIECES
    }

    /// With fewer than ten pieces buffered, one more bag is drawn.
    pub open spec fn refilled(self) -> QueueModel {
        if self.pieces.len() < REFILL_BELOW {
            QueueModel { seed: after_bag(self.seed), pieces: self.pieces + bag(self.seed) }
        } else {
            self
        }
    }

    /// The queue after taking one piece.
    pub open spec fn after_next(self) -> QueueModel {
        let q = self.refilled();
        QueueModel { seed: q.seed, pieces: q.pieces.drop_first() }
    }

    /// The queue with `t` put back at the front.
    pub open spec fn pushed(self, t: usize) -> QueueModel {
        QueueModel { seed: self.seed, pieces: seq![t] + self.pieces }
    }

    /// The same pieces are still to come.
    pub open spec fn same_upcoming(self, o: QueueModel) -> bool {
        forall|i: nat| #[trigger] self.upcoming(i) == o.upcoming(i)
    }
}

pub struct Queue {
    seed: u64,
    pieces: Vec<usize>,
}

impl View for Queue {
    type V = QueueModel;

    closed spec fn view(&self) -> QueueModel {
        QueueModel { seed: self.seed as int, pieces: self.pieces@ }
    }
}

proof fn lemma_shuffle_bounded(a: Seq<usize>, s: int, i: int)
    requires
        a.len() == 7,
        i <= 6,
        forall|j: int| 0 <= j < 7 ==> a[j] < NUM_PIECES,
        a.no_duplicates(),
    ensures
        shuffle(a, s, i).0.len() == 7,
        forall|j: int| 0 <= j < 7 ==> #[trigger] shuffle(a, s, i).0[j] < NUM_PIECES,
        shuffle(a, s, i).0.no_duplicates(),
    decreases i,
{
    if i >= 1 {
        let s2 = lcg(s);
        let r = pick(s2, i);
        if s2 != 0 {
            assert(0 <= s2 < LCG_M);
            assert((s2 - 1) * (i + 1) < LCG_M * (i + 1)) by (nonlinear_arith)
                requires 0 <= s2 - 1 < LCG_M, i + 1 > 0;
            assert(0 <= (s2 - 1) * (i + 1)) by (nonlinear_arith)
                requires 0 <= s2 - 1, i + 1 > 0;
            assert(r < i + 1) by (nonlinear_arith)
                requires r == ((s2 - 1) * (i + 1)) / (LCG_M as int), (s2 - 1) * (i + 1) < LCG_M * (i + 1), (s2 - 1) * (i + 1) >= 0;
        }
        lemma_pick_range(s2, i);
        let b = swap(a, i, r);
        assert forall|x: int, y: int| 0 <= x < b.len() && 0 <= y < b.len() && x != y implies b[x] != b[y] by {
            let sx = if x == r { i } else if x == i { r } else { x };
            let sy = if y == r { i } else if y == i { r } else { y };
            assert(b[x] == a[sx]);
            assert(b[y] == a[sy]);
        }
        lemma_shuffle_bounded(b, s2, i - 1);
    }
}

proof fn lemma_pick_range(s: int, i: int)
    requires
        0 <= s < LCG_M,
        i >= 0,
    ensures
        0 <= pick(s, i) <= i,
{
    if s != 0 {
        assert(0 <= (s - 1) * (i + 1)) by (nonlinear_arith)
            requires 0 <= s - 1, i + 1 > 0;
        assert((s - 1) * (i + 1) < LCG_M * (i + 1)) by (nonlinear_arith)
            requires 0 <= s - 1 < LCG_M, i + 1 > 0;
        let q = ((s - 1) * (i + 1)) / (LCG_M as int);
        assert(0 <= q < i + 1) by (nonlinear_arith)
            requires q == ((s - 1) * (i + 1)) / (LCG_M as int), (s - 1) * (i + 1) < LCG_M * (i + 1), (s - 1) * (i + 1) >= 0;
    }
}

/// Every bag holds the seven piece types, each once: seven distinct types below 7.
pub proof fn lemma_bag_bounded(s: int)
    ensures
        bag(s).len() == 7,
        forall|j: int| 0 <= j < 7 ==> #[trigger] bag(s)[j] < NUM_PIECES,
        bag(s).no_duplicates(),
{
    lemma_shuffle_bounded(identity_bag(), s, 6);
}

/// Every bag is a permutation of the seven piece types: each appears in it.
pub proof fn lemma_bag_permutation(s: int)
    ensures
        bag(s).len() == 7,
        bag(s).no_duplicates(),
        forall|t: usize| t < NUM_PIECES ==> #[trigger] bag(s).contains(t),
{
    lemma_bag_bounded(s);
    let a = bag(s);
    let all = identity_bag();
    assert(all.no_duplicates());
    all.unique_seq_to_set();
    a.unique_seq_to_set();
    assert forall|t: usize| t < NUM_PIECES implies #[trigger] a.contains(t) by {
        if !a.contains(t) {
            assert(all[t as int] == t);
            assert(all.to_set().contains(t));
            assert forall|x: usize| a.to_set().contains(x) implies all.to_set().remove(t).contains(x) by {
                let i = choose|i: int| 0 <= i < a.len() && a[i] == x;
                assert(all[x as int] == x);
            }
            vstd::set_lib::lemma_len_subset(a.to_set(), all.to_set().remove(t));
        }
    }
}

/// Every piece still to come is a piece type below 7.
pub proof fn lemma_stream_bounded(s: int, i: nat)
    ensures
        stream(s, i) < NUM_PIECES,
    decreases i,
{
    if i < 7 {
        lemma_bag_bounded(s);
    } else {
        lemma_stream_bounded(after_bag(s), (i - 7) as nat);
    }
}

/// Drawing a bag keeps the pieces still to come.
pub proof fn lemma_refilled(q: QueueModel)
    ensures
        q.refilled().same_upcoming(q),
        q.refilled().pieces.len() >= 7,
        q.wf() ==> q.refilled().wf(),
{
    lemma_bag_bounded(q.seed);
    if q.pieces.len() < REFILL_BELOW {
        let n = q.pieces.len();
        let r = q.refilled();
        assert forall|i: nat| #[trigger] r.upcoming(i) == q.upcoming(i) by {
            if i >= n && i < n + 7 {
                assert(stream(q.seed, (i - n) as nat) == bag(q.seed)[i - n]);
            } else if i >= n + 7 {
                assert(stream(q.seed, (i - n) as nat) == stream(after_bag(q.seed), (i - n - 7) as nat));
            }
        }
        if q.wf() {
            assert(0 <= after_bag(q.seed) < LCG_M) by {
                lemma_shuffle_seed(identity_bag(), q.seed, 6);
            }
            assert forall|i: int| 0 <= i < r.pieces.len() implies #[trigger] r.pieces[i] < NUM_PIECES by {
                if i >= n {
                    assert(r.pieces[i] == bag(q.seed)[i - n]);
                }
            }
        }
    }
}

proof fn lemma_shuffle_seed(a: Seq<usize>, s: int, i: int)
    requires
        0 <= s < LCG_M,
    ensures
        0 <= shuffle(a, s, i).1 < LCG_M,
    decreases i,
{
    if i >= 1 {
        let s2 = lcg(s);
        lemma_shuffle_seed(swap(a, i, pick(s2, i)), s2, i - 1);
    }
}

/// Taking a piece returns the first one still to come and shifts the rest forward.
pub proof fn lemma_after_next(q: QueueModel)
    ensures
        q.refilled().pieces[0] == q.upcoming(0),
        forall|i: nat| #[trigger] q.after_next().upcoming(i) == q.upcoming(i + 1),
        q.wf() ==> q.after_next().wf(),
{
    lemma_refilled(q);
    let r = q.refilled();
    let a = q.after_next();
    assert(r.upcoming(0) == q.upcoming(0));
    assert forall|i: nat| #[trigger] a.upcoming(i) == q.upcoming(i + 1) by {
        assert(r.upcoming(i + 1) == q.upcoming(i + 1));
        if i < a.pieces.len() {
            assert(a.pieces[i as int] == r.pieces[i + 1int]);
        } else {
            assert((i - a.pieces.len()) as nat == (i + 1 - r.pieces.len()) as nat);
        }
    }
    if q.wf() {
        assert forall|i: int| 0 <= i < a.pieces.len() implies #[trigger] a.pieces[i] < NUM_PIECES by {
            assert(a.pieces[i] == r.pieces[i + 1]);
        }
    }
}

/// Putting a piece back makes it the first to come, ahead of the rest.
pub proof fn lemma_pushed(q: QueueModel, t: usize)
    ensures
        q.pushed(t).upcoming(0) == t,
        forall|i: nat| #[trigger] q.pushed(t).upcoming(i + 1) == q.upcoming(i),
        q.wf() && t < NUM_PIECES ==> q.pushed(t).wf(),
{
    let p = q.pushed(t);
    assert forall|i: nat| #[trigger] p.upcoming(i + 1) == q.upcoming(i) by {
        if i < q.pieces.len() {
            assert(p.pieces[i + 1int] == q.pieces[i as int]);
        }
    }
    if q.wf() && t < NUM_PIECES {
        assert forall|i: int| 0 <= i < p.pieces.len() implies #[trigger] p.pieces[i] < NUM_PIECES by {
            if i > 0 {
                assert(p.pieces[i] == q.pieces[i - 1]);
            }
        }
    }
}

/// In a well-formed queue every piece still to come is a piece type below 7.
pub proof fn lemma_model_upcoming_bounded(q: QueueModel, i: nat)
    requires
        q.wf(),
    ensures
        q.upcoming(i) < NUM_PIECES,
{
    if i >= q.pieces.len() {
        lemma_stream_bounded(q.seed, (i - q.pieces.len()) as nat);
    }
}

/// Taking a piece and putting it back keeps the pieces still to come.
pub proof fn lemma_next_push(q: QueueModel)
    ensures
        q.after_next().pushed(q.upcoming(0)).same_upcoming(q),
{
    let u = q.upcoming(0);
    lemma_after_next(q);
    lemma_pushed(q.after_next(), u);
    let back = q.after_next().pushed(u);
    assert forall|i: nat| #[trigger] back.upcoming(i) == q.upcoming(i) by {
        if i > 0 {
            let j = (i - 1) as nat;
            assert(back.upcoming(j + 1) == q.after_next().upcoming(j));
            assert(q.after_next().upcoming(j) == q.upcoming(j + 1));
        }
    }
}

/// Queues with the same pieces to come, such as two made from one seed, hand
/// out the same piece and keep the same pieces to come: the pieces they hand
/// out, one call after another, are the same.
pub proof fn lemma_deterministic(q1: QueueModel, q2: QueueModel)
    requires
        q1.same_upcoming(q2),
    ensures
        q1.upcoming(0) == q2.upcoming(0),
        q1.after_next().same_upcoming(q2.after_next()),
{
    lemma_same_upcoming_steps(q1, q2, 0);
}

/// Upcoming-equal queues stay upcoming-equal when a piece is taken or put back.
pub proof fn lemma_same_upcoming_steps(q1: QueueModel, q2: QueueModel, t: usize)
    requires
        q1.same_upcoming(q2),
    ensures
        q1.after_next().same_upcoming(q2.after_next()),
        q1.pushed(t).same_upcoming(q2.pushed(t)),
        q1.upcoming(0) == q2.upcoming(0),
{
    lemma_after_next(q1);
    lemma_after_next(q2);
    lemma_pushed(q1, t);
    lemma_pushed(q2, t);
    assert(q1.upcoming(0) == q2.upcoming(0));
    assert forall|i: nat| #[trigger] q1.after_next().upcoming(i) == q2.after_next().upcoming(i) by {
        assert(q1.upcoming(i + 1) == q2.upcoming(i + 1));
    }
    assert forall|i: nat| #[trigger] q1.pushed(t).upcoming(i) == q2.pushed(t).upcoming(i) by {
        if i > 0 {
            assert(q1.upcoming((i - 1) as nat) == q2.upcoming((i - 1) as nat));
            assert(q1.pushed(t).upcoming(((i - 1) as nat) + 1) == q1.upcoming((i - 1) as nat));
            assert(q2.pushed(t).upcoming(((i - 1) as nat) + 1) == q2.upcoming((i - 1) as nat));
        }
    }
}

impl Queue {
    /// The generator state lies below the modulus and buffered pieces are piece types.
    pub open spec fn wf(&self) -> bool {
        self@.wf()
    }

    /// Every piece still to come is a piece type below 7.
    pub proof fn lemma_upcoming_bounded(&self, i: nat)
        requires
            self.wf(),
        ensures
            self@.upcoming(i) < NUM_PIECES,
    {
        if i >= self.pieces@.len() {
            lemma_stream_bounded(self.seed as int, (i - self.pieces@.len()) as nat);
        }
    }

    /// A queue with nothing buffered; its pieces are the bags drawn from `seed`.
    pub fn new(seed: usize) -> (r: Self)
        ensures
            r.wf(),
            r@.seed == seed as int % LCG_M as int,
            r@.pieces.len() == 0,
            forall|i: nat| #[trigger] r@.upcoming(i) == stream(seed as int % LCG_M as int, i),
    {
        Self { seed: (seed as u64) % LCG_M, pieces: Vec::new() }
    }

    /// Takes the next piece.
    pub fn next(&mut self) -> (r: usize)
        requires
            old(self).wf(),
        ensures
            final(self).wf(),
            r == old(self)@.upcoming(0),
            forall|i: nat| #[trigger] final(self)@.upcoming(i) == old(self)@.upcoming(i + 1),
            final(self)@ == old(self)@.after_next(),
    {
        if self.pieces.len() < REFILL_BELOW {
            self.seven_bag();
        }
        let ghost mid = self@;
        assert(forall|i: nat| #[trigger] mid.upcoming(i) == old(self)@.upcoming(i));
        let r = self.pieces.remove(0);
        proof {
            assert(mid.upcoming(0) == r);
            assert forall|i: nat| #[trigger] self@.upcoming(i) == old(self)@.upcoming(i + 1) by {
                assert(mid.upcoming(i + 1) == old(self)@.upcoming(i + 1));
                if i < self.pieces@.len() {
                    assert(self.pieces@[i as int] == mid.pieces[i + 1int]);
                } else {
                    assert((i - self.pieces@.len()) as nat == (i + 1 - mid.pieces.len()) as nat);
                }
            }
            assert(self.pieces@ =~= old(self)@.after_next().pieces);
        }
        r
    }

    /// The buffered pieces, front first.
    pub fn buffered(&self) -> (r: Vec<usize>)
        ensures
            r@ == self@.pieces,
    {
        let mut out: Vec<usize> = Vec::new();
        let mut i: usize = 0;
        while i < self.pieces.len()
            invariant
                i <= self.pieces@.len(),
                out@ == self.pieces@.take(i as int),
            decreases self.pieces@.len() - i,
        {
            out.push(self.pieces[i]);
            i = i + 1;
            assert(out@ =~= self.pieces@.take(i as int));
        }
        assert(self.pieces@.take(i as int) =~= self.pieces@);
        out
    }

    /// Puts `piece` back at the front.
    pub fn push(&mut self, piece: usize)
        requires
            old(self).wf(),
            piece < NUM_PIECES,
        ensures
            final(self).wf(),
            final(self)@.upcoming(0) == piece,
            forall|i: nat| #[trigger] final(self)@.upcoming(i + 1) == old(self)@.upcoming(i),
            final(self)@.seed == old(self)@.seed,
            final(self)@.pieces == seq![piece].add(old(self)@.pieces),
            final(self)@ == old(self)@.pushed(piece),
    {
        self.pieces.insert(0, piece);
        assert(self.pieces@ =~= seq![piece].add(old(self)@.pieces));
    }

    /// Advances the generator; returns the new state.
    fn next_num(&mut self) -> (r: u64)
        requires
            old(self).seed < LCG_M,
        ensures
            r == final(self).seed,
            final(self).seed == lcg(old(self).seed as int),
            final(self).seed < LCG_M,
            final(self).pieces == old(self).pieces,
    {
        self.seed = (LCG_A * self.seed) % LCG_M;
        self.seed
    }

    /// The swap partner for shuffle step `i` from generator state `s`.
    fn pick_exec(s: u64, i: usize) -> (r: usize)
        requires
            s < LCG_M,
            i <= 6,
        ensures
            r == pick(s as int, i as int),
            r <= i,
    {
        proof {
            lemma_pick_range(s as int, i as int);
        }
        if s == 0 {
            0
        } else {
            assert((s - 1) * (i + 1) <= LCG_M * 7) by (nonlinear_arith)
                requires s - 1 < LCG_M, i + 1 <= 7;
            (((s - 1) * (i as u64 + 1)) / LCG_M) as usize
        }
    }

    /// Draws one bag from the generator.
    fn shuffled_bag(&mut self) -> (arr: Vec<usize>)
        requires
            old(self).seed < LCG_M,
        ensures
            arr@ == bag(old(self).seed as int),
            final(self).seed == after_bag(old(self).seed as int),
            final(self).seed < LCG_M,
            final(self).pieces == old(self).pieces,
    {
        let mut arr: Vec<usize> = vec![0, 1, 2, 3, 4, 5, 6];
        assert(arr@ =~= identity_bag());
        let mut i: usize = 6;
        while i >= 1
            invariant
                i <= 6,
                arr@.len() == 7,
                self.seed < LCG_M,
                self.pieces == old(self).pieces,
                shuffle(arr@, self.seed as int, i as int) == shuffle(identity_bag(), old(self).seed as int, 6),
            decreases i,
        {
            let s = self.next_num();
            let r = Self::pick_exec(s, i);
            let ghost before = arr@;
            let a = arr[i];
            let b = arr[r];
            arr.set(i, b);
            arr.set(r, a);
            assert(arr@ =~= swap(before, i as int, r as int));
            i = i - 1;
        }
        arr
    }

    /// Appends one shuffled bag of all seven piece types.
    fn seven_bag(&mut self)
        requires
            old(self).wf(),
        ensures
            final(self).wf(),
            final(self).pieces@ == old(self).pieces@ + bag(old(self).seed as int),
            final(self).pieces@.len() == old(self).pieces@.len() + 7,
            final(self).seed == after_bag(old(self).seed as int),
            forall|i: nat| #[trigger] final(self)@.upcoming(i) == old(self)@.upcoming(i),
    {
        let arr = self.shuffled_bag();
        proof {
            lemma_bag_bounded(old(self).seed as int);
            assert(old(self)@.pieces == old(self).pieces@);
            assert forall|j: int| 0 <= j < old(self).pieces@.len() implies #[trigger] old(self).pieces@[j] < NUM_PIECES by {
                assert(old(self)@.pieces[j] < NUM_PIECES);
            }
        }
        let mut k: usize = 0;
        while k < 7
            invariant
                k <= 7,
                arr@ == bag(old(self).seed as int),
                bag(old(self).seed as int).len() == 7,
                forall|j: int| 0 <= j < 7 ==> #[trigger] arr@[j] < NUM_PIECES,
                self.seed == after_bag(old(self).seed as int),
                self.seed < LCG_M,
                self.pieces@ == old(self).pieces@ + arr@.subrange(0, k as int),
                forall|j: int| 0 <= j < old(self).pieces@.len() ==> #[trigger] old(self).pieces@[j] < NUM_PIECES,
            decreases 7 - k,
        {
            self.pieces.push(arr[k]);
            k = k + 1;
            assert(self.pieces@ =~= old(self).pieces@ + arr@.subrange(0, k as int));
        }
        assert(arr@.subrange(0, 7) =~= arr@);
        assert forall|j: int| 0 <= j < self.pieces@.len() implies #[trigger] self.pieces@[j] < NUM_PIECES by {
            if j >= old(self).pieces@.len() {
                assert(self.pieces@[j] == arr@[j - old(self).pieces@.len()]);
            }
        }
        proof {
            let n = old(self).pieces@.len();
            assert forall|i: nat| #[trigger] self@.upcoming(i) == old(self)@.upcoming(i) by {
                if i >= n && i < n + 7 {
                    assert(stream(old(self).seed as int, (i - n) as nat) == bag(old(self).seed as int)[i - n]);
                } else if i >= n + 7 {
                    assert(stream(old(self).seed as int, (i - n) as nat) == stream(
                        after_bag(old(self).seed as int),
                        (i - n - 7) as nat,
                    ));
                }
            }
        }
    }
}

} // verus!
