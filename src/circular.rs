use vstd::prelude::*;
use vstd::arithmetic::div_mod::{
    lemma_fundamental_div_mod, lemma_fundamental_div_mod_converse, lemma_mod_decreases,
    lemma_mod_pos_bound,
};

verus! {

/// Two positions less than `cap` apart fall into different slots.
proof fn lemma_slots_distinct(x: int, y: int, cap: int)
    requires
        cap > 0,
        0 <= x < y < x + cap,
    ensures
        x % cap != y % cap,
{
    lemma_fundamental_div_mod(x, cap);
    lemma_fundamental_div_mod(y, cap);
    lemma_mod_pos_bound(x, cap);
    lemma_mod_pos_bound(y, cap);
    if x % cap == y % cap {
        let q = y / cap - x / cap;
        assert(y - x == cap * q) by (nonlinear_arith)
            requires
                x == cap * (x / cap) + x % cap,
                y == cap * (y / cap) + y % cap,
                x % cap == y % cap,
                q == y / cap - x / cap,
        ;
        if q <= 0 {
            assert(cap * q <= 0) by (nonlinear_arith)
                requires
                    cap > 0,
                    q <= 0,
            ;
        } else {
            assert(cap * q >= cap) by (nonlinear_arith)
                requires
                    cap > 0,
                    q >= 1,
            ;
        }
    }
}

/// A ring buffer of at most `CAP` elements whose logical positions count up
/// from `start`, which only ever grows.
pub struct CircularBuf<T, const CAP: usize> {
    start: usize,
    len: usize,
    backing: Vec<Option<T>>,
}

impl<T, const CAP: usize> View for CircularBuf<T, CAP> {
    /// The elements held, oldest first.
    type V = Seq<T>;

    closed spec fn view(&self) -> Seq<T> {
        Seq::new(self.len as nat, |i: int| self.backing@[self.slot(i)]->Some_0)
    }
}

impl<T, const CAP: usize> CircularBuf<T, CAP> {
    /// The logical position of the oldest element.
    pub closed spec fn spec_start(&self) -> nat {
        self.start as nat
    }

    closed spec fn slot(&self, i: int) -> int {
        (self.start + i) % (CAP as int)
    }

    pub closed spec fn wf(&self) -> bool {
        &&& self.backing@.len() == CAP
        &&& self.len <= CAP
        &&& self.start + self.len <= usize::MAX
        &&& forall|i: int|
            0 <= i < self.len ==> (#[trigger] self.backing@[(self.start + i) % (CAP as int)]) is Some
    }

    proof fn lemma_slot_bounds(&self, i: int)
        requires
            CAP > 0,
            0 <= i,
        ensures
            0 <= self.slot(i) < CAP,
    {
        lemma_mod_pos_bound(self.start + i, CAP as int);
    }

    pub fn new() -> (r: Self)
        ensures
            r.wf(),
            r@ == Seq::<T>::empty(),
            r.spec_start() == 0,
    {
        let mut backing: Vec<Option<T>> = Vec::new();
        let mut i: usize = 0;
        while i < CAP
            invariant
                i <= CAP,
                backing@.len() == i,
            decreases CAP - i,
        {
            backing.push(None);
            i = i + 1;
        }
        let r = CircularBuf { start: 0, len: 0, backing };
        assert(r@ =~= Seq::<T>::empty());
        r
    }

    pub fn start(&self) -> (r: usize)
        ensures
            r == self.spec_start(),
    {
        self.start
    }

    pub fn len(&self) -> (r: usize)
        requires
            self.wf(),
        ensures
            r == self@.len(),
            r <= CAP,
    {
        self.len
    }

    /// The buffer never holds more than `CAP` elements.
    pub proof fn lemma_len_bound(&self)
        requires
            self.wf(),
        ensures
            self@.len() <= CAP,
    {
    }

    /// Appends `value`, evicting the oldest element first when the buffer is full.
    pub fn push_back(&mut self, value: T)
        requires
            old(self).wf(),
            CAP > 0,
            old(self).spec_start() + old(self)@.len() < usize::MAX,
        ensures
            final(self).wf(),
            final(self)@.len() <= CAP,
            old(self)@.len() == CAP ==> final(self)@ == old(self)@.drop_first().push(value)
                && final(self).spec_start() == old(self).spec_start() + 1,
            old(self)@.len() < CAP ==> final(self)@ == old(self)@.push(value)
                && final(self).spec_start() == old(self).spec_start(),
    {
        if self.len == CAP {
            self.pop_front();
            assert(self@.len() < CAP);
        }
        let ghost mid = *self;
        let back = self.len;
        assert(back < CAP);
        let idx = (self.start + back) % CAP;
        self.backing.set(idx, Some(value));
        self.len = self.len + 1;
        proof {
            assert forall|i: int| 0 <= i < mid.len implies mid.slot(i) != idx by {
                lemma_slots_distinct(mid.start + i, mid.start + back, CAP as int);
            }
            assert forall|i: int| 0 <= i < self.len implies (#[trigger] self.backing@[self.slot(
                i,
            )]) is Some by {
                if i < mid.len {
                    assert(self.slot(i) == mid.slot(i));
                    mid.lemma_slot_bounds(i);
                }
            }
            assert forall|i: int| 0 <= i < mid.len implies self.backing@[self.slot(i)]
                == mid.backing@[mid.slot(i)] by {
                mid.lemma_slot_bounds(i);
            }
            assert(self@ =~= mid@.push(value));
        }
    }

    /// Removes and returns the oldest element, if any.
    pub fn pop_front(&mut self) -> (r: Option<T>)
        requires
            old(self).wf(),
        ensures
            final(self).wf(),
            old(self)@.len() == 0 ==> r is None && final(self)@ == old(self)@
                && final(self).spec_start() == old(self).spec_start(),
            old(self)@.len() > 0 ==> r == Some(old(self)@[0]) && final(self)@ == old(
                self,
            )@.drop_first() && final(self).spec_start() == old(self).spec_start() + 1,
    {
        if self.len == 0 {
            None
        } else {
            let ghost prev = *self;
            let front = self.start % CAP;
            self.start = self.start + 1;
            self.len = self.len - 1;
            self.backing.push(None);
            let v = self.backing.swap_remove(front);
            proof {
                assert(front == prev.slot(0));
                assert forall|i: int| 0 <= i < self.len implies self.backing@[self.slot(i)]
                    == prev.backing@[prev.slot(i + 1)] by {
                    assert(self.slot(i) == prev.slot(i + 1));
                    prev.lemma_slot_bounds(i + 1);
                    lemma_slots_distinct(prev.start as int, prev.start + i + 1, CAP as int);
                    assert(prev.backing@[(prev.start + (i + 1)) % (CAP as int)] is Some);
                }
                assert forall|i: int| 0 <= i < self.len implies (#[trigger] self.backing@[(self.start
                    + i) % (CAP as int)]) is Some by {
                    assert(self.slot(i) == prev.slot(i + 1));
                    prev.lemma_slot_bounds(i + 1);
                    lemma_slots_distinct(prev.start as int, prev.start + i + 1, CAP as int);
                    assert(prev.backing@[(prev.start + (i + 1)) % (CAP as int)] is Some);
                }
                assert(self@ =~= prev@.drop_first());
            }
            v
        }
    }

    /// The element at logical offset `index` from the start.
    pub fn get(&self, index: usize) -> (r: Option<&T>)
        requires
            self.wf(),
        ensures
            index < self@.len() <==> r is Some,
            r is Some ==> *r->Some_0 == self@[index as int],
    {
        match self.calc_idx(index) {
            None => None,
            Some(i) => self.backing[i].as_ref(),
        }
    }

    /// A mutable reference to the element at logical offset `index`.
    pub fn get_mut(&mut self, index: usize) -> (r: Option<&mut T>)
        requires
            old(self).wf(),
        ensures
            index < old(self)@.len() <==> r is Some,
            r is None ==> *final(self) == *old(self),
            r is Some ==> *r->Some_0 == old(self)@[index as int],
            r is Some ==> final(self).wf(),
            r is Some ==> final(self).spec_start() == old(self).spec_start(),
            r is Some ==> final(self)@.len() == old(self)@.len(),
            r is Some ==> final(self)@[index as int] == *final(r->Some_0),
            r is Some ==> forall|j: int|
                0 <= j < old(self)@.len() && j != index ==> #[trigger] final(self)@[j] == old(
                    self,
                )@[j],
    {
        match self.calc_idx(index) {
            None => None,
            Some(i) => {
                proof {
                    assert forall|j: int| 0 <= j < self.len && j != index implies #[trigger] self.slot(j)
                        != i by {
                        if j < index {
                            lemma_slots_distinct(self.start + j, self.start + index, CAP as int);
                        } else {
                            lemma_slots_distinct(self.start + index, self.start + j, CAP as int);
                        }
                    }
                    assert forall|j: int| 0 <= j < self.len implies 0 <= #[trigger] self.slot(j) < CAP by {
                        self.lemma_slot_bounds(j);
                    }
                }
                self.backing[i].as_mut()
            },
        }
    }

    fn calc_idx(&self, index: usize) -> (r: Option<usize>)
        requires
            self.wf(),
        ensures
            index < self@.len() <==> r is Some,
            r is Some ==> r->Some_0 == self.slot(index as int) && self.backing@[r->Some_0 as int] is Some,
    {
        if index >= self.len {
            None
        } else {
            proof {
                self.lemma_slot_bounds(index as int);
            }
            Some((index + self.start) % CAP)
        }
    }
}

} // verus!

verus! {

/// Why a rolling index could not be resolved to a stored entry.
#[derive(Debug, Clone, Copy, PartialEq, Eq, Structural)]
pub enum RollingBufError {
    /// The entry was written but has since been evicted.
    TooOld,
    /// The entry lies ahead of what was written, or the index is out of range.
    OutOfBounds,
}

/// Keeps the last `CAP` entries of a sequence whose indices are only known
/// modulo `VCAP`, recovering each entry's absolute position from the window start.
pub struct RollingBuf<T, const CAP: usize, const VCAP: usize> {
    backing: Box<CircularBuf<Option<T>, CAP>>,
}

impl<T, const CAP: usize, const VCAP: usize> View for RollingBuf<T, CAP, VCAP> {
    /// The slots of the window, oldest first; `None` marks a skipped index.
    type V = Seq<Option<T>>;

    closed spec fn view(&self) -> Seq<Option<T>> {
        self.backing@
    }
}

impl<T, const CAP: usize, const VCAP: usize> RollingBuf<T, CAP, VCAP> {
    /// The absolute position of the oldest slot of the window.
    pub closed spec fn spec_start(&self) -> nat {
        self.backing.spec_start()
    }

    pub closed spec fn wf(&self) -> bool {
        &&& self.backing.wf()
        &&& CAP * 8 <= VCAP
    }

    /// The absolute position that `rolling_index` denotes for a window starting at `start`.
    pub open spec fn resolve(start: int, rolling_index: int) -> Result<int, RollingBufError> {
        if rolling_index >= VCAP {
            Err(RollingBufError::OutOfBounds)
        } else {
            let rolling_start = start % (VCAP as int);
            let block_start = start - rolling_start;
            if rolling_index < rolling_start {
                if rolling_start >= VCAP - CAP && rolling_index <= CAP {
                    Ok(block_start + VCAP + rolling_index)
                } else {
                    Err(RollingBufError::TooOld)
                }
            } else {
                Ok(block_start + rolling_index)
            }
        }
    }

    /// What reading `rolling_index` yields: the slot it resolves to, or why there is none.
    pub open spec fn lookup(&self, rolling_index: int) -> Result<Option<T>, RollingBufError> {
        match Self::resolve(self.spec_start() as int, rolling_index) {
            Err(e) => Err(e),
            Ok(t) => if t - self.spec_start() < self@.len() {
                Ok(self@[t - self.spec_start()])
            } else {
                Err(RollingBufError::OutOfBounds)
            },
        }
    }

    /// The slot at absolute position `j` once `value` has been added at absolute
    /// position `t`.
    pub open spec fn slot_after_add(&self, t: int, value: T, j: int) -> Option<T> {
        if j == t {
            Some(value)
        } else if j < self.spec_start() + self@.len() {
            self@[j - self.spec_start()]
        } else {
            None
        }
    }

    /// Where the window ends once absolute position `t` has been added.
    pub open spec fn end_after_add(&self, t: int) -> int {
        let end = (self.spec_start() + self@.len()) as int;
        if t + 1 > end {
            t + 1
        } else {
            end
        }
    }

    /// Where the window starts once absolute position `t` has been added.
    pub open spec fn start_after_add(&self, t: int) -> int {
        let end = self.end_after_add(t);
        if end - CAP > self.spec_start() {
            end - CAP
        } else {
            self.spec_start() as int
        }
    }

    /// The absolute position of the oldest slot of the window.
    pub fn start(&self) -> (r: usize)
        ensures
            r == self.spec_start(),
    {
        self.backing.start()
    }

    fn check_caps()
        requires
            CAP * 8 <= VCAP,
    {
    }

    fn calc_true_index(&self, rolling_index: usize) -> (r: Result<usize, RollingBufError>)
        requires
            self.wf(),
            self.spec_start() + 2 * VCAP <= usize::MAX,
        ensures
            r is Ok <==> Self::resolve(self.spec_start() as int, rolling_index as int) is Ok,
            r is Ok ==> r->Ok_0 == Self::resolve(self.spec_start() as int, rolling_index as int)->Ok_0,
            r is Err ==> r->Err_0 == Self::resolve(self.spec_start() as int, rolling_index as int)->Err_0,
    {
        if rolling_index >= VCAP {
            return Err(RollingBufError::OutOfBounds);
        }
        let start = self.backing.start();
        proof {
            lemma_mod_pos_bound(start as int, VCAP as int);
            lemma_mod_decreases(start as nat, VCAP as nat);
        }
        let rolling_start = start % VCAP;
        let block_start = start - rolling_start;
        let mut rollover: usize = 0;
        if rolling_index < rolling_start {
            if rolling_start >= VCAP - CAP && rolling_index <= CAP {
                rollover = VCAP;
            } else {
                return Err(RollingBufError::TooOld);
            }
        }
        Ok(block_start + rollover + rolling_index)
    }

    /// Reads the slot that `rolling_index` resolves to.
    pub fn index(&self, rolling_index: usize) -> (r: Result<Option<&T>, RollingBufError>)
        requires
            self.wf(),
            self.spec_start() + 2 * VCAP <= usize::MAX,
        ensures
            r is Ok <==> self.lookup(rolling_index as int) is Ok,
            r is Err ==> r->Err_0 == self.lookup(rolling_index as int)->Err_0,
            r is Ok ==> (r->Ok_0 is Some <==> self.lookup(rolling_index as int)->Ok_0 is Some),
            r is Ok && r->Ok_0 is Some ==> *r->Ok_0->Some_0 == self.lookup(
                rolling_index as int,
            )->Ok_0->Some_0,
    {
        let start = self.backing.start();
        let true_index = match self.calc_true_index(rolling_index) {
            Ok(t) => t,
            Err(e) => return Err(e),
        };
        proof {
            lemma_mod_pos_bound(start as int, VCAP as int);
        }
        match self.backing.get(true_index - start) {
            Some(data) => Ok(data.as_ref()),
            None => Err(RollingBufError::OutOfBounds),
        }
    }

    /// An empty buffer; `VCAP` must be at least eight times `CAP`.
    pub fn new() -> (r: Self)
        requires
            CAP * 8 <= VCAP,
        ensures
            r.wf(),
            r@ == Seq::<Option<T>>::empty(),
            r.spec_start() == 0,
    {
        Self::check_caps();
        RollingBuf { backing: Box::new(CircularBuf::new()) }
    }

    /// Stores `value` at the position `rolling_index` resolves to, first moving the
    /// window forward over empty slots when that position lies past its end.
    /// Positions more than `2 * CAP` past the window start are refused.
    pub fn add(&mut self, rolling_index: usize, value: T) -> (r: Result<usize, RollingBufError>)
        requires
            old(self).wf(),
            CAP > 0,
            old(self).spec_start() + 2 * VCAP <= usize::MAX,
        ensures
            final(self).wf(),
            final(self)@.len() <= CAP,
            ({
                let start = old(self).spec_start() as int;
                match Self::resolve(start, rolling_index as int) {
                    Err(e) => r == Err::<usize, RollingBufError>(e) && final(self)@ == old(self)@
                        && final(self).spec_start() == start,
                    Ok(t) => if t > start + 2 * CAP {
                        r == Err::<usize, RollingBufError>(RollingBufError::OutOfBounds)
                            && final(self)@ == old(self)@ && final(self).spec_start() == start
                    } else {
                        &&& r == Ok::<usize, RollingBufError>(t as usize)
                        &&& final(self).spec_start() == old(self).start_after_add(t)
                        &&& final(self)@.len() == old(self).end_after_add(t) - old(
                            self,
                        ).start_after_add(t)
                        &&& forall|k: int|
                            0 <= k < final(self)@.len() ==> #[trigger] final(self)@[k] == old(
                                self,
                            ).slot_after_add(t, value, final(self).spec_start() + k)
                    },
                }
            }),
    {
        let true_index = match self.calc_true_index(rolling_index) {
            Ok(t) => t,
            Err(e) => return Err(e),
        };
        proof {
            lemma_mod_pos_bound(self.spec_start() as int, VCAP as int);
        }
        if true_index > self.backing.start() + 2 * CAP {
            return Err(RollingBufError::OutOfBounds);
        }
        let ghost start0 = self.spec_start() as int;
        let ghost end0 = start0 + self@.len();
        let ghost prev = self@;
        while self.backing.start() + self.backing.len() <= true_index
            invariant
                self.wf(),
                CAP > 0,
                start0 <= self.spec_start(),
                start0 <= true_index <= start0 + 2 * CAP,
                start0 + 2 * VCAP <= usize::MAX,
                end0 <= self.spec_start() + self@.len(),
                self.spec_start() + self@.len() <= if true_index + 1 > end0 {
                    true_index + 1
                } else {
                    end0
                },
                self.spec_start() == if self.spec_start() + self@.len() - CAP > start0 {
                    self.spec_start() + self@.len() - CAP
                } else {
                    start0
                },
                forall|k: int|
                    0 <= k < self@.len() ==> #[trigger] self@[k] == if self.spec_start() + k
                        < end0 {
                        prev[self.spec_start() + k - start0]
                    } else {
                        None
                    },
            decreases true_index + 1 - self.spec_start() - self@.len(),
        {
            let ghost before = self@;
            let ghost s_before = self.spec_start() as int;
            self.backing.push_back(None);
            proof {
                assert forall|k: int| 0 <= k < self@.len() implies #[trigger] self@[k] == if self.spec_start() + k
                    < end0 {
                    prev[self.spec_start() + k - start0]
                } else {
                    None
                } by {
                    if self.spec_start() == s_before {
                        if k < before.len() {
                            assert(self@[k] == before[k]);
                        }
                    } else {
                        if k + 1 < before.len() {
                            assert(self@[k] == before[k + 1]);
                        }
                    }
                }
            }
        }
        let start = self.backing.start();
        match self.backing.get_mut(true_index - start) {
            Some(slot) => {
                *slot = Some(value);
            },
            None => {},
        }
        Ok(true_index)
    }
}

} // verus!

verus! {

impl<T, const CAP: usize, const VCAP: usize> RollingBuf<T, CAP, VCAP> {
    /// Every absolute position inside the window is recovered from its value
    /// modulo `VCAP`: reading it yields the slot stored there.
    pub proof fn lemma_round_trip(&self, i: int)
        requires
            self.wf(),
            self.spec_start() <= i < self.spec_start() + self@.len(),
        ensures
            Self::resolve(self.spec_start() as int, i % (VCAP as int)) == Ok::<
                int,
                RollingBufError,
            >(i),
            self.lookup(i % (VCAP as int)) == Ok::<Option<T>, RollingBufError>(
                self@[i - self.spec_start()],
            ),
    {
        self.lemma_len_bound();
        Self::lemma_resolve_within(self.spec_start() as int, i);
    }

    /// The window never holds more than `CAP` slots.
    pub proof fn lemma_len_bound(&self)
        requires
            self.wf(),
        ensures
            self@.len() <= CAP,
            CAP * 8 <= VCAP,
    {
    }

    /// Every position from `start` to `start + CAP` is recovered from its value
    /// modulo `VCAP`, also across a multiple of `VCAP`.
    pub proof fn lemma_resolve_within(start: int, t: int)
        requires
            CAP > 0,
            CAP * 8 <= VCAP,
            0 <= start <= t <= start + CAP,
        ensures
            Self::resolve(start, t % (VCAP as int)) == Ok::<int, RollingBufError>(t),
    {
        let s = start;
        let v = VCAP as int;
        let c = CAP as int;
        lemma_fundamental_div_mod(s, v);
        lemma_mod_pos_bound(s, v);
        let q = s / v;
        let b = s - s % v;
        assert(b == v * q);
        if t < b + v {
            lemma_fundamental_div_mod_converse(t, v, q, t - b);
        } else {
            assert(t - b - v < c);
            assert(v * (q + 1) == v * q + v) by (nonlinear_arith);
            lemma_fundamental_div_mod_converse(t, v, q + 1, t - b - v);
        }
    }

    /// A resolved position lies at or after the start and is congruent to the
    /// rolling index modulo `VCAP`.
    pub proof fn lemma_resolve_mod(start: int, rolling_index: int)
        requires
            0 <= start,
            0 <= rolling_index,
            Self::resolve(start, rolling_index) is Ok,
        ensures
            Self::resolve(start, rolling_index)->Ok_0 >= start,
            Self::resolve(start, rolling_index)->Ok_0 % (VCAP as int) == rolling_index,
    {
        let v = VCAP as int;
        lemma_fundamental_div_mod(start, v);
        lemma_mod_pos_bound(start, v);
        let q = start / v;
        let b = start - start % v;
        assert(b == v * q);
        let t = Self::resolve(start, rolling_index)->Ok_0;
        if t == b + rolling_index {
            lemma_fundamental_div_mod_converse(t, v, q, rolling_index);
        } else {
            assert(v * (q + 1) == v * q + v) by (nonlinear_arith);
            lemma_fundamental_div_mod_converse(t, v, q + 1, rolling_index);
        }
    }

    /// A position of the current `VCAP` block that was evicted from the window
    /// reads as too old, unless it is one of the few low indices that the
    /// window, sitting near the block's end, takes for the next block.
    pub proof fn lemma_evicted_too_old(&self, i: int)
        requires
            self.wf(),
            CAP > 0,
            0 <= i < self.spec_start(),
            i / (VCAP as int) == (self.spec_start() as int) / (VCAP as int),
            i % (VCAP as int) > CAP || (self.spec_start() as int) % (VCAP as int) < VCAP - CAP,
        ensures
            Self::resolve(self.spec_start() as int, i % (VCAP as int)) == Err::<
                int,
                RollingBufError,
            >(RollingBufError::TooOld),
            self.lookup(i % (VCAP as int)) == Err::<Option<T>, RollingBufError>(
                RollingBufError::TooOld,
            ),
    {
        let s = self.spec_start() as int;
        let v = VCAP as int;
        lemma_fundamental_div_mod(s, v);
        lemma_fundamental_div_mod(i, v);
        lemma_mod_pos_bound(s, v);
        lemma_mod_pos_bound(i, v);
    }
}


} // verus!
