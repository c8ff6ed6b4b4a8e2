//! An unordered collection of (instant, payload) timer entries.
//!
//! Instants are plain `u64` tick counts (the driver decides the unit, e.g.
//! milliseconds); the collection never looks at a clock itself.  A vector
//! with a linear minimum scan is enough at the expected sizes (a handful of
//! entries per supervised application).

use vstd::prelude::*;

verus! {

/// One pending timer: fires once `instant` has been reached.
pub struct Timer<T> {
    pub instant: u64,
    pub payload: T,
}

/// An unordered multiset of timers with O(len) queries for the earliest one.
pub struct Timers<T> {
    timers: Vec<Timer<T>>,
}

/// The least instant among `s[0..n]`; meaningful only for `0 < n <= s.len()`.
pub open spec fn min_instant_prefix<T>(s: Seq<Timer<T>>, n: int) -> u64
    decreases n,
{
    if n <= 1 {
        s[0].instant
    } else if s[n - 1].instant < min_instant_prefix(s, n - 1) {
        s[n - 1].instant
    } else {
        min_instant_prefix(s, n - 1)
    }
}

/// The least instant among all entries of a non-empty timer sequence.
pub open spec fn min_instant<T>(s: Seq<Timer<T>>) -> u64 {
    min_instant_prefix(s, s.len() as int)
}

/// The least index whose entry attains the minimum instant; meaningful only
/// for non-empty sequences.
pub open spec fn first_min_index<T>(s: Seq<Timer<T>>) -> int {
    choose|i: int| 0 <= i < s.len() && s[i].instant == min_instant(s)
        && (forall|j: int| 0 <= j < i ==> s[j].instant != min_instant(s))
}

proof fn lemma_min_prefix_bounds<T>(s: Seq<Timer<T>>, n: int)
    requires
        0 < n <= s.len(),
    ensures
        exists|i: int| 0 <= i < n && s[i].instant == min_instant_prefix(s, n),
        forall|i: int| 0 <= i < n ==> min_instant_prefix(s, n) <= #[trigger] s[i].instant,
    decreases n,
{
    if n > 1 {
        lemma_min_prefix_bounds(s, n - 1);
    }
    assert(s[0].instant == min_instant_prefix(s, 1));
}

/// The minimum is attained, and no entry is below it.
pub proof fn lemma_min_instant<T>(s: Seq<Timer<T>>)
    requires
        s.len() > 0,
    ensures
        exists|i: int| 0 <= i < s.len() && s[i].instant == min_instant(s),
        forall|i: int| 0 <= i < s.len() ==> min_instant(s) <= #[trigger] s[i].instant,
        0 <= first_min_index(s) < s.len(),
        s[first_min_index(s)].instant == min_instant(s),
{
    lemma_min_prefix_bounds(s, s.len() as int);
    let i0 = choose|i: int| 0 <= i < s.len() && s[i].instant == min_instant(s);
    // Some index attains the minimum, hence so does a least such index.
    assert(exists|i: int|
        0 <= i < s.len() && s[i].instant == min_instant(s)
            && (forall|j: int| 0 <= j < i ==> s[j].instant != min_instant(s))) by {
        let k = least_min_witness(s, i0);
        assert(0 <= k < s.len() && s[k].instant == min_instant(s)
            && (forall|j: int| 0 <= j < k ==> s[j].instant != min_instant(s)));
    }
}

/// Of all indices `<= i0` attaining the minimum, returns the least one.
proof fn least_min_witness<T>(s: Seq<Timer<T>>, i0: int) -> (k: int)
    requires
        0 <= i0 < s.len(),
        s[i0].instant == min_instant(s),
    ensures
        0 <= k <= i0,
        s[k].instant == min_instant(s),
        forall|j: int| 0 <= j < k ==> s[j].instant != min_instant(s),
    decreases i0,
{
    if exists|j: int| 0 <= j < i0 && s[j].instant == min_instant(s) {
        let j0 = choose|j: int| 0 <= j < i0 && s[j].instant == min_instant(s);
        least_min_witness(s, j0)
    } else {
        i0
    }
}

impl<T> Timers<T> {
    /// The sequence of pending entries, in insertion order.
    pub closed spec fn view(&self) -> Seq<Timer<T>> {
        self.timers@
    }

    /// An empty timer set.
    pub fn new() -> (r: Self)
        ensures
            r@ =~= Seq::<Timer<T>>::empty(),
    {
        Timers { timers: Vec::new() }
    }

    /// Adds a timer that fires `duration` ticks after `now`.
    pub fn add_timer(&mut self, now: u64, duration: u64, payload: T)
        requires
            now + duration <= u64::MAX,
        ensures
            final(self)@ =~= old(self)@.push(Timer { instant: (now + duration) as u64, payload }),
    {
        self.timers.push(Timer { instant: now + duration, payload });
    }

    /// How long from `now` until the earliest entry fires: `None` when the
    /// set is empty, `0` when the earliest instant has already passed.
    pub fn get_timeout(&self, now: u64) -> (r: Option<u64>)
        ensures
            match r {
                None => self@.len() == 0,
                Some(d) => {
                    &&& self@.len() > 0
                    &&& d == if min_instant(self@) > now {
                        (min_instant(self@) - now) as u64
                    } else {
                        0u64
                    }
                },
            },
    {
        match self.earliest() {
            None => None,
            Some(t) => {
                if t.instant > now {
                    Some(t.instant - now)
                } else {
                    Some(0)
                }
            },
        }
    }

    /// Removes the entry with the least instant (the first such entry, if
    /// several tie) and hands back its payload.
    pub fn remove_earliest(&mut self) -> (r: T)
        requires
            old(self)@.len() > 0,
        ensures
            r == old(self)@[first_min_index(old(self)@)].payload,
            final(self)@ =~= old(self)@.remove(first_min_index(old(self)@)),
    {
        proof {
            lemma_min_instant(self@);
        }
        let n = self.timers.len();
        let mut best: usize = 0;
        let mut i: usize = 1;
        while i < n
            invariant
                n == self@.len(),
                0 <= best < i <= n,
                self@[best as int].instant == min_instant_prefix(self@, i as int),
                forall|j: int| 0 <= j < best ==> self@[j].instant != min_instant_prefix(self@, i as int),
            decreases n - i,
        {
            if self.timers[i].instant < self.timers[best].instant {
                proof {
                    lemma_min_prefix_bounds(self@, i as int);
                }
                best = i;
            }
            i += 1;
        }
        proof {
            lemma_min_prefix_bounds(self@, n as int);
            assert(best as int == first_min_index(self@)) by {
                lemma_min_instant(self@);
            }
        }
        let t = self.timers.remove(best);
        t.payload
    }

    /// A reference to the earliest entry (the first, if several tie), or
    /// `None` when the set is empty.
    pub fn earliest(&self) -> (r: Option<&Timer<T>>)
        ensures
            match r {
                None => self@.len() == 0,
                Some(t) => {
                    &&& self@.len() > 0
                    &&& *t == self@[first_min_index(self@)]
                    &&& t.instant == min_instant(self@)
                },
            },
    {
        let n = self.timers.len();
        if n == 0 {
            return None;
        }
        proof {
            lemma_min_instant(self@);
        }
        let mut best: usize = 0;
        let mut i: usize = 1;
        while i < n
            invariant
                n == self@.len(),
                0 <= best < i <= n,
                self@[best as int].instant == min_instant_prefix(self@, i as int),
                forall|j: int| 0 <= j < best ==> self@[j].instant != min_instant_prefix(self@, i as int),
            decreases n - i,
        {
            if self.timers[i].instant < self.timers[best].instant {
                proof {
                    lemma_min_prefix_bounds(self@, i as int);
                }
                best = i;
            }
            i += 1;
        }
        proof {
            lemma_min_prefix_bounds(self@, n as int);
            assert(best as int == first_min_index(self@)) by {
                lemma_min_instant(self@);
            }
        }
        Some(&self.timers[best])
    }
}

} // verus!
