//! The sliding-window series: an ordered run of `(x, y)` samples whose
//! length is bounded by a capacity, together with an x-axis window of
//! width `capacity` that moves forward one step each time the oldest
//! sample is evicted.
use vstd::prelude::*;

use crate::probe::ProbeFailed;

verus! {

/// The abstract state of a series. `x` values and window bounds are
/// mathematical integers.
pub ghost struct SeriesModel<T> {
    pub points: Seq<(int, T)>,
    pub low: int,
    pub high: int,
    pub next_x: int,
    pub capacity: int,
}

impl<T> SeriesModel<T> {
    /// The state of a new series: no points, window `[0, capacity]`.
    pub open spec fn initial(capacity: int) -> SeriesModel<T> {
        SeriesModel { points: Seq::empty(), low: 0, high: capacity, next_x: 0, capacity }
    }

    /// The state after appending the sample `y`: `(next_x, y)` goes to the
    /// end; if that makes the run longer than the capacity, the first point
    /// leaves and both window bounds move up by one.
    pub open spec fn appended(self, y: T) -> SeriesModel<T> {
        let pushed = self.points.push((self.next_x, y));
        if pushed.len() > self.capacity {
            SeriesModel {
                points: pushed.drop_first(),
                low: self.low + 1,
                high: self.high + 1,
                next_x: self.next_x + 1,
                capacity: self.capacity,
            }
        } else {
            SeriesModel { points: pushed, next_x: self.next_x + 1, ..self }
        }
    }

    /// The state after appending each of `ys` in turn to a new series.
    pub open spec fn after_appends(capacity: int, ys: Seq<T>) -> SeriesModel<T>
        decreases ys.len(),
    {
        if ys.len() == 0 {
            SeriesModel::initial(capacity)
        } else {
            SeriesModel::after_appends(capacity, ys.drop_last()).appended(ys.last())
        }
    }

    /// What holds in every reachable state: the run is no longer than the
    /// capacity, the window is `capacity` wide and ends at `next_x` once the
    /// series has filled, and the points carry the consecutive `x` values
    /// that end just below `next_x`.
    pub open spec fn inv(self) -> bool {
        &&& self.capacity >= 0
        &&& self.next_x >= 0
        &&& self.points.len() <= self.capacity
        &&& self.high - self.low == self.capacity
        &&& self.high == if self.next_x > self.capacity { self.next_x } else { self.capacity }
        &&& self.points.len() == if self.next_x > self.capacity {
            self.capacity
        } else {
            self.next_x
        }
        &&& forall|i: int|
            0 <= i < self.points.len() ==> #[trigger] self.points[i].0 == self.next_x
                - self.points.len() + i
    }
}

/// Appending keeps the invariant.
pub proof fn lemma_appended_inv<T>(m: SeriesModel<T>, y: T)
    requires
        m.inv(),
    ensures
        m.appended(y).inv(),
        m.appended(y).next_x == m.next_x + 1,
        m.appended(y).capacity == m.capacity,
{
    let n = m.appended(y);
    let pushed = m.points.push((m.next_x, y));
    assert forall|i: int| 0 <= i < n.points.len() implies #[trigger] n.points[i].0 == n.next_x
        - n.points.len() + i by {
        if pushed.len() > m.capacity {
            assert(n.points[i] == pushed[i + 1]);
        } else {
            assert(n.points[i] == pushed[i]);
        }
    }
}

/// Every state reached by appends from a new series satisfies the
/// invariant, and `next_x` counts the appends made, evicting or not.
pub proof fn lemma_after_appends<T>(capacity: int, ys: Seq<T>)
    requires
        capacity >= 0,
    ensures
        SeriesModel::after_appends(capacity, ys).inv(),
        SeriesModel::after_appends(capacity, ys).next_x == ys.len(),
        SeriesModel::after_appends(capacity, ys).capacity == capacity,
    decreases ys.len(),
{
    if ys.len() > 0 {
        lemma_after_appends(capacity, ys.drop_last());
        lemma_appended_inv(SeriesModel::after_appends(capacity, ys.drop_last()), ys.last());
    }
}

/// For every sequence of appends, the series holds at most `capacity`
/// points after each of them.
pub proof fn lemma_len_bounded<T>(capacity: int, ys: Seq<T>)
    requires
        capacity >= 0,
    ensures
        SeriesModel::after_appends(capacity, ys).points.len() <= capacity,
{
    lemma_after_appends(capacity, ys);
}

/// After `k` appends `next_x` is `k`, however many points were evicted.
pub proof fn lemma_next_x_counts_appends<T>(capacity: int, ys: Seq<T>)
    requires
        capacity >= 0,
    ensures
        SeriesModel::after_appends(capacity, ys).next_x == ys.len(),
{
    lemma_after_appends(capacity, ys);
}

/// In every reachable state the window is exactly `capacity` wide.
pub proof fn lemma_window_width<T>(capacity: int, ys: Seq<T>)
    requires
        capacity >= 0,
    ensures
        SeriesModel::after_appends(capacity, ys).high - SeriesModel::after_appends(
            capacity,
            ys,
        ).low == capacity,
{
    lemma_after_appends(capacity, ys);
}

/// An append to a full series moves both window bounds up by exactly one
/// and drops the point that was first.
pub proof fn lemma_full_append_evicts<T>(m: SeriesModel<T>, y: T)
    requires
        m.inv(),
        m.points.len() == m.capacity,
    ensures
        m.appended(y).low == m.low + 1,
        m.appended(y).high == m.high + 1,
        m.appended(y).points == m.points.push((m.next_x, y)).drop_first(),
        m.points.len() > 0 ==> !m.appended(y).points.contains(m.points[0]),
{
    let n = m.appended(y);
    lemma_appended_inv(m, y);
    if m.points.len() > 0 {
        if n.points.contains(m.points[0]) {
            let j = choose|j: int| 0 <= j < n.points.len() && n.points[j] == m.points[0];
            assert(n.points[j].0 == n.next_x - n.points.len() + j);
            assert(m.points[0].0 == m.next_x - m.points.len());
        }
    }
}

/// A bounded series of `(x, y)` samples with a scrolling x-axis window.
///
/// `x` is the index of the sample since the series was made; `y` is the
/// measured value, which the series only stores.
pub struct SlidingWindowSeries<T> {
    points: Vec<(u64, T)>,
    window: (u64, u64),
    next_x: u64,
    capacity: u64,
}

/// The capacity of the series that the chart draws.
pub const CAPACITY: u64 = 100;

impl<T> View for SlidingWindowSeries<T> {
    type V = SeriesModel<T>;

    closed spec fn view(&self) -> SeriesModel<T> {
        SeriesModel {
            points: self.points@.map_values(|p: (u64, T)| (p.0 as int, p.1)),
            low: self.window.0 as int,
            high: self.window.1 as int,
            next_x: self.next_x as int,
            capacity: self.capacity as int,
        }
    }
}

impl<T> SlidingWindowSeries<T> {
    /// Well-formedness: the abstract state satisfies the series invariant.
    pub open spec fn wf(&self) -> bool {
        self@.inv()
    }

    /// An empty series holding at most `capacity` points, with window
    /// `[0, capacity]` and the next `x` at 0.
    pub fn new(capacity: u64) -> (r: SlidingWindowSeries<T>)
        ensures
            r.wf(),
            r@ == SeriesModel::<T>::initial(capacity as int),
    {
        let r = SlidingWindowSeries { points: Vec::new(), window: (0, capacity), next_x: 0, capacity };
        assert(r@.points =~= Seq::<(int, T)>::empty());
        r
    }

    /// Appends the sample `(next_x, time)` and advances `next_x`; once the
    /// series is over capacity, the oldest point leaves and the window moves
    /// up by one.
    pub fn append_time(&mut self, time: T)
        requires
            old(self).wf(),
            old(self)@.next_x < u64::MAX,
        ensures
            final(self).wf(),
            final(self)@ == old(self)@.appended(time),
    {
        proof {
            lemma_appended_inv(self@, time);
        }
        let ghost before = self@;
        let x = self.next_x;
        self.points.push((x, time));
        self.next_x = x + 1;
        if self.points.len() as u64 > self.capacity {
            self.points.remove(0);
            self.window = (self.window.0 + 1, self.window.1 + 1);
        }
        assert(self@.points =~= before.appended(time).points);
    }

    /// Takes the outcome of one probe: a sample is appended, a failure
    /// leaves the series as it was.
    pub fn record_probe(&mut self, outcome: Result<T, ProbeFailed>)
        requires
            old(self).wf(),
            old(self)@.next_x < u64::MAX,
        ensures
            final(self).wf(),
            match outcome {
                Ok(y) => final(self)@ == old(self)@.appended(y),
                Err(_) => final(self)@ == old(self)@,
            },
    {
        match outcome {
            Ok(y) => self.append_time(y),
            Err(_) => {},
        }
    }

    /// The points, oldest first.
    pub fn points(&self) -> (r: &[(u64, T)])
        ensures
            r@.map_values(|p: (u64, T)| (p.0 as int, p.1)) == self@.points,
    {
        self.points.as_slice()
    }

    /// The window bounds `(low, high)`.
    pub fn window(&self) -> (r: (u64, u64))
        ensures
            r.0 as int == self@.low,
            r.1 as int == self@.high,
    {
        self.window
    }

    /// The `x` that the next appended sample will get.
    pub fn next_x(&self) -> (r: u64)
        ensures
            r as int == self@.next_x,
    {
        self.next_x
    }

    /// The most points the series holds.
    pub fn capacity(&self) -> (r: u64)
        ensures
            r as int == self@.capacity,
    {
        self.capacity
    }
}

impl<T: Copy> SlidingWindowSeries<T> {
    /// A copy of the points and the window, for drawing one frame.
    pub fn snapshot(&self) -> (r: (Vec<(u64, T)>, (u64, u64)))
        ensures
            r.0@.map_values(|p: (u64, T)| (p.0 as int, p.1)) == self@.points,
            r.1.0 as int == self@.low,
            r.1.1 as int == self@.high,
    {
        let mut points: Vec<(u64, T)> = Vec::new();
        let mut i: usize = 0;
        while i < self.points.len()
            invariant
                i <= self.points@.len(),
                points@ == self.points@.subrange(0, i as int),
            decreases self.points.len() - i,
        {
            points.push(self.points[i]);
            i += 1;
            assert(points@ =~= self.points@.subrange(0, i as int));
        }
        assert(points@ =~= self.points@);
        (points, self.window)
    }
}

} // verus!
