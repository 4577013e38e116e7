use vstd::prelude::*;
use crate::track::{Duration, Track, Tracklist, total_duration};

verus! {

/// A physical medium: a number of sides, each holding at most
/// `max_duration_per_side` of playing time.
pub struct Medium {
    pub sides: usize,
    pub max_duration_per_side: Duration,
}

/// Greedy first-fit packing of `ts`, in order, onto sides of capacity `cap`:
/// the 0-based index of the side that receives the last track, and that
/// side's load. A track that does not fit beside the current load opens the
/// next side.
pub open spec fn greedy_state(ts: Seq<Track>, cap: int) -> (int, int)
    decreases ts.len(),
{
    if ts.len() == 0 {
        (0, 0)
    } else {
        let prev = greedy_state(ts.drop_last(), cap);
        let d = ts.last().duration as int;
        if prev.1 + d <= cap {
            (prev.0, prev.1 + d)
        } else {
            (prev.0 + 1, d)
        }
    }
}

/// The side on which the track at position `i` lands under greedy packing.
pub open spec fn side_of(ts: Seq<Track>, cap: int, i: int) -> int {
    greedy_state(ts.take(i + 1), cap).0
}

/// Every track is no longer than one side.
pub open spec fn all_within(ts: Seq<Track>, cap: int) -> bool {
    forall|i: int| 0 <= i < ts.len() ==> #[trigger] ts[i].duration <= cap
}

/// Whether `ts` fits on `sides` sides of capacity `cap` under greedy packing:
/// the total is within the medium's capacity, no track is longer than a side,
/// and no side past the last one is opened.
pub open spec fn fits_spec(ts: Seq<Track>, sides: int, cap: int) -> bool {
    &&& total_duration(ts) <= sides * cap
    &&& all_within(ts, cap)
    &&& (greedy_state(ts, cap).0 == 0 || greedy_state(ts, cap).0 < sides)
}

/// `i` is the first position of a track titled `title`.
pub open spec fn is_first_with_title(ts: Seq<Track>, title: Seq<char>, i: int) -> bool {
    &&& 0 <= i < ts.len()
    &&& ts[i].title@ == title
    &&& forall|j: int| 0 <= j < i ==> #[trigger] ts[j].title@ != title
}

/// Both titles occur in `ts`, and their first occurrences land on the same
/// side under greedy packing.
pub open spec fn same_side_spec(ts: Seq<Track>, cap: int, a: Seq<char>, b: Seq<char>) -> bool {
    exists|i: int, j: int|
        #[trigger] is_first_with_title(ts, a, i) && #[trigger] is_first_with_title(ts, b, j)
            && side_of(ts, cap, i) == side_of(ts, cap, j)
}

impl Medium {
    /// The side index of every position of `tracklist` under greedy packing.
    pub fn side_assignment(&self, tracklist: &Tracklist) -> (r: Vec<usize>)
        ensures
            r@.len() == tracklist.0@.len(),
            forall|i: int|
                0 <= i < r@.len() ==> r@[i] == side_of(
                    tracklist.0@,
                    self.max_duration_per_side as int,
                    i,
                ),
    {
        let ghost ts = tracklist.0@;
        let ghost cap = self.max_duration_per_side as int;
        let mut r: Vec<usize> = Vec::with_capacity(tracklist.0.len());
        let mut side: usize = 0;
        let mut load: u64 = 0;
        let mut i: usize = 0;
        while i < tracklist.0.len()
            invariant
                ts == tracklist.0@,
                cap == self.max_duration_per_side as int,
                i <= ts.len(),
                r@.len() == i,
                side <= i,
                greedy_state(ts.take(i as int), cap) == (side as int, load as int),
                forall|k: int| 0 <= k < i ==> r@[k] == side_of(ts, cap, k),
            decreases ts.len() - i,
        {
            let d = tracklist.0[i].duration;
            proof {
                assert(ts.take(i as int + 1).drop_last() == ts.take(i as int));
            }
            if (load as u128) + (d as u128) <= (self.max_duration_per_side as u128) {
                load = load + d;
            } else {
                side = side + 1;
                load = d;
            }
            r.push(side);
            i = i + 1;
        }
        r
    }

    /// Whether `tracklist` can be laid out on this medium, in order, without
    /// splitting a track, under greedy first-fit packing. This tests only the
    /// split that fills each side as far as it goes before opening the next;
    /// it searches no other placement of the tracks.
    pub fn fits(&self, tracklist: &Tracklist) -> (r: bool)
        ensures
            r == fits_spec(
                tracklist.0@,
                self.sides as int,
                self.max_duration_per_side as int,
            ),
    {
        let ghost ts = tracklist.0@;
        let ghost cap = self.max_duration_per_side as int;
        let n = tracklist.0.len();
        // The total can exceed u64, never u128.
        let mut total: u128 = 0;
        let mut i: usize = 0;
        while i < n
            invariant
                ts == tracklist.0@,
                n == ts.len(),
                i <= n,
                total == total_duration(ts.take(i as int)),
                total <= i * (u64::MAX as int),
            decreases n - i,
        {
            proof {
                assert(ts.take(i as int + 1).drop_last() == ts.take(i as int));
                assert((i + 1) * (u64::MAX as int) == i * (u64::MAX as int) + u64::MAX)
                    by (nonlinear_arith);
            }
            total = total + tracklist.0[i].duration as u128;
            i = i + 1;
        }
        proof {
            assert(ts.take(n as int) == ts);
        }
        proof {
            let a = self.sides as int;
            let b = self.max_duration_per_side as int;
            assert(a <= u64::MAX);
            assert(0 <= a * b <= (u64::MAX as int) * (u64::MAX as int)) by (nonlinear_arith)
                requires
                    0 <= a <= u64::MAX,
                    0 <= b <= u64::MAX,
            ;
        }
        let capacity: u128 = (self.sides as u128) * (self.max_duration_per_side as u128);
        if total > capacity {
            return false;
        }
        let mut i: usize = 0;
        while i < n
            invariant
                ts == tracklist.0@,
                cap == self.max_duration_per_side as int,
                n == ts.len(),
                i <= n,
                forall|k: int| 0 <= k < i ==> #[trigger] ts[k].duration <= cap,
            decreases n - i,
        {
            if tracklist.0[i].duration > self.max_duration_per_side {
                return false;
            }
            i = i + 1;
        }
        if n == 0 {
            return true;
        }
        let sides = self.side_assignment(tracklist);
        let last = sides[n - 1];
        proof {
            assert(ts.take(n as int) == ts);
        }
        last == 0 || last < self.sides
    }

    /// Whether the first tracks titled `t1` and `t2` land on the same side
    /// under greedy packing. A title that does not occur gives `false`.
    pub fn on_same_side(&self, tracklist: &Tracklist, t1: &str, t2: &str) -> (r: bool)
        ensures
            r == same_side_spec(tracklist.0@, self.max_duration_per_side as int, t1@, t2@),
    {
        let sides = self.side_assignment(tracklist);
        let pos1 = first_position(tracklist, t1);
        let pos2 = first_position(tracklist, t2);
        match (pos1, pos2) {
            (Some(i1), Some(i2)) => {
                let r = sides[i1] == sides[i2];
                proof {
                    let ts = tracklist.0@;
                    let cap = self.max_duration_per_side as int;
                    if r {
                        assert(is_first_with_title(ts, t1@, i1 as int));
                        assert(is_first_with_title(ts, t2@, i2 as int));
                    } else {
                        assert forall|i: int, j: int|
                            #[trigger] is_first_with_title(ts, t1@, i)
                                && #[trigger] is_first_with_title(ts, t2@, j) implies side_of(
                            ts,
                            cap,
                            i,
                        ) != side_of(ts, cap, j) by {
                            lemma_first_unique(ts, t1@, i, i1 as int);
                            lemma_first_unique(ts, t2@, j, i2 as int);
                        }
                    }
                }
                r
            },
            _ => false,
        }
    }
}

/// The position of the first track titled `title`, if any.
pub fn first_position(tracklist: &Tracklist, title: &str) -> (r: Option<usize>)
    ensures
        r matches Some(i) ==> is_first_with_title(tracklist.0@, title@, i as int),
        r is None ==> forall|i: int| !#[trigger] is_first_with_title(tracklist.0@, title@, i),
{
    let key: String = title.to_owned();
    let mut i: usize = 0;
    while i < tracklist.0.len()
        invariant
            key@ == title@,
            i <= tracklist.0@.len(),
            forall|j: int| 0 <= j < i ==> #[trigger] tracklist.0@[j].title@ != title@,
        decreases tracklist.0@.len() - i,
    {
        if tracklist.0[i].title == key {
            return Some(i);
        }
        i = i + 1;
    }
    None
}

/// A title has at most one first position.
pub proof fn lemma_first_unique(ts: Seq<Track>, title: Seq<char>, i: int, j: int)
    requires
        is_first_with_title(ts, title, i),
        is_first_with_title(ts, title, j),
    ensures
        i == j,
{
    if i < j {
        assert(ts[i].title@ != title);
    } else if j < i {
        assert(ts[j].title@ != title);
    }
}

/// A larger side capacity never opens a later side: greedy packing with
/// `cap2 >= cap1` ends on an earlier side, or on the same side with no more load.
pub proof fn lemma_greedy_state_capacity(ts: Seq<Track>, cap1: int, cap2: int)
    requires
        cap1 <= cap2,
    ensures
        0 <= greedy_state(ts, cap2).0,
        0 <= greedy_state(ts, cap1).1,
        0 <= greedy_state(ts, cap2).1,
        greedy_state(ts, cap2).0 < greedy_state(ts, cap1).0 || (greedy_state(ts, cap2).0
            == greedy_state(ts, cap1).0 && greedy_state(ts, cap2).1 <= greedy_state(ts, cap1).1),
    decreases ts.len(),
{
    if ts.len() > 0 {
        lemma_greedy_state_capacity(ts.drop_last(), cap1, cap2);
    }
}

/// Fitting is monotonic in the medium: a tracklist that fits a medium also
/// fits any medium with at least as many sides and at least as much time per
/// side.
pub proof fn lemma_fits_monotonic(tracklist: Tracklist, small: Medium, large: Medium)
    requires
        small.sides <= large.sides,
        small.max_duration_per_side <= large.max_duration_per_side,
        fits_spec(tracklist.0@, small.sides as int, small.max_duration_per_side as int),
    ensures
        fits_spec(tracklist.0@, large.sides as int, large.max_duration_per_side as int),
{
    let ts = tracklist.0@;
    let (s1, c1) = (small.sides as int, small.max_duration_per_side as int);
    let (s2, c2) = (large.sides as int, large.max_duration_per_side as int);
    assert(s1 * c1 <= s2 * c2) by (nonlinear_arith)
        requires
            0 <= s1 <= s2,
            0 <= c1 <= c2,
    ;
    lemma_greedy_state_capacity(ts, c1, c2);
}

/// A track longer than one side keeps the whole tracklist from fitting,
/// whatever the other tracks are.
pub proof fn lemma_long_track_never_fits(tracklist: Tracklist, medium: Medium, i: int)
    requires
        0 <= i < tracklist.0@.len(),
        tracklist.0@[i].duration > medium.max_duration_per_side,
    ensures
        !fits_spec(tracklist.0@, medium.sides as int, medium.max_duration_per_side as int),
{
}

/// Being on the same side is symmetric in the two titles.
pub proof fn lemma_on_same_side_symmetric(
    tracklist: Tracklist,
    medium: Medium,
    a: Seq<char>,
    b: Seq<char>,
)
    ensures
        same_side_spec(tracklist.0@, medium.max_duration_per_side as int, a, b)
            == same_side_spec(tracklist.0@, medium.max_duration_per_side as int, b, a),
{
    let ts = tracklist.0@;
    let cap = medium.max_duration_per_side as int;
    if same_side_spec(ts, cap, a, b) {
        let (i, j) = choose|i: int, j: int|
            #[trigger] is_first_with_title(ts, a, i) && #[trigger] is_first_with_title(ts, b, j)
                && side_of(ts, cap, i) == side_of(ts, cap, j);
        assert(is_first_with_title(ts, b, j) && is_first_with_title(ts, a, i));
    }
    if same_side_spec(ts, cap, b, a) {
        let (i, j) = choose|i: int, j: int|
            #[trigger] is_first_with_title(ts, b, i) && #[trigger] is_first_with_title(ts, a, j)
                && side_of(ts, cap, i) == side_of(ts, cap, j);
        assert(is_first_with_title(ts, a, j) && is_first_with_title(ts, b, i));
    }
}

} // verus!
