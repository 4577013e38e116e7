use vstd::prelude::*;

verus! {

/// A duration in milliseconds.
pub type Duration = u64;

/// A titled item with a duration.
#[derive(Debug, Clone)]
pub struct Track {
    pub title: String,
    pub duration: Duration,
}

/// Titles of a sequence of tracks, in order.
pub open spec fn titles_of(ts: Seq<Track>) -> Seq<Seq<char>> {
    ts.map_values(|t: Track| t.title@)
}

/// Sum of the durations of a sequence of tracks.
pub open spec fn total_duration(ts: Seq<Track>) -> int
    decreases ts.len(),
{
    if ts.len() == 0 {
        0
    } else {
        total_duration(ts.drop_last()) + ts.last().duration
    }
}

impl Track {
    pub fn new(title: &str, duration: Duration) -> (r: Track)
        ensures
            r.title@ == title@,
            r.duration == duration,
    {
        Track { title: title.to_owned(), duration }
    }
}

/// An ordered sequence of tracks; the order is the playback order.
#[derive(Debug, Clone)]
pub struct Tracklist(pub Vec<Track>);

impl Tracklist {
    pub fn new(tracks: Vec<Track>) -> (r: Tracklist)
        ensures
            r.0@ == tracks@,
    {
        Tracklist(tracks)
    }

    /// Builds a tracklist from (title, duration) pairs, keeping their order.
    pub fn from_pairs(pairs: Vec<(&str, Duration)>) -> (r: Tracklist)
        ensures
            r.0@.len() == pairs@.len(),
            forall|k: int| 0 <= k < pairs@.len() ==> track_from_pair(#[trigger] r.0@[k], pairs@[k]),
    {
        let mut tracks: Vec<Track> = Vec::new();
        let mut i: usize = 0;
        while i < pairs.len()
            invariant
                i <= pairs@.len(),
                tracks@.len() == i,
                forall|k: int| 0 <= k < i ==> track_from_pair(#[trigger] tracks@[k], pairs@[k]),
            decreases pairs@.len() - i,
        {
            let (title, duration) = pairs[i];
            tracks.push(Track::new(title, duration));
            i = i + 1;
        }
        Tracklist(tracks)
    }

    /// The titles of the tracks, in order.
    pub fn titles(&self) -> (r: Vec<&str>)
        ensures
            r@.len() == self.0@.len(),
            forall|i: int| 0 <= i < r@.len() ==> r@[i]@ == #[trigger] self.0@[i].title@,
    {
        let mut r: Vec<&str> = Vec::new();
        let mut i: usize = 0;
        while i < self.0.len()
            invariant
                i <= self.0@.len(),
                r@.len() == i,
                forall|k: int| 0 <= k < i ==> r@[k]@ == #[trigger] self.0@[k].title@,
            decreases self.0@.len() - i,
        {
            r.push(self.0[i].title.as_str());
            i = i + 1;
        }
        r
    }

    /// The total duration of the tracks.
    pub fn duration(&self) -> (r: Duration)
        requires
            total_duration(self.0@) <= u64::MAX,
        ensures
            r == total_duration(self.0@),
    {
        let mut sum: u64 = 0;
        let mut i: usize = 0;
        while i < self.0.len()
            invariant
                i <= self.0@.len(),
                total_duration(self.0@) <= u64::MAX,
                sum == total_duration(self.0@.take(i as int)),
            decreases self.0@.len() - i,
        {
            proof {
                lemma_total_duration_prefix_le(self.0@, i as int + 1);
                assert(self.0@.take(i as int + 1).drop_last() == self.0@.take(i as int));
            }
            sum = sum + self.0[i].duration;
            i = i + 1;
        }
        proof {
            assert(self.0@.take(i as int) == self.0@);
        }
        sum
    }
}

/// Two tracklists are equal when their titles agree position by position;
/// durations play no part.
impl PartialEq for Tracklist {
    fn eq(&self, other: &Tracklist) -> (r: bool) {
        if self.0.len() != other.0.len() {
            return false;
        }
        let mut i: usize = 0;
        while i < self.0.len()
            invariant
                i <= self.0@.len(),
                self.0@.len() == other.0@.len(),
                forall|k: int| 0 <= k < i ==> #[trigger] self.0@[k].title@ == other.0@[k].title@,
            decreases self.0@.len() - i,
        {
            if self.0[i].title != other.0[i].title {
                assert(titles_of(self.0@)[i as int] != titles_of(other.0@)[i as int]);
                return false;
            }
            i = i + 1;
        }
        assert(titles_of(self.0@) =~= titles_of(other.0@));
        true
    }
}

impl vstd::std_specs::cmp::PartialEqSpecImpl for Tracklist {
    open spec fn obeys_eq_spec() -> bool {
        true
    }

    open spec fn eq_spec(&self, other: &Tracklist) -> bool {
        titles_of(self.0@) == titles_of(other.0@)
    }
}

impl Eq for Tracklist {}

/// Builds a tracklist from (title, duration) pairs; see `Tracklist::from_pairs`.
impl<'a> From<Vec<(&'a str, Duration)>> for Tracklist {
    fn from(pairs: Vec<(&'a str, Duration)>) -> (r: Tracklist)
        ensures
            r.0@.len() == pairs@.len(),
            forall|k: int| 0 <= k < pairs@.len() ==> track_from_pair(#[trigger] r.0@[k], pairs@[k]),
    {
        Tracklist::from_pairs(pairs)
    }
}

/// `t` holds the title and the duration of `pair`.
pub open spec fn track_from_pair(t: Track, pair: (&str, Duration)) -> bool {
    t.title@ == pair.0@ && t.duration == pair.1
}

/// The conversion is described by the `ensures` of `from` above, not by a
/// spec-level `from`.
impl<'a> vstd::std_specs::convert::FromSpecImpl<Vec<(&'a str, Duration)>> for Tracklist {
    open spec fn obeys_from_spec() -> bool {
        false
    }

    open spec fn from_spec(pairs: Vec<(&'a str, Duration)>) -> Tracklist {
        arbitrary()
    }
}

/// The durations of a prefix sum to no more than the durations of the whole.
pub proof fn lemma_total_duration_prefix_le(ts: Seq<Track>, n: int)
    requires
        0 <= n <= ts.len(),
    ensures
        0 <= total_duration(ts.take(n)) <= total_duration(ts),
    decreases ts.len(),
{
    if ts.len() > 0 {
        if n == ts.len() {
            assert(ts.take(n) == ts);
            lemma_total_duration_prefix_le(ts.drop_last(), n - 1);
        } else {
            assert(ts.drop_last().take(n) == ts.take(n));
            lemma_total_duration_prefix_le(ts.drop_last(), n);
        }
    }
}

} // verus!
