use vstd::prelude::*;
use itertools::{Itertools, Permutations};
use std::ops::Range;
use crate::track::{Track, titles_of};

verus! {

#[verifier::external_type_specification]
#[verifier::external_body]
#[verifier::reject_recursive_types(I)]
pub struct ExPermutations<I: Iterator>(Permutations<I>);

/// The orderings of positions that a permutations adaptor over `0..n` has
/// yet to yield, in the order it will yield them.
pub uninterp spec fn pending_orderings(p: Permutations<Range<usize>>) -> Seq<Seq<usize>>;

pub open spec fn factorial(n: nat) -> nat
    decreases n,
{
    if n == 0 {
        1
    } else {
        n * factorial((n - 1) as nat)
    }
}

/// `o` lists each of the positions `0..n` exactly once.
pub open spec fn is_ordering(o: Seq<usize>, n: nat) -> bool {
    &&& o.len() == n
    &&& forall|i: int| 0 <= i < o.len() ==> #[trigger] o[i] < n
    &&& o.no_duplicates()
}

/// `os` holds every ordering of `0..n` exactly once, and nothing else.
pub open spec fn enumerates_orderings(os: Seq<Seq<usize>>, n: nat) -> bool {
    &&& os.len() == factorial(n)
    &&& os.no_duplicates()
    &&& forall|k: int| 0 <= k < os.len() ==> is_ordering(#[trigger] os[k], n)
    &&& forall|o: Seq<usize>| is_ordering(o, n) ==> #[trigger] os.contains(o)
}

/// `a` comes before `b` in lexicographic order: they agree up to some
/// position, where `a` holds the smaller value.
pub open spec fn lex_less(a: Seq<usize>, b: Seq<usize>) -> bool {
    exists|m: int|
        #![trigger a[m], b[m]]
        0 <= m < a.len() && m < b.len() && a[m] < b[m] && forall|k: int|
            0 <= k < m ==> a[k] == b[k]
}

/// Every item of `os` comes lexicographically before every later item.
pub open spec fn lex_increasing(os: Seq<Seq<usize>>) -> bool {
    forall|i: int, j: int| 0 <= i < j < os.len() ==> #[trigger] lex_less(os[i], os[j])
}

/// The tracks of `ts` taken in the order of positions `o`.
pub open spec fn arranged(ts: Seq<Track>, o: Seq<usize>) -> Seq<Track> {
    o.map_values(|i: usize| ts[i as int])
}

/// Relies on `Itertools::permutations` on `0..n` with `k == n`: the adaptor
/// yields every ordering of `0..n` once, `n!` of them in all (a single empty
/// ordering when `n` is 0), in lexicographic order of the positions.
#[verifier::external_body]
fn index_orderings(n: usize) -> (r: Permutations<Range<usize>>)
    ensures
        enumerates_orderings(pending_orderings(r), n as nat),
        lex_increasing(pending_orderings(r)),
{
    (0..n).permutations(n)
}

/// Relies on `Iterator::next` of itertools' `Permutations`: it hands out the
/// next pending ordering, and keeps returning `None` once none is left.
#[verifier::external_body]
fn next_ordering(p: &mut Permutations<Range<usize>>) -> (r: Option<Vec<usize>>)
    ensures
        pending_orderings(*old(p)).len() == 0 ==> r is None && pending_orderings(*final(p))
            == pending_orderings(*old(p)),
        pending_orderings(*old(p)).len() > 0 ==> (r matches Some(v) && v@ == pending_orderings(
            *old(p),
        )[0]),
        pending_orderings(*old(p)).len() > 0 ==> pending_orderings(*final(p)) == pending_orderings(
            *old(p),
        ).drop_first(),
{
    p.next()
}

/// Lazily yields every ordering of a slice of tracks, one at a time, as
/// references into the slice.
pub struct TracklistPermutations<'a> {
    tracks: &'a [Track],
    inner: Permutations<Range<usize>>,
}

impl<'a> TracklistPermutations<'a> {
    /// The tracks being arranged.
    pub closed spec fn tracks(&self) -> Seq<Track> {
        self.tracks@
    }

    /// The orderings of positions still to be yielded, in order.
    pub closed spec fn pending(&self) -> Seq<Seq<usize>> {
        pending_orderings(self.inner)
    }

    /// The arrangements still to be yielded, in order.
    pub open spec fn remaining(&self) -> Seq<Seq<Track>> {
        self.pending().map_values(|o: Seq<usize>| arranged(self.tracks(), o))
    }

    pub open spec fn wf(&self) -> bool {
        forall|k: int|
            0 <= k < self.pending().len() ==> is_ordering(
                #[trigger] self.pending()[k],
                self.tracks().len(),
            )
    }

    /// A fresh generator over `tracks`: it will yield all `n!` orderings, in
    /// lexicographic order of the positions.
    pub fn new(tracks: &'a [Track]) -> (r: TracklistPermutations<'a>)
        ensures
            r.wf(),
            r.tracks() == tracks@,
            enumerates_orderings(r.pending(), tracks@.len()),
            lex_increasing(r.pending()),
    {
        let len = tracks.len();
        TracklistPermutations { tracks, inner: index_orderings(len) }
    }

    /// The next arrangement, or `None` once all have been yielded.
    pub fn next(&mut self) -> (r: Option<Vec<&'a Track>>)
        requires
            old(self).wf(),
        ensures
            final(self).wf(),
            final(self).tracks() == old(self).tracks(),
            old(self).pending().len() == 0 ==> r is None && final(self).pending() == old(
                self,
            ).pending(),
            old(self).pending().len() > 0 ==> (r matches Some(v) && v@.len()
                == old(self).tracks().len() && forall|k: int|
                0 <= k < v@.len() ==> *v@[k] == #[trigger] old(self).remaining()[0][k]),
            old(self).pending().len() > 0 ==> final(self).pending() == old(
                self,
            ).pending().drop_first(),
    {
        match next_ordering(&mut self.inner) {
            None => None,
            Some(order) => {
                let ghost ts = self.tracks@;
                let mut out: Vec<&'a Track> = Vec::with_capacity(order.len());
                let mut k: usize = 0;
                assert(is_ordering(old(self).pending()[0], ts.len()));
                while k < order.len()
                    invariant
                        ts == self.tracks@,
                        is_ordering(order@, ts.len()),
                        k <= order@.len(),
                        out@.len() == k,
                        forall|j: int| 0 <= j < k ==> *out@[j] == #[trigger] ts[order@[j] as int],
                    decreases order@.len() - k,
                {
                    let idx = order[k];
                    out.push(&self.tracks[idx]);
                    k = k + 1;
                }
                Some(out)
            },
        }
    }
}

/// The titles of `ts` taken in the order of positions `o`.
pub open spec fn title_ordering(ts: Seq<Track>, o: Seq<usize>) -> Seq<Seq<char>> {
    o.map_values(|i: usize| ts[i as int].title@)
}

/// `s` is the title sequence of some ordering of `ts`.
pub open spec fn is_title_ordering_of(ts: Seq<Track>, s: Seq<Seq<char>>) -> bool {
    exists|o: Seq<usize>| #[trigger] is_ordering(o, ts.len()) && s == title_ordering(ts, o)
}

/// `s` is the title sequence of one of the arrangements in `arrangements`.
pub open spec fn is_title_sequence_in(arrangements: Seq<Seq<Track>>, s: Seq<Seq<char>>) -> bool {
    exists|k: int| 0 <= k < arrangements.len() && titles_of(#[trigger] arrangements[k]) == s
}

/// Arranging tracks and then taking titles is taking titles in that order.
pub proof fn lemma_titles_of_arranged(ts: Seq<Track>, o: Seq<usize>)
    ensures
        titles_of(arranged(ts, o)) == title_ordering(ts, o),
{
    assert(titles_of(arranged(ts, o)) =~= title_ordering(ts, o));
}

/// Over tracks with distinct titles, two different orderings give different
/// title sequences.
pub proof fn lemma_title_ordering_injective(ts: Seq<Track>, o1: Seq<usize>, o2: Seq<usize>)
    requires
        titles_of(ts).no_duplicates(),
        is_ordering(o1, ts.len()),
        is_ordering(o2, ts.len()),
        o1 != o2,
    ensures
        title_ordering(ts, o1) != title_ordering(ts, o2),
{
    if !(exists|m: int| 0 <= m < o1.len() && #[trigger] o1[m] != o2[m]) {
        assert(o1 =~= o2);
    }
    let m = choose|m: int| 0 <= m < o1.len() && #[trigger] o1[m] != o2[m];
    assert(titles_of(ts)[o1[m] as int] != titles_of(ts)[o2[m] as int]);
    assert(title_ordering(ts, o1)[m] != title_ordering(ts, o2)[m]);
}

/// Over tracks with distinct titles, a fresh generator yields `n!`
/// arrangements whose title sequences are pairwise distinct, and these are
/// exactly the orderings of the titles.
pub proof fn lemma_fresh_permutations_are_title_orderings<'a>(
    p: TracklistPermutations<'a>,
    tracks: Seq<Track>,
)
    requires
        p.tracks() == tracks,
        enumerates_orderings(p.pending(), tracks.len()),
        titles_of(tracks).no_duplicates(),
    ensures
        p.remaining().len() == factorial(tracks.len()),
        forall|k: int, l: int|
            0 <= k < p.remaining().len() && 0 <= l < p.remaining().len() && k != l ==> titles_of(
                #[trigger] p.remaining()[k],
            ) != titles_of(#[trigger] p.remaining()[l]),
        forall|s: Seq<Seq<char>>|
            #![trigger is_title_sequence_in(p.remaining(), s)]
            #![trigger is_title_ordering_of(tracks, s)]
            is_title_sequence_in(p.remaining(), s) <==> is_title_ordering_of(tracks, s),
{
    let os = p.pending();
    let n = tracks.len();
    assert forall|k: int, l: int|
        0 <= k < p.remaining().len() && 0 <= l < p.remaining().len() && k != l implies titles_of(
            #[trigger] p.remaining()[k],
        ) != titles_of(#[trigger] p.remaining()[l]) by {
        lemma_titles_of_arranged(tracks, os[k]);
        lemma_titles_of_arranged(tracks, os[l]);
        lemma_title_ordering_injective(tracks, os[k], os[l]);
    }
    assert forall|s: Seq<Seq<char>>|
        #![trigger is_title_sequence_in(p.remaining(), s)]
        #![trigger is_title_ordering_of(tracks, s)]
        is_title_sequence_in(p.remaining(), s) <==> is_title_ordering_of(tracks, s) by {
        if is_title_sequence_in(p.remaining(), s) {
            let k = choose|k: int| 0 <= k < p.remaining().len() && titles_of(#[trigger] p.remaining()[k]) == s;
            lemma_titles_of_arranged(tracks, os[k]);
            assert(is_ordering(os[k], n));
        }
        if is_title_ordering_of(tracks, s) {
            let o = choose|o: Seq<usize>| #[trigger] is_ordering(o, n) && s == title_ordering(tracks, o);
            assert(os.contains(o));
            let k = choose|k: int| 0 <= k < os.len() && os[k] == o;
            lemma_titles_of_arranged(tracks, o);
            assert(titles_of(p.remaining()[k]) == s);
        }
    }
}

/// No sequence comes lexicographically both before and after another.
pub proof fn lemma_lex_less_asymmetric(a: Seq<usize>, b: Seq<usize>)
    requires
        lex_less(a, b),
    ensures
        !lex_less(b, a),
{
    let m1 = choose|m: int|
        #![trigger a[m], b[m]]
        0 <= m < a.len() && m < b.len() && a[m] < b[m] && forall|k: int|
            0 <= k < m ==> a[k] == b[k];
    if lex_less(b, a) {
        let m2 = choose|m: int|
            #![trigger b[m], a[m]]
            0 <= m < b.len() && m < a.len() && b[m] < a[m] && forall|k: int|
                0 <= k < m ==> b[k] == a[k];
        if m1 < m2 {
            assert(b[m1] == a[m1]);
        } else if m2 < m1 {
            assert(a[m2] == b[m2]);
        }
    }
}

/// Of two different sequences of one length that agree before position `i`,
/// one comes lexicographically before the other.
pub proof fn lemma_lex_total_from(a: Seq<usize>, b: Seq<usize>, i: int)
    requires
        a.len() == b.len(),
        a != b,
        0 <= i <= a.len(),
        forall|k: int| 0 <= k < i ==> a[k] == b[k],
    ensures
        lex_less(a, b) || lex_less(b, a),
    decreases a.len() - i,
{
    if i == a.len() {
        assert(a =~= b);
    } else if a[i] != b[i] {
        if a[i] < b[i] {
            assert(lex_less(a, b));
        } else {
            assert(lex_less(b, a));
        }
    } else {
        lemma_lex_total_from(a, b, i + 1);
    }
}

/// Two lexicographically increasing enumerations of the orderings of `0..n`
/// agree up to position `i`.
pub proof fn lemma_sorted_enumerations_agree_upto(
    xs: Seq<Seq<usize>>,
    ys: Seq<Seq<usize>>,
    n: nat,
    i: int,
)
    requires
        enumerates_orderings(xs, n),
        enumerates_orderings(ys, n),
        lex_increasing(xs),
        lex_increasing(ys),
        0 <= i < xs.len(),
    ensures
        forall|k: int| 0 <= k <= i ==> xs[k] == ys[k],
    decreases i,
{
    if i > 0 {
        lemma_sorted_enumerations_agree_upto(xs, ys, n, i - 1);
    }
    let x = xs[i];
    let y = ys[i];
    if x != y {
        assert(is_ordering(x, n) && is_ordering(y, n));
        lemma_lex_total_from(x, y, 0);
        if lex_less(x, y) {
            assert(ys.contains(x));
            let j = choose|j: int| 0 <= j < ys.len() && ys[j] == x;
            if j < i {
                assert(xs[j] == x);
                assert(xs.no_duplicates());
            } else {
                assert(lex_less(ys[i], ys[j]));
                lemma_lex_less_asymmetric(x, y);
            }
        } else {
            assert(xs.contains(y));
            let j = choose|j: int| 0 <= j < xs.len() && xs[j] == y;
            if j < i {
                assert(ys[j] == y);
                assert(ys.no_duplicates());
            } else {
                assert(lex_less(xs[i], xs[j]));
                lemma_lex_less_asymmetric(y, x);
            }
        }
    }
}

/// A generator restarts: two fresh generators over the same tracks have the
/// same arrangements to yield, in the same order.
pub proof fn lemma_fresh_generators_agree<'a, 'b>(
    p1: TracklistPermutations<'a>,
    p2: TracklistPermutations<'b>,
)
    requires
        p1.tracks() == p2.tracks(),
        enumerates_orderings(p1.pending(), p1.tracks().len()),
        enumerates_orderings(p2.pending(), p2.tracks().len()),
        lex_increasing(p1.pending()),
        lex_increasing(p2.pending()),
    ensures
        p1.pending() == p2.pending(),
        p1.remaining() == p2.remaining(),
{
    let (xs, ys) = (p1.pending(), p2.pending());
    if xs.len() > 0 {
        lemma_sorted_enumerations_agree_upto(xs, ys, p1.tracks().len(), xs.len() - 1);
    }
    assert(xs =~= ys);
}

} // verus!
