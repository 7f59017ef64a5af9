//! Sections and their tracks: which phrases sound from which beat on, on
//! which instrument and how loud.

use crate::beat::Beat;
use crate::name_map::{distinct, lemma_put_commutes, put, same_names, shared, NameMap};
use crate::sorted_keys::{increasing, lemma_rank, lemma_rank_is, rank, segment};
use std::sync::Arc;
use vstd::prelude::*;

verus! {

/// The gain that leaves a signal as it is: gains are counted in
/// thousandths.
pub const GAIN_UNIT: i64 = 1000;

/// A phrase bound to an instrument, with a volume and a place between left
/// and right.
pub struct Track {
    /// The name of the phrase that the track plays.
    pub phrase: String,
    /// The name of the instrument, where it is not the one in use.
    pub instrument: Option<String>,
    /// The volume in thousandths.
    pub vol: u16,
    /// The place in thousandths: -1000 is left, 0 the middle, 1000 right.
    pub pan: i16,
}

/// The tracks that sound from a beat on, until the next section starts.
pub struct Section {
    pub start: Beat,
    pub tracks: NameMap<Track>,
}

/// A section as it is seen in contracts: its start in ticks, and its tracks
/// under their names.
pub struct SectionView {
    pub start: int,
    pub tracks: Seq<(Seq<char>, Track)>,
}

impl View for Section {
    type V = SectionView;

    open spec fn view(&self) -> SectionView {
        SectionView { start: self.start@, tracks: self.tracks@ }
    }
}

/// The sections of `v`, as contracts see them.
pub open spec fn section_views(v: Seq<Section>) -> Seq<SectionView> {
    Seq::new(v.len(), |i: int| v[i]@)
}

/// The starts of the sections, in ticks.
pub open spec fn section_starts(s: Seq<SectionView>) -> Seq<int> {
    Seq::new(s.len(), |i: int| s[i].start)
}

/// The sections with one that starts at `start`: where there is none yet,
/// one without tracks is put in at its place in the order of starts.
pub open spec fn opened(s: Seq<SectionView>, start: int) -> Seq<SectionView> {
    let k = rank(section_starts(s), start) as int;
    if k < s.len() && s[k].start == start {
        s
    } else {
        s.take(k).push(SectionView { start, tracks: Seq::empty() }) + s.skip(k)
    }
}

/// The sections with `track` bound under `name` into the section that
/// starts at `start`, if there is such a section.
pub open spec fn bound(s: Seq<SectionView>, start: int, name: Seq<char>, track: Track) -> Option<
    Seq<SectionView>,
> {
    let k = rank(section_starts(s), start) as int;
    if k < s.len() && s[k].start == start {
        Some(s.update(k, SectionView { start, tracks: put(s[k].tracks, name, track) }))
    } else {
        None
    }
}

/// The place of the section that the beat at `ticks` lies in: the last one
/// that starts at or before it.
pub open spec fn section_of(s: Seq<SectionView>, ticks: int) -> Option<int> {
    if s.len() == 0 || ticks < s[0].start {
        None
    } else {
        Some(segment(section_starts(s), ticks))
    }
}

/// Opening a section leaves the sections in the order of their starts.
pub proof fn lemma_opened(s: Seq<SectionView>, start: int)
    requires
        increasing(section_starts(s)),
    ensures
        increasing(section_starts(opened(s, start))),
{
    let keys = section_starts(s);
    lemma_rank(keys, start);
    let k = rank(keys, start) as int;
    let r = opened(s, start);
    if !(k < s.len() && s[k].start == start) {
        assert forall|i: int, j: int| 0 <= i < j < section_starts(r).len() implies section_starts(
            r,
        )[i] < section_starts(r)[j] by {
            if i < k {
                assert(r[i] == s[i]);
                assert(keys[i] < start);
            }
            if i > k {
                assert(r[i] == s[i - 1]);
                assert(keys[i - 1] < keys[j - 1]);
            }
            if j < k {
                assert(r[j] == s[j]);
                assert(keys[i] < keys[j]);
            }
            if j > k {
                assert(r[j] == s[j - 1]);
                assert(keys[j - 1] >= start);
                if i < k {
                    assert(keys[i] < keys[j - 1]);
                }
            }
        }
    }
}

/// A section of `s` starts at `start`.
pub open spec fn starts_at(s: Seq<SectionView>, start: int) -> bool {
    exists|i: int| 0 <= i < s.len() && (#[trigger] s[i]).start == start
}

/// Among sorted sections, one starts at `start` exactly if the first that
/// does not start before it starts there; and no other does.
pub proof fn lemma_starts_at(s: Seq<SectionView>, start: int)
    requires
        increasing(section_starts(s)),
    ensures
        starts_at(s, start) <==> rank(section_starts(s), start) < s.len() && s[rank(
            section_starts(s),
            start,
        ) as int].start == start,
        forall|i: int|
            0 <= i < s.len() && (#[trigger] s[i]).start == start ==> i == rank(
                section_starts(s),
                start,
            ),
{
    let keys = section_starts(s);
    lemma_rank(keys, start);
    let k = rank(keys, start) as int;
    assert forall|i: int| 0 <= i < s.len() && (#[trigger] s[i]).start == start implies i == k by {
        assert(keys[i] == start);
        if i > k {
            assert(keys[k] < keys[i]);
        }
    }
}

/// What sorted sections hold after one was opened: the sections that were
/// there, and one without tracks at the start where none started.
pub proof fn lemma_opened_holds(s: Seq<SectionView>, start: int, x: SectionView)
    requires
        increasing(section_starts(s)),
    ensures
        opened(s, start).contains(x) <==> s.contains(x) || (!starts_at(s, start) && x == (
            SectionView { start, tracks: Seq::empty() })),
{
    let keys = section_starts(s);
    lemma_rank(keys, start);
    lemma_starts_at(s, start);
    let k = rank(keys, start) as int;
    let r = opened(s, start);
    let fresh = SectionView { start, tracks: Seq::empty() };
    if starts_at(s, start) {
        assert(r == s);
    } else {
        assert(r[k] == fresh);
        assert(r.contains(fresh));
        if r.contains(x) && x != fresh {
            let i = choose|i: int| 0 <= i < r.len() && r[i] == x;
            if i < k {
                assert(s[i] == x);
            } else {
                assert(s[i - 1] == x);
            }
            assert(s.contains(x));
        }
        if s.contains(x) {
            let i = choose|i: int| 0 <= i < s.len() && s[i] == x;
            if i < k {
                assert(r[i] == x);
            } else {
                assert(r[i + 1] == x);
            }
            assert(r.contains(x));
        }
    }
}

/// What sorted sections hold after a track was bound: the section with the
/// track in place of the one that started there, and the other sections.
/// Their starts are the same as before.
pub proof fn lemma_bound_holds(
    s: Seq<SectionView>,
    start: int,
    name: Seq<char>,
    track: Track,
    x: SectionView,
)
    requires
        increasing(section_starts(s)),
    ensures
        bound(s, start, name, track).is_some() <==> starts_at(s, start),
        bound(s, start, name, track) matches Some(r) ==> {
            let k = rank(section_starts(s), start) as int;
            &&& section_starts(r) == section_starts(s)
            &&& r.len() == s.len()
            &&& r[k] == (SectionView { start, tracks: put(s[k].tracks, name, track) })
            &&& (r.contains(x) <==> x == r[k] || (s.contains(x) && x.start != start))
        },
{
    let keys = section_starts(s);
    lemma_rank(keys, start);
    lemma_starts_at(s, start);
    let k = rank(keys, start) as int;
    if bound(s, start, name, track).is_some() {
        let r = bound(s, start, name, track)->0;
        assert(section_starts(r) =~= keys);
        assert(r.contains(r[k]));
        if r.contains(x) && x != r[k] {
            let i = choose|i: int| 0 <= i < r.len() && r[i] == x;
            assert(s[i] == x);
            assert(s.contains(x));
        }
        if s.contains(x) && x.start != start {
            let i = choose|i: int| 0 <= i < s.len() && s[i] == x;
            assert(r[i] == x);
            assert(r.contains(x));
        }
    }
}

/// Two runs of sorted sections that hold the same sections are the same.
pub proof fn lemma_sections_unique(a: Seq<SectionView>, b: Seq<SectionView>)
    requires
        increasing(section_starts(a)),
        increasing(section_starts(b)),
        forall|x: SectionView| a.contains(x) <==> b.contains(x),
    ensures
        a == b,
    decreases a.len(),
{
    if a.len() == 0 {
        if b.len() > 0 {
            assert(b.contains(b[0]));
        }
        assert(a =~= b);
    } else {
        let ka = section_starts(a);
        let kb = section_starts(b);
        let x = a.last();
        assert(a.contains(x));
        let j = choose|j: int| 0 <= j < b.len() && b[j] == x;
        let y = b.last();
        assert(b.contains(y));
        let i = choose|i: int| 0 <= i < a.len() && a[i] == y;
        assert(ka[i] <= ka[a.len() - 1]) by {
            if i < a.len() - 1 {
                assert(ka[i] < ka[a.len() - 1]);
            }
        }
        assert(kb[j] <= kb[b.len() - 1]) by {
            if j < b.len() - 1 {
                assert(kb[j] < kb[b.len() - 1]);
            }
        }
        assert(j == b.len() - 1) by {
            if j < b.len() - 1 {
                assert(kb[j] < kb[b.len() - 1]);
            }
        }
        let shorter_a = a.drop_last();
        let shorter_b = b.drop_last();
        assert(increasing(section_starts(shorter_a))) by {
            assert forall|m: int, n: int|
                0 <= m < n < section_starts(shorter_a).len() implies section_starts(
                shorter_a,
            )[m] < section_starts(shorter_a)[n] by {
                assert(ka[m] < ka[n]);
            }
        }
        assert(increasing(section_starts(shorter_b))) by {
            assert forall|m: int, n: int|
                0 <= m < n < section_starts(shorter_b).len() implies section_starts(
                shorter_b,
            )[m] < section_starts(shorter_b)[n] by {
                assert(kb[m] < kb[n]);
            }
        }
        assert forall|z: SectionView| shorter_a.contains(z) <==> shorter_b.contains(z) by {
            if shorter_a.contains(z) {
                let m = choose|m: int| 0 <= m < shorter_a.len() && shorter_a[m] == z;
                assert(a[m] == z);
                assert(a.contains(z));
                let n = choose|n: int| 0 <= n < b.len() && b[n] == z;
                assert(ka[m] < ka[a.len() - 1]);
                assert(n < b.len() - 1);
                assert(shorter_b[n] == z);
            }
            if shorter_b.contains(z) {
                let n = choose|n: int| 0 <= n < shorter_b.len() && shorter_b[n] == z;
                assert(b[n] == z);
                assert(b.contains(z));
                let m = choose|m: int| 0 <= m < a.len() && a[m] == z;
                assert(kb[n] < kb[b.len() - 1]);
                assert(m < a.len() - 1);
                assert(shorter_a[m] == z);
            }
        }
        lemma_sections_unique(shorter_a, shorter_b);
        assert(a =~= shorter_a.push(x));
        assert(b =~= shorter_b.push(x));
    }
}

/// Two sections can be opened in either order.
pub proof fn lemma_opened_commutes(s: Seq<SectionView>, first: int, second: int)
    requires
        increasing(section_starts(s)),
    ensures
        opened(opened(s, first), second) == opened(opened(s, second), first),
{
    lemma_opened(s, first);
    lemma_opened(s, second);
    lemma_opened(opened(s, first), second);
    lemma_opened(opened(s, second), first);
    let a = opened(opened(s, first), second);
    let b = opened(opened(s, second), first);
    let fresh_first = SectionView { start: first, tracks: Seq::empty() };
    let fresh_second = SectionView { start: second, tracks: Seq::empty() };
    lemma_starts_holds(s, first, second);
    lemma_starts_holds(s, second, first);
    assert forall|x: SectionView| a.contains(x) <==> b.contains(x) by {
        lemma_opened_holds(s, first, x);
        lemma_opened_holds(s, second, x);
        lemma_opened_holds(opened(s, first), second, x);
        lemma_opened_holds(opened(s, second), first, x);
    }
    lemma_sections_unique(a, b);
}

/// After a section was opened, a section starts at a beat exactly if one
/// started there before or the beat is the one of the section opened.
pub proof fn lemma_starts_holds(s: Seq<SectionView>, opened_at: int, start: int)
    requires
        increasing(section_starts(s)),
    ensures
        starts_at(opened(s, opened_at), start) <==> starts_at(s, start) || start == opened_at,
{
    let r = opened(s, opened_at);
    let fresh = SectionView { start: opened_at, tracks: Seq::empty() };
    if starts_at(r, start) {
        let i = choose|i: int| 0 <= i < r.len() && (#[trigger] r[i]).start == start;
        assert(r.contains(r[i]));
        lemma_opened_holds(s, opened_at, r[i]);
        if s.contains(r[i]) {
            let j = choose|j: int| 0 <= j < s.len() && s[j] == r[i];
            assert(s[j].start == start);
        }
    }
    if starts_at(s, start) {
        let j = choose|j: int| 0 <= j < s.len() && (#[trigger] s[j]).start == start;
        assert(s.contains(s[j]));
        lemma_opened_holds(s, opened_at, s[j]);
        let i = choose|i: int| 0 <= i < r.len() && r[i] == s[j];
        assert(r[i].start == start);
    }
    if start == opened_at && !starts_at(s, start) {
        lemma_opened_holds(s, opened_at, fresh);
        let i = choose|i: int| 0 <= i < r.len() && r[i] == fresh;
        assert(r[i].start == start);
    }
}

/// Two runs of sections are the same: they start at the same beats, and
/// each keeps the same track under every name as its counterpart.
pub open spec fn same_sections(a: Seq<SectionView>, b: Seq<SectionView>) -> bool {
    &&& a.len() == b.len()
    &&& forall|i: int|
        0 <= i < a.len() ==> (#[trigger] a[i]).start == b[i].start && same_names(
            a[i].tracks,
            b[i].tracks,
        )
}

/// No name occurs twice among the tracks of any one section.
pub open spec fn tracks_distinct(s: Seq<SectionView>) -> bool {
    forall|i: int| 0 <= i < s.len() ==> distinct(#[trigger] s[i].tracks)
}

/// Opening a section and binding a track into a section that starts at
/// another beat can be done in either order.
pub proof fn lemma_open_bind_commutes(
    s: Seq<SectionView>,
    opened_at: int,
    start: int,
    name: Seq<char>,
    track: Track,
)
    requires
        increasing(section_starts(s)),
        opened_at != start,
    ensures
        match (bound(opened(s, opened_at), start, name, track), bound(s, start, name, track)) {
            (Some(a), Some(b)) => a == opened(b, opened_at),
            (None, None) => true,
            _ => false,
        },
{
    let o = opened(s, opened_at);
    let fresh = SectionView { start: opened_at, tracks: Seq::empty() };
    lemma_opened(s, opened_at);
    lemma_starts_holds(s, opened_at, start);
    lemma_bound_holds(s, start, name, track, fresh);
    lemma_bound_holds(o, start, name, track, fresh);
    if bound(s, start, name, track).is_some() {
        let bs = bound(s, start, name, track)->0;
        let a = bound(o, start, name, track)->0;
        let b = opened(bs, opened_at);
        let ks = rank(section_starts(s), start) as int;
        let ko = rank(section_starts(o), start) as int;
        lemma_starts_at(s, start);
        lemma_starts_at(o, start);
        lemma_starts_at(s, opened_at);
        lemma_starts_at(bs, opened_at);
        assert(s.contains(s[ks]));
        lemma_opened_holds(s, opened_at, s[ks]);
        let i = choose|i: int| 0 <= i < o.len() && o[i] == s[ks];
        assert(o[i].start == start);
        assert(i == ko);
        assert(a[ko] == bs[ks]);
        assert(section_starts(bs)[rank(section_starts(s), opened_at) as int] == section_starts(
            s,
        )[rank(section_starts(s), opened_at) as int]) by {
            assert(section_starts(bs) == section_starts(s));
        }
        assert(starts_at(bs, opened_at) <==> starts_at(s, opened_at)) by {
            let k = rank(section_starts(s), opened_at) as int;
            if k < s.len() {
                assert(section_starts(bs)[k] == bs[k].start);
                assert(section_starts(s)[k] == s[k].start);
            }
        }
        lemma_opened(bs, opened_at);
        assert forall|x: SectionView| a.contains(x) <==> b.contains(x) by {
            lemma_bound_holds(o, start, name, track, x);
            lemma_bound_holds(s, start, name, track, x);
            lemma_opened_holds(s, opened_at, x);
            lemma_opened_holds(bs, opened_at, x);
        }
        lemma_sections_unique(a, b);
    }
}

/// Two tracks can be bound in either order, into different sections or
/// under different names.
pub proof fn lemma_bind_commutes(
    s: Seq<SectionView>,
    start1: int,
    name1: Seq<char>,
    track1: Track,
    start2: int,
    name2: Seq<char>,
    track2: Track,
)
    requires
        increasing(section_starts(s)),
        tracks_distinct(s),
        start1 != start2 || name1 != name2,
    ensures
        bound(s, start1, name1, track1) matches Some(first) ==> (bound(
            first,
            start2,
            name2,
            track2,
        ).is_some() <==> bound(s, start2, name2, track2).is_some()),
        bound(s, start2, name2, track2) matches Some(second) ==> (bound(
            second,
            start1,
            name1,
            track1,
        ).is_some() <==> bound(s, start1, name1, track1).is_some()),
        bound(s, start1, name1, track1).is_some() && bound(s, start2, name2, track2).is_some()
            ==> same_sections(
            bound(bound(s, start1, name1, track1)->0, start2, name2, track2)->0,
            bound(bound(s, start2, name2, track2)->0, start1, name1, track1)->0,
        ),
{
    let keys = section_starts(s);
    let k1 = rank(keys, start1) as int;
    let k2 = rank(keys, start2) as int;
    lemma_rank(keys, start1);
    lemma_rank(keys, start2);
    if bound(s, start1, name1, track1).is_some() {
        let first = bound(s, start1, name1, track1)->0;
        assert(section_starts(first) =~= keys);
    }
    if bound(s, start2, name2, track2).is_some() {
        let second = bound(s, start2, name2, track2)->0;
        assert(section_starts(second) =~= keys);
    }
    if bound(s, start1, name1, track1).is_some() && bound(s, start2, name2, track2).is_some() {
        let first = bound(s, start1, name1, track1)->0;
        let second = bound(s, start2, name2, track2)->0;
        let a = bound(first, start2, name2, track2)->0;
        let b = bound(second, start1, name1, track1)->0;
        if start1 == start2 {
            assert(distinct(s[k1].tracks));
            lemma_put_commutes(s[k1].tracks, name1, track1, name2, track2);
        }
        assert forall|i: int| 0 <= i < a.len() implies (#[trigger] a[i]).start == b[i].start
            && same_names(a[i].tracks, b[i].tracks) by {
            if i != k1 && i != k2 {
                assert(a[i] == s[i] && b[i] == s[i]);
            }
        }
    }
}

/// The sections of a piece, in the order of their starts, no two at one
/// beat.
pub struct SectionMap {
    sections: Vec<Arc<Section>>,
}

impl View for SectionMap {
    type V = Seq<SectionView>;

    closed spec fn view(&self) -> Seq<SectionView> {
        Seq::new(self.sections@.len(), |i: int| self.sections@[i]@)
    }
}

impl SectionMap {
    /// The sections come in strictly increasing order of their starts,
    /// and no name occurs twice among the tracks of any one of them.
    #[verifier::type_invariant]
    pub open spec fn is_valid(&self) -> bool {
        increasing(section_starts(self@)) && tracks_distinct(self@)
    }

    /// No sections.
    pub fn new() -> (map: SectionMap)
        ensures
            map@ == Seq::<SectionView>::empty(),
    {
        let map = SectionMap { sections: Vec::new() };
        assert(map@ =~= Seq::<SectionView>::empty());
        map
    }

    /// The map of `sections`, if they come in strictly increasing order of
    /// their starts.
    pub fn from_sections(sections: Vec<Section>) -> (r: Option<SectionMap>)
        ensures
            r.is_some() <==> increasing(section_starts(section_views(sections@))),
            r matches Some(map) ==> map@ == section_views(sections@),
    {
        let ghost views = section_views(sections@);
        let ghost keys = section_starts(views);
        let n = sections.len();
        let mut i: usize = 1;
        while i < n
            invariant
                1 <= i,
                n == sections@.len(),
                views == section_views(sections@),
                keys == section_starts(views),
                forall|a: int, b: int| 0 <= a < b < i && b < n ==> keys[a] < keys[b],
            decreases n - i,
        {
            if sections[i - 1].start.ticks() >= sections[i].start.ticks() {
                assert(!(keys[i - 1] < keys[i as int]));
                return None;
            }
            assert forall|a: int, b: int| 0 <= a < b < i + 1 && b < n implies keys[a] < keys[b] by {
                if b == i && a < i - 1 {
                    assert(keys[a] < keys[i - 1]);
                }
            }
            i = i + 1;
        }
        assert(increasing(keys));
        for i in 0..n
            invariant
                n == sections@.len(),
                views == section_views(sections@),
                forall|a: int| 0 <= a < i ==> distinct(#[trigger] views[a].tracks),
        {
            let count: usize = sections[i].tracks.len();
        }
        let ghost given = sections@;
        let mut shared_sections: Vec<Arc<Section>> = Vec::new();
        for section in it: sections
            invariant
                it.seq() == given,
                shared_sections@.len() == it.index(),
                forall|a: int| 0 <= a < it.index() ==> *(#[trigger] shared_sections@[a]) == given[a],
        {
            shared_sections.push(Arc::new(section));
        }
        proof {
            let after = Seq::new(shared_sections@.len(), |i: int| shared_sections@[i]@);
            assert(after =~= views);
        }
        Some(SectionMap { sections: shared_sections })
    }

    /// The number of sections.
    pub fn len(&self) -> (n: usize)
        ensures
            n == self@.len(),
            increasing(section_starts(self@)),
            tracks_distinct(self@),
    {
        proof {
            use_type_invariant(self);
        }
        self.sections.len()
    }

    /// The section in place `i`.
    pub fn section(&self, i: usize) -> (section: &Arc<Section>)
        requires
            i < self@.len(),
        ensures
            section@ == self@[i as int],
            increasing(section_starts(self@)),
            tracks_distinct(self@),
    {
        proof {
            use_type_invariant(self);
        }
        &self.sections[i]
    }

    /// The number of sections that start before `start`.
    fn rank_of(&self, start: i64) -> (k: usize)
        ensures
            k == rank(section_starts(self@), start as int),
            k <= self@.len(),
            increasing(section_starts(self@)),
            tracks_distinct(self@),
    {
        proof {
            use_type_invariant(self);
        }
        let ghost keys = section_starts(self@);
        let n = self.sections.len();
        let mut k: usize = 0;
        while k < n && self.sections[k].start.ticks() < start
            invariant
                k <= n,
                n == self.sections@.len(),
                keys == section_starts(self@),
                increasing(keys),
                forall|a: int| 0 <= a < k ==> keys[a] < start,
            decreases n - k,
        {
            k = k + 1;
        }
        proof {
            assert forall|a: int| k <= a < keys.len() implies keys[a] >= start by {
                if a > k {
                    assert(keys[k as int] < keys[a]);
                }
            }
            lemma_rank_is(keys, start as int, k as int);
        }
        k
    }

    /// The place of the section that `beat` lies in, if it lies in one.
    pub fn section_at(&self, beat: Beat) -> (r: Option<usize>)
        ensures
            match r {
                Some(i) => section_of(self@, beat@) == Some(i as int) && i < self@.len(),
                None => section_of(self@, beat@).is_none(),
            },
    {
        let ticks = beat.ticks();
        let k = self.rank_of(ticks + 1);
        if k == 0 {
            proof {
                lemma_rank(section_starts(self@), ticks + 1);
                if self@.len() > 0 {
                    assert(section_starts(self@)[0] >= ticks + 1);
                }
            }
            None
        } else {
            proof {
                lemma_rank(section_starts(self@), ticks + 1);
                assert(section_starts(self@)[0] < ticks + 1);
            }
            Some(k - 1)
        }
    }

    /// The sections with one that starts at `start`. Where one starts there
    /// already, nothing changes.
    pub fn with_section(&self, start: Beat) -> (map: SectionMap)
        ensures
            map@ == opened(self@, start@),
    {
        let ticks = start.ticks();
        let k = self.rank_of(ticks);
        let n = self.sections.len();
        let present = k < n && self.sections[k].start.ticks() == ticks;
        let mut sections: Vec<Arc<Section>> = Vec::new();
        for i in 0..k
            invariant
                k <= n,
                n == self.sections@.len(),
                sections@ == self.sections@.take(i as int),
        {
            sections.push(self.sections[i].clone());
            assert(sections@ =~= self.sections@.take(i + 1));
        }
        if !present {
            sections.push(Arc::new(Section { start, tracks: NameMap::new() }));
        }
        let ghost head = sections@;
        for i in k..n
            invariant
                k <= n,
                n == self.sections@.len(),
                sections@ == head + self.sections@.subrange(k as int, i as int),
        {
            sections.push(self.sections[i].clone());
            assert(sections@ =~= head + self.sections@.subrange(k as int, i + 1));
        }
        proof {
            let after = Seq::new(sections@.len(), |i: int| sections@[i]@);
            assert(self.sections@.subrange(k as int, n as int) =~= self.sections@.skip(k as int));
            assert(after =~= opened(self@, start@));
            lemma_opened(self@, start@);
            assert forall|i: int| 0 <= i < after.len() implies distinct(
                #[trigger] after[i].tracks,
            ) by {
                if present {
                    assert(after[i] == self@[i]);
                } else if i < k {
                    assert(after[i] == self@[i]);
                } else if i > k {
                    assert(after[i] == self@[i - 1]);
                }
            }
        }
        SectionMap { sections }
    }

    /// The sections with `track` bound under `name` into the section that
    /// starts at `start`. There is no result where no section starts there.
    pub fn with_track(&self, start: Beat, name: String, track: Arc<Track>) -> (r: Option<
        SectionMap,
    >)
        ensures
            match r {
                Some(map) => bound(self@, start@, name@, *track) == Some(map@),
                None => bound(self@, start@, name@, *track).is_none(),
            },
    {
        let ticks = start.ticks();
        let k = self.rank_of(ticks);
        let n = self.sections.len();
        if !(k < n && self.sections[k].start.ticks() == ticks) {
            return None;
        }
        let ghost key = name@;
        let ghost added = shared(track);
        let changed = Arc::new(
            Section { start, tracks: self.sections[k].tracks.with(name, track) },
        );
        let mut sections: Vec<Arc<Section>> = Vec::new();
        for i in 0..n
            invariant
                k < n,
                n == self.sections@.len(),
                sections@.len() == i,
                forall|a: int|
                    0 <= a < i ==> (#[trigger] sections@[a])@ == (if a == k {
                        changed@
                    } else {
                        self@[a]
                    }),
        {
            if i == k {
                sections.push(changed.clone());
            } else {
                sections.push(self.sections[i].clone());
            }
        }
        proof {
            let after = Seq::new(sections@.len(), |i: int| sections@[i]@);
            assert(after =~= bound(self@, start@, key, added)->0);
            assert(section_starts(after) =~= section_starts(self@));
            assert forall|i: int| 0 <= i < after.len() implies distinct(
                #[trigger] after[i].tracks,
            ) by {
                if i != k {
                    assert(after[i] == self@[i]);
                }
            }
        }
        Some(SectionMap { sections })
    }
}

} // verus!
