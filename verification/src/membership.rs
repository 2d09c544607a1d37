//! Per-group zone membership.
//!
//! Each group carries the sparse set of world coordinates it currently owns,
//! together with the ownership class it owns them in. The coordinate set is
//! kept duplicate-free, so it views as a finite `Set` whose cardinality is
//! the length of the underlying vector.

use vstd::prelude::*;

use crate::codec::valid_zone;
use crate::grid::GridPoint;

verus! {

/// One group's claimed coordinates and its ownership class.
#[derive(Debug, Clone)]
pub struct ZoneComponent {
    pub zone_points: Vec<GridPoint>,
    /// Presence bit of the class this group owns its coordinates in.
    pub zone_color: u32,
}

impl ZoneComponent {
    /// The claimed coordinates as a set.
    pub open spec fn points(self) -> Set<GridPoint> {
        self.zone_points@.to_set()
    }

    /// The coordinate list never repeats a coordinate and the class is one of
    /// the four presence bits.
    pub open spec fn wf(self) -> bool {
        &&& self.zone_points@.no_duplicates()
        &&& valid_zone(self.zone_color)
    }

    /// An empty membership in the given class.
    pub fn new(zone_color: u32) -> (r: ZoneComponent)
        requires
            valid_zone(zone_color),
        ensures
            r.wf(),
            r.zone_color == zone_color,
            r.points() == Set::<GridPoint>::empty(),
            r.zone_points@.len() == 0,
    {
        let r = ZoneComponent { zone_points: Vec::new(), zone_color };
        proof {
            assert(r.points() =~= Set::<GridPoint>::empty());
        }
        r
    }

    /// Whether the group currently claims `p`.
    pub fn contains_point(&self, p: GridPoint) -> (r: bool)
        ensures
            r == self.points().contains(p),
    {
        let mut i: usize = 0;
        while i < self.zone_points.len()
            invariant
                0 <= i <= self.zone_points@.len(),
                forall|j: int| 0 <= j < i ==> self.zone_points@[j] != p,
            decreases self.zone_points@.len() - i,
        {
            if self.zone_points[i] == p {
                return true;
            }
            i = i + 1;
        }
        false
    }

    /// Claim `p`; claiming an already-claimed coordinate changes nothing.
    pub fn insert_point(&mut self, p: GridPoint)
        requires
            old(self).wf(),
        ensures
            final(self).wf(),
            final(self).zone_color == old(self).zone_color,
            final(self).points() == old(self).points().insert(p),
            old(self).points().contains(p)
                ==> final(self).zone_points@ == old(self).zone_points@,
            !old(self).points().contains(p)
                ==> final(self).zone_points@ == old(self).zone_points@.push(p),
    {
        if !self.contains_point(p) {
            self.zone_points.push(p);
            proof {
                let os = old(self).zone_points@;
                let ns = self.zone_points@;
                assert forall|q: GridPoint| #[trigger] ns.contains(q)
                    implies old(self).points().insert(p).contains(q) by {
                    let j = choose|j: int| 0 <= j < ns.len() && ns[j] == q;
                    if j < os.len() {
                        assert(os[j] == q);
                    }
                }
                assert forall|q: GridPoint|
                    old(self).points().insert(p).contains(q) implies ns.contains(q) by {
                    if q == p {
                        assert(ns[os.len() as int] == p);
                    } else {
                        let j = choose|j: int| 0 <= j < os.len() && os[j] == q;
                        assert(ns[j] == q);
                    }
                }
                assert(self.points() =~= old(self).points().insert(p));
            }
        } else {
            proof {
                assert(self.points() =~= old(self).points().insert(p));
            }
        }
    }

    /// Release `p`; releasing an unclaimed coordinate changes nothing.
    pub fn remove_point(&mut self, p: GridPoint)
        requires
            old(self).wf(),
        ensures
            final(self).wf(),
            final(self).zone_color == old(self).zone_color,
            final(self).points() == old(self).points().remove(p),
    {
        let ghost old_seq = self.zone_points@;
        let mut i: usize = 0;
        while i < self.zone_points.len()
            invariant
                old(self).wf(),
                0 <= i <= self.zone_points@.len(),
                self.zone_points@ == old_seq,
                self.zone_color == old(self).zone_color,
                old_seq == old(self).zone_points@,
                forall|j: int| 0 <= j < i ==> self.zone_points@[j] != p,
            decreases self.zone_points@.len() - i,
        {
            if self.zone_points[i] == p {
                self.zone_points.remove(i);
                proof {
                    old_seq.remove_ensures(i as int);
                    let new_seq = self.zone_points@;
                    assert(new_seq == old_seq.remove(i as int));
                    assert(old_seq.no_duplicates());
                    assert forall|k: int, l: int|
                        0 <= k < new_seq.len() && 0 <= l < new_seq.len() && k != l
                        implies new_seq[k] != new_seq[l] by {
                        let ko: int = if k < i { k } else { k + 1 };
                        let lo: int = if l < i { l } else { l + 1 };
                        assert(new_seq[k] == old_seq[ko]);
                        assert(new_seq[l] == old_seq[lo]);
                    }
                    assert forall|q: GridPoint|
                        #[trigger] self.points().contains(q)
                            == old(self).points().remove(p).contains(q) by {
                        if q == p {
                            if new_seq.contains(p) {
                                let j = choose|j: int|
                                    0 <= j < new_seq.len() && new_seq[j] == p;
                                let jo: int = if j < i { j } else { j + 1 };
                                assert(old_seq[jo] == p);
                                assert(old_seq[i as int] == p);
                            }
                            assert(!new_seq.contains(p));
                        } else {
                            if old_seq.contains(q) {
                                let j = choose|j: int|
                                    0 <= j < old_seq.len() && old_seq[j] == q;
                                let jn: int = if j < i { j } else { j - 1 };
                                assert(new_seq[jn] == q);
                            }
                            if new_seq.contains(q) {
                                let j = choose|j: int|
                                    0 <= j < new_seq.len() && new_seq[j] == q;
                                let jo: int = if j < i { j } else { j + 1 };
                                assert(old_seq[jo] == q);
                            }
                        }
                    }
                    assert(self.points() =~= old(self).points().remove(p));
                }
                return;
            }
            i = i + 1;
        }
        proof {
            assert(!old_seq.contains(p));
            assert(self.points() =~= old(self).points().remove(p));
        }
    }

    /// The number of claimed coordinates equals the cardinality of the set
    /// view.
    pub proof fn lemma_points_len(self)
        requires
            self.wf(),
        ensures
            self.points().len() == self.zone_points@.len(),
            self.points().finite(),
    {
        self.zone_points@.unique_seq_to_set();
    }
}

} // verus!
