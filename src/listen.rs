//! Enter and exit events for a collider that listens to its region,
//! derived by comparing successive region queries.
use vstd::prelude::*;
use crate::colliders::ColliderId;
use crate::geometry::Aabb;
use crate::handle_set::{set_contains, set_drain, set_insert, set_items, set_new, set_remove, HandleSet};

verus! {

/// A listener entered (`entered`) or left the region of another collider.
#[derive(Clone, Copy, Debug, PartialEq, Eq, Structural)]
pub struct ColliderEvent {
    pub listener: ColliderId,
    pub other: ColliderId,
    pub entered: bool,
}

/// The colliders a listener currently overlaps.
#[derive(Debug)]
pub struct ColliderListens {
    contains: HandleSet,
}

/// The handles among `found`, other than `listener`.
pub open spec fn found_set(found: Seq<(ColliderId, Aabb)>, listener: ColliderId) -> Set<ColliderId> {
    Set::new(|h: ColliderId| h != listener && exists|k: int| 0 <= k < found.len() && #[trigger] found[k].0 == h)
}

/// The handles among the first `i` entries of `found`, other than `listener`.
pub open spec fn found_prefix(found: Seq<(ColliderId, Aabb)>, listener: ColliderId, i: int) -> Set<ColliderId> {
    Set::new(|h: ColliderId| h != listener && exists|k: int| 0 <= k < i && #[trigger] found[k].0 == h)
}

impl ColliderListens {
    /// The colliders currently overlapped.
    pub closed spec fn overlapped(&self) -> Set<ColliderId> {
        set_items(self.contains)
    }

    /// A listener that overlaps nothing yet.
    pub fn new() -> (r: ColliderListens)
        ensures
            r.overlapped() == Set::<ColliderId>::empty(),
    {
        let r = ColliderListens { contains: set_new() };
        assert(r.overlapped() =~= Set::<ColliderId>::empty());
        r
    }

    /// Whether collider `h` is currently overlapped.
    pub fn overlaps(&self, h: ColliderId) -> (r: bool)
        ensures
            r == self.overlapped().contains(h),
    {
        set_contains(&self.contains, h)
    }

    /// Replaces the overlapped set with the colliders in `found` (a
    /// region query around `listener`, which itself is skipped), and
    /// returns one enter event for each newly overlapped collider, in the
    /// order `found` first lists them, followed by one exit event for each
    /// collider no longer overlapped.
    pub fn update(&mut self, listener: ColliderId, found: &Vec<(ColliderId, Aabb)>) -> (r: Vec<ColliderEvent>)
        ensures
            final(self).overlapped() == found_set(found@, listener),
            forall|k: int| 0 <= k < r.len() ==> (#[trigger] r@[k]).listener == listener,
            forall|k: int|
                0 <= k < r.len() ==> ((#[trigger] r@[k]).entered ==> final(self).overlapped().contains(r@[k].other)
                    && !old(self).overlapped().contains(r@[k].other)),
            forall|k: int|
                0 <= k < r.len() ==> (!(#[trigger] r@[k]).entered ==> old(self).overlapped().contains(r@[k].other)
                    && !final(self).overlapped().contains(r@[k].other)),
            forall|h: ColliderId|
                #[trigger] final(self).overlapped().contains(h) && !old(self).overlapped().contains(h) ==> exists|k: int|
                    0 <= k < r.len() && r@[k] == (ColliderEvent { listener, other: h, entered: true }),
            forall|h: ColliderId|
                #[trigger] old(self).overlapped().contains(h) && !final(self).overlapped().contains(h) ==> exists|k: int|
                    0 <= k < r.len() && r@[k] == (ColliderEvent { listener, other: h, entered: false }),
            forall|k1: int, k2: int| 0 <= k1 < k2 < r.len() ==> #[trigger] r@[k1] != #[trigger] r@[k2],
            forall|k1: int, k2: int| 0 <= k1 < k2 < r.len() && !(#[trigger] r@[k1]).entered ==> !(#[trigger] r@[k2]).entered,
    {
        let ghost prev = self.overlapped();
        // Everything overlapped before is a candidate for leaving.
        let drained = set_drain(&mut self.contains);
        let mut removed = set_new();
        let mut j: usize = 0;
        while j < drained.len()
            invariant
                j <= drained.len(),
                drained@.to_set() == prev,
                forall|x: usize| set_items(removed).contains(x) <==> exists|m: int| 0 <= m < j && drained@[m] == x,
            decreases drained.len() - j,
        {
            let x = drained[j];
            set_insert(&mut removed, x);
            proof {
                assert forall|y: usize| set_items(removed).contains(y) <==> exists|m: int| 0 <= m < j + 1 && drained@[m] == y by {
                    if y == x {
                        assert(drained@[j as int] == y);
                    }
                }
            }
            j += 1;
        }
        proof {
            assert forall|x: usize| set_items(removed).contains(x) <==> prev.contains(x) by {
                if prev.contains(x) {
                    assert(drained@.to_set().contains(x));
                }
            }
        }
        let mut events: Vec<ColliderEvent> = Vec::new();
        let mut i: usize = 0;
        while i < found.len()
            invariant
                i <= found.len(),
                set_items(self.contains) == found_prefix(found@, listener, i as int),
                forall|x: usize| set_items(removed).contains(x) <==> prev.contains(x) && !set_items(self.contains).contains(x),
                forall|k: int| 0 <= k < events.len() ==> #[trigger] events@[k] == (ColliderEvent { listener, other: events@[k].other, entered: true })
                    && set_items(self.contains).contains(events@[k].other) && !prev.contains(events@[k].other),
                forall|h: ColliderId| set_items(self.contains).contains(h) && !prev.contains(h) ==> exists|k: int|
                    0 <= k < events.len() && #[trigger] events@[k] == (ColliderEvent { listener, other: h, entered: true }),
                forall|k1: int, k2: int| 0 <= k1 < k2 < events.len() ==> #[trigger] events@[k1].other != #[trigger] events@[k2].other,
            decreases found.len() - i,
        {
            let other = found[i].0;
            let ghost c0 = set_items(self.contains);
            let ghost r0 = set_items(removed);
            let ghost ev0 = events@;
            if other != listener {
                let fresh = set_insert(&mut self.contains, other);
                if fresh {
                    let was = set_remove(&mut removed, other);
                    if !was {
                        events.push(ColliderEvent { listener, other, entered: true });
                    }
                }
                proof {
                    assert forall|x: usize| set_items(removed).contains(x) <==> prev.contains(x) && !set_items(self.contains).contains(x) by {
                        assert(r0.contains(x) <==> prev.contains(x) && !c0.contains(x));
                        if !fresh {
                            assert(c0.contains(other));
                        }
                    }
                    assert(set_items(self.contains) =~= found_prefix(found@, listener, i + 1)) by {
                        assert forall|h: ColliderId| #[trigger] found_prefix(found@, listener, i + 1).contains(h) implies set_items(self.contains).contains(h) by {
                            if h != other {
                                let k = choose|k: int| 0 <= k < i + 1 && #[trigger] found@[k].0 == h;
                                assert(found_prefix(found@, listener, i as int).contains(h));
                            }
                        }
                        assert forall|h: ColliderId| set_items(self.contains).contains(h) implies #[trigger] found_prefix(found@, listener, i + 1).contains(h) by {
                            if h == other {
                                assert(found@[i as int].0 == h);
                            } else {
                                assert(c0.contains(h));
                                let k = choose|k: int| 0 <= k < i && #[trigger] found@[k].0 == h;
                                assert(0 <= k < i + 1);
                            }
                        }
                    }
                    assert forall|k: int| 0 <= k < events.len() implies #[trigger] events@[k] == (ColliderEvent { listener, other: events@[k].other, entered: true })
                        && set_items(self.contains).contains(events@[k].other) && !prev.contains(events@[k].other) by {
                        if k < ev0.len() {
                            assert(events@[k] == ev0[k]);
                        }
                    }
                    assert forall|h: ColliderId| set_items(self.contains).contains(h) && !prev.contains(h) implies exists|k: int|
                        0 <= k < events.len() && #[trigger] events@[k] == (ColliderEvent { listener, other: h, entered: true }) by {
                        if h != other || !fresh {
                            let k = choose|k: int| 0 <= k < ev0.len() && #[trigger] ev0[k] == (ColliderEvent { listener, other: h, entered: true });
                            assert(events@[k] == ev0[k]);
                        } else {
                            assert(events@[events.len() - 1] == (ColliderEvent { listener, other: h, entered: true }));
                        }
                    }
                    assert forall|k1: int, k2: int| 0 <= k1 < k2 < events.len() implies #[trigger] events@[k1].other != #[trigger] events@[k2].other by {
                        assert(events@[k1] == ev0[k1]);
                        if k2 < ev0.len() {
                            assert(events@[k2] == ev0[k2]);
                        }
                    }
                }
            } else {
                proof {
                    assert(set_items(self.contains) =~= found_prefix(found@, listener, i + 1)) by {
                        assert forall|h: ColliderId| #[trigger] found_prefix(found@, listener, i + 1).contains(h) implies set_items(self.contains).contains(h) by {
                            let k = choose|k: int| 0 <= k < i + 1 && #[trigger] found@[k].0 == h;
                            if k == i {
                                assert(h == listener);
                            }
                            assert(found_prefix(found@, listener, i as int).contains(h));
                        }
                        assert forall|h: ColliderId| set_items(self.contains).contains(h) implies #[trigger] found_prefix(found@, listener, i + 1).contains(h) by {
                            let k = choose|k: int| 0 <= k < i && #[trigger] found@[k].0 == h;
                            assert(0 <= k < i + 1);
                        }
                    }
                }
            }
            i += 1;
        }
        proof {
            assert(found_prefix(found@, listener, found.len() as int) =~= found_set(found@, listener));
        }
        let ghost entered_end = events.len() as int;
        let ghost now = set_items(self.contains);
        let gone = set_drain(&mut removed);
        let mut g: usize = 0;
        while g < gone.len()
            invariant
                g <= gone.len(),
                gone@.no_duplicates(),
                forall|x: usize| gone@.to_set().contains(x) <==> prev.contains(x) && !now.contains(x),
                set_items(self.contains) == now,
                0 <= entered_end <= events.len(),
                events.len() == entered_end + g,
                forall|k: int| 0 <= k < entered_end ==> #[trigger] events@[k] == (ColliderEvent { listener, other: events@[k].other, entered: true })
                    && now.contains(events@[k].other) && !prev.contains(events@[k].other),
                forall|h: ColliderId| now.contains(h) && !prev.contains(h) ==> exists|k: int|
                    0 <= k < entered_end && #[trigger] events@[k] == (ColliderEvent { listener, other: h, entered: true }),
                forall|k1: int, k2: int| 0 <= k1 < k2 < entered_end ==> #[trigger] events@[k1].other != #[trigger] events@[k2].other,
                forall|m: int| #![trigger gone@[m]] 0 <= m < g ==> events@[entered_end + m] == (ColliderEvent { listener, other: gone@[m], entered: false }),
            decreases gone.len() - g,
        {
            let ghost ev0 = events@;
            events.push(ColliderEvent { listener, other: gone[g], entered: false });
            proof {
                assert forall|k: int| 0 <= k < entered_end implies #[trigger] events@[k] == (ColliderEvent { listener, other: events@[k].other, entered: true })
                    && now.contains(events@[k].other) && !prev.contains(events@[k].other) by {
                    assert(events@[k] == ev0[k]);
                }
                assert forall|h: ColliderId| now.contains(h) && !prev.contains(h) implies exists|k: int|
                    0 <= k < entered_end && #[trigger] events@[k] == (ColliderEvent { listener, other: h, entered: true }) by {
                    let k = choose|k: int| 0 <= k < entered_end && #[trigger] ev0[k] == (ColliderEvent { listener, other: h, entered: true });
                    assert(events@[k] == ev0[k]);
                }
                assert forall|k1: int, k2: int| 0 <= k1 < k2 < entered_end implies #[trigger] events@[k1].other != #[trigger] events@[k2].other by {
                    assert(events@[k1] == ev0[k1] && events@[k2] == ev0[k2]);
                }
                assert forall|m: int| #![trigger gone@[m]] 0 <= m < g + 1 implies events@[entered_end + m] == (ColliderEvent { listener, other: gone@[m], entered: false }) by {
                    if m < g {
                        assert(events@[entered_end + m] == ev0[entered_end + m]);
                    }
                }
            }
            g += 1;
        }
        proof {
            assert(self.overlapped() == now);
            assert forall|k: int| 0 <= k < events.len() implies (#[trigger] events@[k]).listener == listener
                && (events@[k].entered ==> now.contains(events@[k].other) && !prev.contains(events@[k].other))
                && (!events@[k].entered ==> prev.contains(events@[k].other) && !now.contains(events@[k].other)) by {
                if k >= entered_end {
                    let m = k - entered_end;
                    assert(events@[entered_end + m] == (ColliderEvent { listener, other: gone@[m], entered: false }));
                    assert(gone@.to_set().contains(gone@[m]));
                }
            }
            assert forall|h: ColliderId| #[trigger] prev.contains(h) && !now.contains(h) implies exists|k: int|
                0 <= k < events.len() && events@[k] == (ColliderEvent { listener, other: h, entered: false }) by {
                assert(gone@.to_set().contains(h));
                let m = choose|m: int| 0 <= m < gone@.len() && gone@[m] == h;
                assert(events@[entered_end + m] == (ColliderEvent { listener, other: gone@[m], entered: false }));
            }
            assert forall|k1: int, k2: int| 0 <= k1 < k2 < events.len() implies #[trigger] events@[k1] != #[trigger] events@[k2]
                && (!events@[k1].entered ==> !events@[k2].entered) by {
                if k1 >= entered_end {
                    let m1 = k1 - entered_end;
                    let m2 = k2 - entered_end;
                    assert(events@[entered_end + m1] == (ColliderEvent { listener, other: gone@[m1], entered: false }));
                    assert(events@[entered_end + m2] == (ColliderEvent { listener, other: gone@[m2], entered: false }));
                } else if k2 >= entered_end {
                    let m2 = k2 - entered_end;
                    assert(events@[entered_end + m2] == (ColliderEvent { listener, other: gone@[m2], entered: false }));
                }
            }
        }
        events
    }
}

} // verus!
