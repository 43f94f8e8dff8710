use vstd::prelude::*;
use crate::location::{views, KeyView, Location, LocationView};

verus! {

/// The model of a snapshot: the latest location seen under each key.
pub type SnapshotView = Map<KeyView, LocationView>;

/// One location taken into a snapshot: it enters the change list where its key
/// is new or its count differs, and it replaces the entry under its key.
pub open spec fn reconcile_step(
    state: (SnapshotView, Seq<LocationView>),
    l: LocationView,
) -> (SnapshotView, Seq<LocationView>) {
    let snap = state.0;
    let changed = if snap.contains_key(l.key()) && snap[l.key()].available_count
        == l.available_count {
        state.1
    } else {
        state.1.push(l)
    };
    (snap.insert(l.key(), l), changed)
}

/// The snapshot and the change list after taking in `news` in order.
pub open spec fn reconcile_spec(snap: SnapshotView, news: Seq<LocationView>) -> (
    SnapshotView,
    Seq<LocationView>,
)
    decreases news.len(),
{
    if news.len() == 0 {
        (snap, Seq::empty())
    } else {
        reconcile_step(reconcile_spec(snap, news.drop_last()), news.last())
    }
}

/// The map that a list of entries stands for, later entries winning.
pub open spec fn map_of(entries: Seq<LocationView>) -> SnapshotView
    decreases entries.len(),
{
    if entries.len() == 0 {
        Map::empty()
    } else {
        map_of(entries.drop_last()).insert(entries.last().key(), entries.last())
    }
}

pub open spec fn keys_distinct(s: Seq<LocationView>) -> bool {
    forall|i: int, j: int| 0 <= i < s.len() && 0 <= j < s.len() && i != j ==> s[i].key() != s[j].key()
}

/// Two records under one key always carry one count.
pub open spec fn counts_consistent(s: Seq<LocationView>) -> bool {
    forall|i: int, j: int|
        0 <= i < s.len() && 0 <= j < s.len() && s[i].key() == s[j].key() ==> s[i].available_count
            == s[j].available_count
}

/// Every key of `s` is in `m`, with the count that `s` gives it.
pub open spec fn agrees(m: SnapshotView, s: Seq<LocationView>) -> bool {
    forall|i: int|
        0 <= i < s.len() ==> m.contains_key(#[trigger] s[i].key()) && m[s[i].key()].available_count
            == s[i].available_count
}

proof fn lemma_map_of_lookup(s: Seq<LocationView>)
    requires
        keys_distinct(s),
    ensures
        forall|k: KeyView| map_of(s).contains_key(k) <==> exists|i: int| 0 <= i < s.len() && #[trigger] s[i].key() == k,
        forall|i: int| 0 <= i < s.len() ==> map_of(s)[#[trigger] s[i].key()] == s[i],
    decreases s.len(),
{
    if s.len() > 0 {
        let p = s.drop_last();
        lemma_map_of_lookup(p);
        assert forall|k: KeyView| map_of(s).contains_key(k) <==> exists|i: int| 0 <= i < s.len() && #[trigger] s[i].key() == k by {
            if k == s.last().key() {
                assert(s[s.len() - 1].key() == k);
            } else if map_of(p).contains_key(k) {
                let i = choose|i: int| 0 <= i < p.len() && #[trigger] p[i].key() == k;
                assert(p[i] == s[i]);
                assert(s[i].key() == k);
            } else {
                assert forall|i: int| 0 <= i < s.len() implies #[trigger] s[i].key() != k by {
                    if i < s.len() - 1 {
                        assert(p[i] == s[i]);
                    }
                }
            }
        }
        assert forall|i: int| 0 <= i < s.len() implies map_of(s)[#[trigger] s[i].key()] == s[i] by {
            if i < s.len() - 1 {
                assert(p[i] == s[i]);
            }
        }
    }
}

proof fn lemma_map_of_update(s: Seq<LocationView>, j: int, l: LocationView)
    requires
        keys_distinct(s),
        0 <= j < s.len(),
        s[j].key() == l.key(),
    ensures
        map_of(s.update(j, l)) == map_of(s).insert(l.key(), l),
        keys_distinct(s.update(j, l)),
    decreases s.len(),
{
    let t = s.update(j, l);
    if j == s.len() - 1 {
        assert(t.drop_last() =~= s.drop_last());
        assert(map_of(t) =~= map_of(s).insert(l.key(), l));
    } else {
        let p = s.drop_last();
        lemma_map_of_update(p, j, l);
        assert(t.drop_last() =~= p.update(j, l));
        assert(s.last().key() != l.key());
        assert(map_of(t) =~= map_of(s).insert(l.key(), l));
    }
}

/// The latest location seen under each key. Entries are never removed: a
/// location that leaves the page keeps its entry.
pub struct Snapshot {
    entries: Vec<Location>,
}

impl View for Snapshot {
    type V = SnapshotView;

    closed spec fn view(&self) -> SnapshotView {
        map_of(views(self.entries@))
    }
}

impl Snapshot {
    /// At most one entry under each key.
    pub closed spec fn wf(&self) -> bool {
        keys_distinct(views(self.entries@))
    }

    pub fn new() -> (r: Self)
        ensures
            r.wf(),
            r@ == SnapshotView::empty(),
    {
        let r = Snapshot { entries: Vec::new() };
        assert(views(r.entries@) =~= Seq::<LocationView>::empty());
        r
    }

    /// How many keys the snapshot holds.
    pub fn len(&self) -> (r: usize)
        requires
            self.wf(),
        ensures
            r == self@.dom().len(),
    {
        proof {
            self.lemma_dom_len();
        }
        self.entries.len()
    }

    proof fn lemma_dom_len(&self)
        requires
            self.wf(),
        ensures
            self@.dom().len() == self.entries@.len(),
    {
        let s = views(self.entries@);
        lemma_map_of_lookup(s);
        let keys = Seq::new(s.len(), |i: int| s[i].key());
        assert(keys.no_duplicates());
        assert(keys.to_set() =~= self@.dom()) by {
            assert forall|k: KeyView| keys.to_set().contains(k) implies self@.dom().contains(k) by {
                let i = choose|i: int| 0 <= i < keys.len() && keys[i] == k;
                assert(s[i].key() == k);
            }
            assert forall|k: KeyView| self@.dom().contains(k) implies keys.to_set().contains(k) by {
                let i = choose|i: int| 0 <= i < s.len() && #[trigger] s[i].key() == k;
                assert(keys[i] == k);
            }
        }
        keys.unique_seq_to_set();
    }

    /// The index of the entry under `l`'s key, if there is one.
    fn find(&self, l: &Location) -> (r: Option<usize>)
        requires
            self.wf(),
        ensures
            match r {
                Some(j) => j < self.entries@.len() && self.entries@[j as int]@.key() == l@.key()
                    && self@.contains_key(l@.key()) && self@[l@.key()] == self.entries@[j as int]@,
                None => !self@.contains_key(l@.key()),
            },
    {
        proof {
            lemma_map_of_lookup(views(self.entries@));
        }
        let mut j: usize = 0;
        while j < self.entries.len()
            invariant
                j <= self.entries@.len(),
                self.wf(),
                forall|i: int| 0 <= i < j ==> self.entries@[i]@.key() != l@.key(),
            decreases self.entries@.len() - j,
        {
            if self.entries[j].same_key(l) {
                proof {
                    lemma_map_of_lookup(views(self.entries@));
                }
                assert(views(self.entries@)[j as int] == self.entries@[j as int]@);
                assert(views(self.entries@)[j as int].key() == l@.key());
                assert(map_of(views(self.entries@))[views(self.entries@)[j as int].key()] == views(
                    self.entries@,
                )[j as int]);
                return Some(j);
            }
            j += 1;
        }
        assert(!self@.contains_key(l@.key())) by {
            if self@.contains_key(l@.key()) {
                let i = choose|i: int| 0 <= i < self.entries@.len() && #[trigger] views(self.entries@)[i].key() == l@.key();
                assert(self.entries@[i]@.key() == l@.key());
            }
        }
        None
    }

    /// The entry under a key, if there is one.
    pub fn get(&self, region: &str, organization: &str) -> (r: Option<Location>)
        requires
            self.wf(),
        ensures
            match r {
                Some(l) => self@.contains_key((region@, organization@)) && self@[(region@, organization@)] == l@,
                None => !self@.contains_key((region@, organization@)),
            },
    {
        let probe = Location {
            region: String::from_str(region),
            organization: String::from_str(organization),
            booking_link: String::new(),
            available_count: 0,
        };
        match self.find(&probe) {
            Some(j) => Some(self.entries[j].clone()),
            None => None,
        }
    }

    /// Takes in the locations of one poll, in order. A location whose key is
    /// new, or whose count differs from its entry's, is appended to the change
    /// list; every location replaces the entry under its key, link included.
    pub fn reconcile(&mut self, new_locations: &Vec<Location>) -> (changed: Vec<Location>)
        requires
            old(self).wf(),
        ensures
            final(self).wf(),
            (final(self)@, views(changed@)) == reconcile_spec(old(self)@, views(new_locations@)),
    {
        let ghost news = views(new_locations@);
        let ghost start = self@;
        let mut changed: Vec<Location> = Vec::new();
        let mut i: usize = 0;
        assert(news.subrange(0, 0) =~= Seq::<LocationView>::empty());
        assert(views(changed@) =~= Seq::<LocationView>::empty());
        while i < new_locations.len()
            invariant
                i <= new_locations@.len(),
                news == views(new_locations@),
                self.wf(),
                (self@, views(changed@)) == reconcile_spec(start, news.subrange(0, i as int)),
            decreases new_locations@.len() - i,
        {
            let l = &new_locations[i];
            assert(news.subrange(0, i + 1).drop_last() =~= news.subrange(0, i as int));
            assert(news.subrange(0, i + 1).last() == l@);
            let ghost before = changed@;
            match self.find(l) {
                Some(j) => {
                    if self.entries[j].available_count != l.available_count {
                        changed.push(l.clone());
                        assert(views(changed@) =~= views(before).push(l@));
                    } else {
                        assert(views(changed@) =~= views(before));
                    }
                    proof {
                        lemma_map_of_update(views(self.entries@), j as int, l@);
                        assert(views(self.entries@).update(j as int, l@) =~= views(self.entries@.update(j as int, *l)));
                    }
                    self.entries.set(j, l.clone());
                },
                None => {
                    changed.push(l.clone());
                    assert(views(changed@) =~= views(before).push(l@));
                    proof {
                        lemma_map_of_lookup(views(self.entries@));
                        let vs = views(self.entries@);
                        assert(views(self.entries@.push(*l)) =~= vs.push(l@));
                        assert forall|a: int| 0 <= a < vs.len() implies #[trigger] vs[a].key() != l@.key() by {
                            if vs[a].key() == l@.key() {
                                assert(map_of(vs).contains_key(l@.key()));
                            }
                        }
                        assert(keys_distinct(vs.push(l@)));
                        assert(vs.push(l@).drop_last() =~= vs);
                    }
                    self.entries.push(l.clone());
                },
            }
            i += 1;
        }
        assert(news.subrange(0, i as int) =~= news);
        changed
    }
}

proof fn lemma_reconcile_agrees_with_input(snap: SnapshotView, news: Seq<LocationView>)
    requires
        counts_consistent(news),
    ensures
        agrees(reconcile_spec(snap, news).0, news),
    decreases news.len(),
{
    if news.len() > 0 {
        let p = news.drop_last();
        assert(counts_consistent(p)) by {
            assert forall|i: int, j: int|
                0 <= i < p.len() && 0 <= j < p.len() && p[i].key() == p[j].key() implies p[i].available_count
                == p[j].available_count by {
                assert(p[i] == news[i] && p[j] == news[j]);
            }
        }
        lemma_reconcile_agrees_with_input(snap, p);
        let l = news.last();
        let m = reconcile_spec(snap, news).0;
        assert forall|i: int| 0 <= i < news.len() implies m.contains_key(#[trigger] news[i].key())
            && m[news[i].key()].available_count == news[i].available_count by {
            if i < news.len() - 1 {
                assert(p[i] == news[i]);
                if news[i].key() == l.key() {
                    assert(news[news.len() - 1] == l);
                }
            }
        }
    }
}

proof fn lemma_reconcile_quiet(snap: SnapshotView, news: Seq<LocationView>, all: Seq<LocationView>)
    requires
        counts_consistent(all),
        agrees(snap, all),
        news.len() <= all.len(),
        news == all.subrange(0, news.len() as int),
    ensures
        reconcile_spec(snap, news).1 == Seq::<LocationView>::empty(),
        agrees(reconcile_spec(snap, news).0, all),
    decreases news.len(),
{
    if news.len() > 0 {
        let p = news.drop_last();
        assert(p =~= all.subrange(0, p.len() as int));
        lemma_reconcile_quiet(snap, p, all);
        let k = news.len() - 1;
        let l = news.last();
        assert(all[k] == l);
        let s1 = reconcile_spec(snap, p).0;
        assert(s1.contains_key(all[k].key()));
        let m = s1.insert(l.key(), l);
        assert forall|i: int| 0 <= i < all.len() implies m.contains_key(#[trigger] all[i].key())
            && m[all[i].key()].available_count == all[i].available_count by {
            if all[i].key() == l.key() {
                assert(all[k].key() == all[i].key());
            }
        }
    }
}

/// Reconciling the same locations a second time, against the snapshot that the
/// first time produced, reports no change. This holds wherever the locations
/// never give one key two different counts.
pub proof fn lemma_reconcile_idempotent(snap: SnapshotView, news: Seq<LocationView>)
    requires
        counts_consistent(news),
    ensures
        reconcile_spec(reconcile_spec(snap, news).0, news).1 == Seq::<LocationView>::empty(),
{
    lemma_reconcile_agrees_with_input(snap, news);
    assert(news.subrange(0, news.len() as int) =~= news);
    lemma_reconcile_quiet(reconcile_spec(snap, news).0, news, news);
}

proof fn lemma_reconcile_builds_map(news: Seq<LocationView>)
    ensures
        reconcile_spec(SnapshotView::empty(), news).0 == map_of(news),
    decreases news.len(),
{
    if news.len() > 0 {
        lemma_reconcile_builds_map(news.drop_last());
    }
}

/// From an empty snapshot, locations with distinct keys are all reported as
/// changed, in their order, and the snapshot then holds exactly them: a key is
/// in it iff one of the locations has it, and it maps to that location.
pub proof fn lemma_reconcile_from_empty(news: Seq<LocationView>)
    requires
        keys_distinct(news),
    ensures
        reconcile_spec(SnapshotView::empty(), news).1 == news,
        forall|k: KeyView|
            reconcile_spec(SnapshotView::empty(), news).0.contains_key(k) <==> exists|i: int|
                0 <= i < news.len() && #[trigger] news[i].key() == k,
        forall|i: int|
            0 <= i < news.len() ==> reconcile_spec(SnapshotView::empty(), news).0[#[trigger] news[i].key()]
                == news[i],
    decreases news.len(),
{
    lemma_reconcile_builds_map(news);
    lemma_map_of_lookup(news);
    if news.len() > 0 {
        let p = news.drop_last();
        assert(keys_distinct(p)) by {
            assert forall|i: int, j: int| 0 <= i < p.len() && 0 <= j < p.len() && i != j implies p[i].key()
                != p[j].key() by {
                assert(p[i] == news[i] && p[j] == news[j]);
            }
        }
        lemma_reconcile_from_empty(p);
        let l = news.last();
        assert(!reconcile_spec(SnapshotView::empty(), p).0.contains_key(l.key())) by {
            if reconcile_spec(SnapshotView::empty(), p).0.contains_key(l.key()) {
                let i = choose|i: int| 0 <= i < p.len() && #[trigger] p[i].key() == l.key();
                assert(news[i] == p[i]);
                assert(news[news.len() - 1] == l);
            }
        }
        assert(p.push(l) =~= news);
    }
}

} // verus!
