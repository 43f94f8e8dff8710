use vstd::prelude::*;
use crate::location::{views, Location, LocationView};
use crate::ranking::{
    count_not_allowed, filter_allowed, filtered_notice, lemma_filtered_out_count, keep_allowed, notice_text, regions_view, sort_by_count,
    sort_by_count_spec,
};
use crate::snapshot::{reconcile_spec, Snapshot, SnapshotView};

verus! {

/// The regions whose locations are shown and acted on.
pub fn default_regions() -> (r: Vec<String>)
    ensures
        regions_view(r@) == seq![
            "Ale"@,
            "G\u{f6}teborg"@,
            "Kung\u{e4}lv"@,
            "M\u{f6}lndal"@,
        ],
{
    let r = vec![
        String::from_str("Ale"),
        String::from_str("G\u{f6}teborg"),
        String::from_str("Kung\u{e4}lv"),
        String::from_str("M\u{f6}lndal"),
    ];
    assert(regions_view(r@) =~= seq![
        "Ale"@,
        "G\u{f6}teborg"@,
        "Kung\u{e4}lv"@,
        "M\u{f6}lndal"@,
    ]);
    r
}

/// What one poll cycle hands back for display and action.
#[derive(Debug)]
pub struct CycleReport {
    /// The new or changed locations of allowed regions, by ascending count.
    pub shown: Vec<Location>,
    /// How many new or changed locations the allow-list held back.
    pub filtered_out: usize,
    /// The line that reports `filtered_out`, where it is not zero.
    pub notice: Option<String>,
    /// The booking link to open: that of the first shown location, except on
    /// the first cycle.
    pub open_link: Option<String>,
}

pub ghost struct WatcherView {
    pub snapshot: SnapshotView,
    pub first_run: bool,
    pub allowed: Seq<Seq<char>>,
}

/// The state that the poll loop carries from one cycle to the next.
pub struct Watcher {
    snapshot: Snapshot,
    first_run: bool,
    allowed: Vec<String>,
}

impl View for Watcher {
    type V = WatcherView;

    closed spec fn view(&self) -> WatcherView {
        WatcherView {
            snapshot: self.snapshot@,
            first_run: self.first_run,
            allowed: regions_view(self.allowed@),
        }
    }
}

impl Watcher {
    pub closed spec fn wf(&self) -> bool {
        self.snapshot.wf()
    }

    /// A watcher before its first cycle, with an empty snapshot.
    pub fn new(allowed: Vec<String>) -> (r: Self)
        ensures
            r.wf(),
            r@.snapshot == SnapshotView::empty(),
            r@.first_run,
            r@.allowed == regions_view(allowed@),
    {
        Watcher { snapshot: Snapshot::new(), first_run: true, allowed }
    }

    pub fn is_first_run(&self) -> (r: bool)
        ensures
            r == self@.first_run,
    {
        self.first_run
    }

    pub fn snapshot(&self) -> (r: &Snapshot)
        requires
            self.wf(),
        ensures
            r.wf(),
            r@ == self@.snapshot,
    {
        &self.snapshot
    }

    /// One poll cycle on the locations just extracted: reconcile them into the
    /// snapshot, sort the changes by ascending count, keep those of allowed
    /// regions, and pick the first as the link to open, except on the first
    /// cycle.
    pub fn cycle(&mut self, locations: &Vec<Location>) -> (r: CycleReport)
        requires
            old(self).wf(),
        ensures
            final(self).wf(),
            final(self)@.snapshot == reconcile_spec(old(self)@.snapshot, views(locations@)).0,
            final(self)@.allowed == old(self)@.allowed,
            !final(self)@.first_run,
            ({
                let sorted = sort_by_count_spec(reconcile_spec(old(self)@.snapshot, views(locations@)).1);
                &&& views(r.shown@) == keep_allowed(sorted, old(self)@.allowed)
                &&& r.filtered_out == sorted.len() - r.shown@.len()
            }),
            r.filtered_out == count_not_allowed(
                reconcile_spec(old(self)@.snapshot, views(locations@)).1,
                old(self)@.allowed,
            ),
            r.filtered_out == 0 ==> r.notice is None,
            r.filtered_out > 0 ==> r.notice is Some && r.notice->0@ == notice_text(r.filtered_out as nat),
            old(self)@.first_run || r.shown@.len() == 0 ==> r.open_link is None,
            !old(self)@.first_run && r.shown@.len() > 0 ==> r.open_link is Some
                && r.open_link->0@ == r.shown@[0].booking_link@,
    {
        let changed = self.snapshot.reconcile(locations);
        let sorted = sort_by_count(&changed);
        let shown = filter_allowed(&sorted, &self.allowed);
        proof {
            crate::ranking::lemma_keep_allowed_len(views(sorted@), regions_view(self.allowed@));
            lemma_filtered_out_count(views(changed@), regions_view(self.allowed@));
        }
        let filtered_out = sorted.len() - shown.len();
        let notice = filtered_notice(filtered_out);
        let open_link = if !self.first_run && shown.len() > 0 {
            Some(shown[0].booking_link.clone())
        } else {
            None
        };
        self.first_run = false;
        CycleReport { shown, filtered_out, notice, open_link }
    }
}

} // verus!
