use vstd::prelude::*;

verus! {

/// The identity of a location: its region and its organization.
pub type KeyView = (Seq<char>, Seq<char>);

/// The mathematical content of a [`Location`].
pub ghost struct LocationView {
    pub region: Seq<char>,
    pub organization: Seq<char>,
    pub booking_link: Seq<char>,
    pub available_count: u64,
}

impl LocationView {
    pub open spec fn key(self) -> KeyView {
        (self.region, self.organization)
    }
}

/// One clinic's availability, as read from one booking block.
#[derive(Debug, PartialEq, Eq)]
pub struct Location {
    pub region: String,
    pub organization: String,
    pub booking_link: String,
    pub available_count: u64,
}

impl View for Location {
    type V = LocationView;

    open spec fn view(&self) -> LocationView {
        LocationView {
            region: self.region@,
            organization: self.organization@,
            booking_link: self.booking_link@,
            available_count: self.available_count,
        }
    }
}

/// The views of a sequence of locations.
pub open spec fn views(s: Seq<Location>) -> Seq<LocationView> {
    s.map_values(|l: Location| l@)
}

impl Clone for Location {
    fn clone(&self) -> (r: Self)
        ensures
            r == *self,
    {
        Location {
            region: self.region.clone(),
            organization: self.organization.clone(),
            booking_link: self.booking_link.clone(),
            available_count: self.available_count,
        }
    }
}

impl Location {
    pub fn new(region: String, organization: String, booking_link: String, available_count: u64) -> (r: Self)
        ensures
            r.region == region,
            r.organization == organization,
            r.booking_link == booking_link,
            r.available_count == available_count,
    {
        Location { region, organization, booking_link, available_count }
    }

    /// The identity key: `(region, organization)`.
    pub fn key(&self) -> (r: (String, String))
        ensures
            r.0@ == self.region@,
            r.1@ == self.organization@,
    {
        (self.region.clone(), self.organization.clone())
    }

    /// Whether two locations share an identity key.
    pub fn same_key(&self, other: &Location) -> (r: bool)
        ensures
            r == (self@.key() == other@.key()),
    {
        self.region == other.region && self.organization == other.organization
    }
}

} // verus!
