use vstd::prelude::*;

use crate::accounts::{AuthorizationGuard, Role};
use crate::error::Error;
use crate::events::{Event, EventLog};

verus! {

/// Classification of a zone.
#[derive(Clone, Copy, Debug, PartialEq, Eq, Structural)]
pub enum ZoneType {
    /// Forbidden zone.
    Red,
    /// Available for safe flights.
    Green,
    /// Owns other zones.
    Parent,
}

impl Default for ZoneType {
    fn default() -> (r: Self)
        ensures
            r == ZoneType::Green,
    {
        ZoneType::Green
    }
}

/// A point in space, generic over its coordinate type.
#[derive(Clone, Copy, Debug, PartialEq, Eq)]
pub struct Point3D<Coord> {
    pub x: Coord,
    pub y: Coord,
    pub z: Coord,
}

impl<Coord> Point3D<Coord> {
    pub fn new(x: Coord, y: Coord, z: Coord) -> (r: Self)
        ensures
            r.x == x,
            r.y == y,
            r.z == z,
    {
        Point3D { x, y, z }
    }
}

/// An axis-aligned box given by two opposite corners; the corners are kept
/// as given, in no particular order.
#[derive(Clone, Copy, Debug, PartialEq, Eq)]
pub struct Box3D<Point> {
    pub point_1: Point,
    pub point_2: Point,
}

impl<Point> Box3D<Point> {
    pub fn new(point_1: Point, point_2: Point) -> (r: Self)
        ensures
            r.point_1 == point_1,
            r.point_2 == point_2,
    {
        Box3D { point_1, point_2 }
    }
}

/// A catalogued region of space.
#[derive(Clone, Debug)]
pub struct Zone<Point> {
    pub bounding_box: Box3D<Point>,
    pub zone_type: ZoneType,
    pub zone_id: u32,
}

impl<Point> Zone<Point> {
    pub fn zone_is(&self, zone: ZoneType) -> (r: bool)
        ensures
            r == (self.zone_type == zone),
    {
        self.zone_type == zone
    }

    pub fn new(zone_id: u32, zone_type: ZoneType, bounding_box: Box3D<Point>) -> (r: Self)
        ensures
            r.zone_id == zone_id,
            r.zone_type == zone_type,
            r.bounding_box == bounding_box,
    {
        Zone { bounding_box, zone_type, zone_id }
    }
}

/// The largest number of zones the catalogue holds: ids are `u32` and the
/// count of zones must fit one too.
pub const MAX_ZONES: u32 = 0xffff_ffff;

/// Append-only catalogue of zones; a zone's id is its position.
pub struct ZoneRegistry<Point> {
    zones: Vec<Zone<Point>>,
}

/// Whether the `id`-th entry of a catalogue holds a zone of the given type.
pub open spec fn zone_is_spec<Point>(zones: Seq<Zone<Point>>, id: u32, zone_type: ZoneType) -> bool {
    id < zones.len() && zones[id as int].zone_type == zone_type
}

/// Every zone sits at the position named by its id, and the count fits a `u32`.
pub open spec fn dense<Point>(zones: Seq<Zone<Point>>) -> bool {
    &&& zones.len() <= MAX_ZONES
    &&& forall|i: int| 0 <= i < zones.len() ==> #[trigger] zones[i].zone_id == i
}

/// The catalogue after one successful addition: the new zone takes the
/// current count as id.
pub open spec fn zone_appended<Point>(
    zones: Seq<Zone<Point>>,
    zone_type: ZoneType,
    bounding_box: Box3D<Point>,
) -> Seq<Zone<Point>> {
    zones.push(Zone { bounding_box, zone_type, zone_id: zones.len() as u32 })
}

/// The catalogue after successful additions of `items`, in order, to `zones`.
pub open spec fn zones_added<Point>(
    zones: Seq<Zone<Point>>,
    items: Seq<(ZoneType, Box3D<Point>)>,
) -> Seq<Zone<Point>>
    decreases items.len(),
{
    if items.len() == 0 {
        zones
    } else {
        let prev = zones_added(zones, items.drop_last());
        zone_appended(prev, items.last().0, items.last().1)
    }
}

/// Successive successful additions to an empty catalogue allocate ids
/// 0, 1, 2, ... in call order, and the count afterwards is the number of
/// additions.
pub proof fn lemma_ids_in_call_order<Point>(items: Seq<(ZoneType, Box3D<Point>)>)
    requires
        items.len() <= MAX_ZONES,
    ensures
        zones_added(Seq::<Zone<Point>>::empty(), items).len() == items.len(),
        forall|i: int|
            0 <= i < items.len() ==> {
                let z = #[trigger] zones_added(Seq::<Zone<Point>>::empty(), items)[i];
                &&& z.zone_id == i
                &&& z.zone_type == items[i].0
                &&& z.bounding_box == items[i].1
            },
    decreases items.len(),
{
    if items.len() > 0 {
        let prefix = items.drop_last();
        lemma_ids_in_call_order(prefix);
        let prev = zones_added(Seq::<Zone<Point>>::empty(), prefix);
        let all = zones_added(Seq::<Zone<Point>>::empty(), items);
        assert forall|i: int| 0 <= i < items.len() implies {
            let z = #[trigger] all[i];
            &&& z.zone_id == i
            &&& z.zone_type == items[i].0
            &&& z.bounding_box == items[i].1
        } by {
            if i < prefix.len() {
                assert(all[i] == prev[i]);
                assert(prefix[i] == items[i]);
            }
        }
    }
}

impl<Point> View for ZoneRegistry<Point> {
    type V = Seq<Zone<Point>>;

    closed spec fn view(&self) -> Seq<Zone<Point>> {
        self.zones@
    }
}

impl<Point> ZoneRegistry<Point> {
    /// Every zone sits at the position named by its id, and the count fits a `u32`.
    pub closed spec fn wf(&self) -> bool {
        dense(self.zones@)
    }

    /// Well-formedness is density of the stored zones.
    pub proof fn lemma_wf(&self)
        ensures
            self.wf() == dense(self@),
    {
    }

    /// A catalogue holding exactly `zones`, in that order.
    pub fn from_zones(zones: Vec<Zone<Point>>) -> (r: Self)
        requires
            dense(zones@),
        ensures
            r.wf(),
            r@ == zones@,
    {
        ZoneRegistry { zones }
    }

    /// The zones in id order.
    pub fn as_zones(&self) -> (r: &[Zone<Point>])
        ensures
            r@ == self@,
    {
        self.zones.as_slice()
    }

    pub fn new() -> (r: Self)
        ensures
            r.wf(),
            r@ == Seq::<Zone<Point>>::empty(),
    {
        ZoneRegistry { zones: Vec::new() }
    }

    /// Number of zones catalogued so far, which is also the next id.
    pub fn total_boxes(&self) -> (r: u32)
        requires
            self.wf(),
        ensures
            r == self@.len(),
    {
        self.zones.len() as u32
    }

    /// Catalogues a zone under the next id; only a Registrar may do so.
    pub fn zone_add<G: AuthorizationGuard>(
        &mut self,
        guard: &G,
        caller: u64,
        zone_type: ZoneType,
        bounding_box: Box3D<Point>,
        log: &mut EventLog,
    ) -> (r: Result<u32, Error>)
        requires
            old(self).wf(),
            guard.inv(),
        ensures
            final(self).wf(),
            !guard.has_role_spec(caller, Role::Registrar) ==> r == Err::<u32, Error>(
                Error::NotAuthorized,
            ),
            guard.has_role_spec(caller, Role::Registrar) && old(self)@.len() == MAX_ZONES ==> r
                == Err::<u32, Error>(Error::InvalidAction),
            guard.has_role_spec(caller, Role::Registrar) && old(self)@.len() < MAX_ZONES ==> r
                == Ok::<u32, Error>(old(self)@.len() as u32),
            r is Ok ==> final(self)@ == zone_appended(old(self)@, zone_type, bounding_box) && final(log)@ == old(log)@.push(Event::ZoneCreated(r->Ok_0, caller, zone_type)),
            r is Err ==> final(self)@ == old(self)@ && final(log)@ == old(log)@,
    {
        if !guard.has_role(caller, Role::Registrar) {
            return Err(Error::NotAuthorized);
        }
        if self.zones.len() as u32 == MAX_ZONES {
            return Err(Error::InvalidAction);
        }
        let id = self.zones.len() as u32;
        let zone = Zone::new(id, zone_type, bounding_box);
        self.zones.push(zone);
        log.deposit(Event::ZoneCreated(id, caller, zone_type));
        Ok(id)
    }

    /// Whether zone `zone_id` exists and has the given type; a missing zone
    /// answers `false`.
    pub fn zone_is(&self, zone_id: u32, zone_type: ZoneType) -> (r: bool)
        requires
            self.wf(),
        ensures
            r == zone_is_spec(self@, zone_id, zone_type),
    {
        if (zone_id as usize) < self.zones.len() {
            self.zones[zone_id as usize].zone_is(zone_type)
        } else {
            false
        }
    }

    /// The zone stored under `zone_id`, if any.
    pub fn map_data(&self, zone_id: u32) -> (r: Option<&Zone<Point>>)
        requires
            self.wf(),
        ensures
            zone_id < self@.len() ==> r == Some(&self@[zone_id as int]),
            zone_id >= self@.len() ==> r is None,
    {
        if (zone_id as usize) < self.zones.len() {
            Some(&self.zones[zone_id as usize])
        } else {
            None
        }
    }
}

} // verus!
