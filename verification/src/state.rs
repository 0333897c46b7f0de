//! What is kept between two readings of the feed.

use crate::adaptive_matching::StopAliasIndex;
use crate::gtfs::Gtfs;
use crate::lists;
use crate::matching::{self, GtfsMatchIndex};
use crate::stops;
use dashmap::DashMap;
use vstd::prelude::*;

verus! {

/// The platform of a trip at a stop.
#[derive(Debug, Clone)]
pub struct PlatformInfo {
    pub stop_id: String,
    pub platform_name: String,
}

/// The platforms of a list: each a stop and the name of a platform there.
pub open spec fn platforms_of(list: Seq<PlatformInfo>) -> Seq<(Seq<char>, Seq<char>)> {
    Seq::new(list.len(), |i: int| (list[i].stop_id@, list[i].platform_name@))
}

/// The trip that a vehicle was last seen on.
#[derive(Debug, Clone)]
pub struct VehicleAssignment {
    pub trip_id: String,
    pub route_id: String,
    pub service_date: Option<i32>,
    pub last_seen_epoch: i64,
}

impl View for VehicleAssignment {
    type V = (Seq<char>, Seq<char>, Option<i32>, i64);

    open spec fn view(&self) -> (Seq<char>, Seq<char>, Option<i32>, i64) {
        (self.trip_id@, self.route_id@, self.service_date, self.last_seen_epoch)
    }
}

impl VehicleAssignment {
    /// A copy of the assignment.
    pub fn copy(&self) -> (r: Self)
        ensures
            r@ == self@,
    {
        VehicleAssignment {
            trip_id: self.trip_id.clone(),
            route_id: self.route_id.clone(),
            service_date: self.service_date,
            last_seen_epoch: self.last_seen_epoch,
        }
    }
}

/// A schedule with its indexes.
pub struct LoadedGtfs {
    pub gtfs: Gtfs,
    pub match_index: GtfsMatchIndex,
    pub stop_alias_index: StopAliasIndex,
}

impl LoadedGtfs {
    /// Builds the indexes of a schedule.
    pub fn new(gtfs: Gtfs) -> (r: Self)
        ensures
            r.gtfs == gtfs,
            matching::is_index_of(r.match_index, gtfs),
            lists::is_index_by(
                r.stop_alias_index.by_suffix@,
                gtfs.stops@.dom(),
                stops::by_suffix(),
            ),
    {
        let match_index = GtfsMatchIndex::build(&gtfs);
        let stop_alias_index = StopAliasIndex::build(&gtfs);
        LoadedGtfs { gtfs, match_index, stop_alias_index }
    }
}

/// The map of the crate `dashmap`.
#[verifier::external_type_specification]
#[verifier::external_body]
#[verifier::reject_recursive_types(K)]
#[verifier::reject_recursive_types(V)]
#[verifier::reject_recursive_types(S)]
pub struct ExDashMap<K, V, S>(DashMap<K, V, S>);

/// The platforms that a map holds, by trip.
pub uninterp spec fn platform_rows(
    map: DashMap<String, Vec<PlatformInfo>>,
) -> Map<Seq<char>, Seq<(Seq<char>, Seq<char>)>>;

/// The assignments that a map holds, by vehicle.
pub uninterp spec fn assignment_rows(
    map: DashMap<String, VehicleAssignment>,
) -> Map<Seq<char>, (Seq<char>, Seq<char>, Option<i32>, i64)>;

/// `DashMap::insert` gives a key a value in place of the one that it had.
#[verifier::external_body]
pub(crate) fn insert_platforms(
    map: &mut DashMap<String, Vec<PlatformInfo>>,
    trip_id: String,
    platforms: Vec<PlatformInfo>,
)
    ensures
        platform_rows(*final(map)) == platform_rows(*old(map)).insert(
            trip_id@,
            platforms_of(platforms@),
        ),
{
    map.insert(trip_id, platforms);
}

/// `DashMap::insert` gives a key a value in place of the one that it had.
#[verifier::external_body]
pub(crate) fn insert_assignment(
    map: &mut DashMap<String, VehicleAssignment>,
    vehicle: String,
    assignment: VehicleAssignment,
)
    ensures
        assignment_rows(*final(map)) == assignment_rows(*old(map)).insert(vehicle@, assignment@),
{
    map.insert(vehicle, assignment);
}

/// `DashMap::get` finds the value of a key, if it has one.
#[verifier::external_body]
pub(crate) fn find_assignment(
    map: &DashMap<String, VehicleAssignment>,
    vehicle: &str,
) -> (r: Option<VehicleAssignment>)
    ensures
        match r {
            Some(found) => assignment_rows(*map).contains_key(vehicle@)
                && assignment_rows(*map)[vehicle@] == found@,
            None => !assignment_rows(*map).contains_key(vehicle@),
        },
{
    map.get(vehicle).map(|found| found.value().copy())
}

/// How long an assignment is kept, in seconds.
pub const VEHICLE_ASSIGNMENT_RETENTION_SECONDS: i64 = 21_600;

/// How long an assignment counts, in seconds.
pub const VEHICLE_ASSIGNMENT_TTL_SECONDS: i64 = 900;

/// Whether something last seen at `seen` was seen within the last `limit` seconds.
pub fn seen_within(seen: i64, now: i64, limit: i64) -> (r: bool)
    ensures
        r == (now - seen <= limit),
{
    now as i128 - seen as i128 <= limit as i128
}

/// Whether an assignment is still kept.
pub open spec fn keeps(row: (Seq<char>, Seq<char>, Option<i32>, i64), now: i64) -> bool {
    now - row.3 <= VEHICLE_ASSIGNMENT_RETENTION_SECONDS
}

/// Whether an assignment is still kept.
pub fn is_kept(assignment: &VehicleAssignment, now: i64) -> (r: bool)
    ensures
        r == keeps(assignment@, now),
        r == (now - assignment.last_seen_epoch <= VEHICLE_ASSIGNMENT_RETENTION_SECONDS),
{
    seen_within(assignment.last_seen_epoch, now, VEHICLE_ASSIGNMENT_RETENTION_SECONDS)
}

/// The assignments that are still kept.
pub open spec fn kept_rows(
    rows: Map<Seq<char>, (Seq<char>, Seq<char>, Option<i32>, i64)>,
    now: i64,
) -> Map<Seq<char>, (Seq<char>, Seq<char>, Option<i32>, i64)> {
    Map::new(
        |vehicle: Seq<char>| rows.contains_key(vehicle) && keeps(rows[vehicle], now),
        |vehicle: Seq<char>| rows[vehicle],
    )
}

/// `DashMap::retain` takes out every pair for which its closure is false, and only those.
#[verifier::external_body]
pub(crate) fn retain_assignments(map: &mut DashMap<String, VehicleAssignment>, now: i64)
    ensures
        assignment_rows(*final(map)) == kept_rows(assignment_rows(*old(map)), now),
{
    map.retain(|_, assignment| is_kept(assignment, now));
}

} // verus!
