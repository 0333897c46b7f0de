//! The SIRI estimated timetable.

use crate::text;
use vstd::prelude::*;

verus! {

#[derive(Debug, Clone)]
pub struct SiriResponse {
    pub siri: Siri,
}

#[derive(Debug, Clone)]
pub struct Siri {
    pub service_delivery: ServiceDelivery,
}

#[derive(Debug, Clone)]
pub struct ServiceDelivery {
    pub estimated_timetable_delivery: Vec<EstimatedTimetableDelivery>,
}

#[derive(Debug, Clone)]
pub struct EstimatedTimetableDelivery {
    pub estimated_journey_version_frame: Vec<EstimatedJourneyVersionFrame>,
}

#[derive(Debug, Clone)]
pub struct EstimatedJourneyVersionFrame {
    pub estimated_vehicle_journey: Vec<EstimatedVehicleJourney>,
}

#[derive(Debug, Clone)]
pub struct EstimatedVehicleJourney {
    pub dated_vehicle_journey_ref: Option<ValueWrapper>,
    pub line_ref: Option<ValueWrapper>,
    pub operator_ref: Option<ValueWrapper>,
    pub direction_ref: Option<ValueWrapper>,
    pub direction_name: Option<Vec<ValueWrapper>>,
    pub destination_ref: Option<ValueWrapper>,
    pub journey_note: Option<Vec<ValueWrapper>>,
    pub estimated_calls: Option<EstimatedCalls>,
}

#[derive(Debug, Clone)]
pub struct EstimatedCalls {
    pub estimated_call: Vec<EstimatedCall>,
}

#[derive(Debug, Clone)]
pub struct EstimatedCall {
    pub stop_point_ref: Option<ValueWrapper>,
    pub aimed_arrival_time: Option<String>,
    pub aimed_departure_time: Option<String>,
    pub expected_arrival_time: Option<String>,
    pub expected_departure_time: Option<String>,
    pub arrival_status: Option<String>,
    pub departure_status: Option<String>,
    pub arrival_platform_name: Option<ValueWrapper>,
    pub departure_platform_name: Option<ValueWrapper>,
}

#[derive(Debug, Clone)]
pub struct ValueWrapper {
    pub value: Option<String>,
}

/// The text that a reference holds, if there is a reference and it holds one.
pub open spec fn reference_text(reference: Option<ValueWrapper>) -> Option<Seq<char>> {
    match reference {
        Some(wrapper) => text::opt_string(wrapper.value),
        None => None,
    }
}

/// The text that a reference holds.
pub fn reference_value(reference: &Option<ValueWrapper>) -> (r: Option<&str>)
    ensures
        text::opt_text(r) == reference_text(*reference),
{
    match reference {
        Some(wrapper) => match &wrapper.value {
            Some(text) => Some(text.as_str()),
            None => None,
        },
        None => None,
    }
}

/// What of a journey bears on which trip it is.
#[verifier::ext_equal]
pub ghost struct Journey {
    /// The reference of the vehicle journey.
    pub name: Option<Seq<char>>,
    pub line: Option<Seq<char>>,
    pub operator: Option<Seq<char>>,
    pub destination: Option<Seq<char>>,
    pub calls: Seq<EstimatedCall>,
}

impl View for EstimatedVehicleJourney {
    type V = Journey;

    open spec fn view(&self) -> Journey {
        Journey {
            name: reference_text(self.dated_vehicle_journey_ref),
            line: reference_text(self.line_ref),
            operator: reference_text(self.operator_ref),
            destination: reference_text(self.destination_ref),
            calls: match self.estimated_calls {
                Some(calls) => calls.estimated_call@,
                None => seq![],
            },
        }
    }
}

/// The references of a list that may be missing.
pub open spec fn references_of(list: Option<Vec<ValueWrapper>>) -> Option<Seq<ValueWrapper>> {
    match list {
        Some(references) => Some(references@),
        None => None,
    }
}

/// The calls of a list that may be missing.
pub open spec fn listed_calls(calls: Option<EstimatedCalls>) -> Option<Seq<EstimatedCall>> {
    match calls {
        Some(list) => Some(list.estimated_call@),
        None => None,
    }
}

/// Whether two journeys are the same but for their calls, and both have a list of calls or neither
/// has.
pub open spec fn differ_in_calls_only(
    a: EstimatedVehicleJourney,
    b: EstimatedVehicleJourney,
) -> bool {
    &&& a.dated_vehicle_journey_ref == b.dated_vehicle_journey_ref
    &&& a.line_ref == b.line_ref
    &&& a.operator_ref == b.operator_ref
    &&& a.direction_ref == b.direction_ref
    &&& references_of(a.direction_name) == references_of(b.direction_name)
    &&& a.destination_ref == b.destination_ref
    &&& references_of(a.journey_note) == references_of(b.journey_note)
    &&& a.estimated_calls is Some <==> b.estimated_calls is Some
}

/// Whether two journeys are the same in every field, lists being the same by what they hold.
pub open spec fn are_same(a: EstimatedVehicleJourney, b: EstimatedVehicleJourney) -> bool {
    differ_in_calls_only(a, b) && listed_calls(a.estimated_calls) == listed_calls(
        b.estimated_calls,
    )
}

fn copy_text(value: &Option<String>) -> (r: Option<String>)
    ensures
        r == *value,
{
    match value {
        Some(text) => Some(text.clone()),
        None => None,
    }
}

fn copy_reference(reference: &Option<ValueWrapper>) -> (r: Option<ValueWrapper>)
    ensures
        r == *reference,
{
    match reference {
        Some(wrapper) => Some(ValueWrapper { value: copy_text(&wrapper.value) }),
        None => None,
    }
}

fn copy_references(list: &Option<Vec<ValueWrapper>>) -> (r: Option<Vec<ValueWrapper>>)
    ensures
        references_of(r) == references_of(*list),
{
    match list {
        Some(references) => {
            let mut copies: Vec<ValueWrapper> = Vec::new();
            let mut i: usize = 0;
            while i < references.len()
                invariant
                    i <= references@.len(),
                    copies@ == references@.take(i as int),
                decreases references@.len() - i,
            {
                copies.push(ValueWrapper { value: copy_text(&references[i].value) });
                assert(copies@ =~= references@.take(i + 1));
                i = i + 1;
            }
            assert(references@.take(i as int) =~= references@);
            Some(copies)
        },
        None => None,
    }
}

impl EstimatedCall {
    /// A copy of the call.
    pub fn copy(&self) -> (r: Self)
        ensures
            r == *self,
    {
        EstimatedCall {
            stop_point_ref: copy_reference(&self.stop_point_ref),
            aimed_arrival_time: copy_text(&self.aimed_arrival_time),
            aimed_departure_time: copy_text(&self.aimed_departure_time),
            expected_arrival_time: copy_text(&self.expected_arrival_time),
            expected_departure_time: copy_text(&self.expected_departure_time),
            arrival_status: copy_text(&self.arrival_status),
            departure_status: copy_text(&self.departure_status),
            arrival_platform_name: copy_reference(&self.arrival_platform_name),
            departure_platform_name: copy_reference(&self.departure_platform_name),
        }
    }
}

impl EstimatedVehicleJourney {
    /// A copy of the journey.
    pub fn copy(&self) -> (r: Self)
        ensures
            are_same(r, *self),
            r@ == self@,
    {
        let estimated_calls = match &self.estimated_calls {
            Some(calls) => {
                let list = &calls.estimated_call;
                let mut copies: Vec<EstimatedCall> = Vec::new();
                let mut i: usize = 0;
                while i < list.len()
                    invariant
                        i <= list@.len(),
                        copies@ == list@.take(i as int),
                    decreases list@.len() - i,
                {
                    copies.push(list[i].copy());
                    assert(copies@ =~= list@.take(i + 1));
                    i = i + 1;
                }
                assert(list@.take(i as int) =~= list@);
                Some(EstimatedCalls { estimated_call: copies })
            },
            None => None,
        };
        EstimatedVehicleJourney {
            dated_vehicle_journey_ref: copy_reference(&self.dated_vehicle_journey_ref),
            line_ref: copy_reference(&self.line_ref),
            operator_ref: copy_reference(&self.operator_ref),
            direction_ref: copy_reference(&self.direction_ref),
            direction_name: copy_references(&self.direction_name),
            destination_ref: copy_reference(&self.destination_ref),
            journey_note: copy_references(&self.journey_note),
            estimated_calls,
        }
    }
}

} // verus!
