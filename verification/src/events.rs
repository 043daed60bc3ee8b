//! Weight readings as produced by the frame parser and as sealed for storage.
use vstd::prelude::*;
use crate::decimal::{Decimal, DecimalModel};

verus! {

/// Unit a scale reports its weight in.
#[derive(Clone, Copy, Debug, PartialEq, Eq, Structural)]
pub enum WeightUnit {
    Kg,
    Lb,
    Ton,
    G,
    Unknown,
}

/// The label written for a unit: "kg", "lb", "t", "g", or "?" when unknown.
pub open spec fn unit_label(u: WeightUnit) -> Seq<char> {
    match u {
        WeightUnit::Kg => "kg"@,
        WeightUnit::Lb => "lb"@,
        WeightUnit::Ton => "t"@,
        WeightUnit::G => "g"@,
        WeightUnit::Unknown => "?"@,
    }
}

impl WeightUnit {
    /// The unit's label ("kg", "lb", "t", "g", "?").
    pub fn to_string(&self) -> (r: String)
        ensures
            r@ == unit_label(*self),
    {
        match self {
            WeightUnit::Kg => "kg".to_owned(),
            WeightUnit::Lb => "lb".to_owned(),
            WeightUnit::Ton => "t".to_owned(),
            WeightUnit::G => "g".to_owned(),
            WeightUnit::Unknown => "?".to_owned(),
        }
    }
}

/// What a frame says: its weight, unit, stability flag and the frame bytes.
pub struct ReadingModel {
    pub value: DecimalModel,
    pub unit: WeightUnit,
    pub stable: bool,
    pub raw: Seq<u8>,
}

/// A weight reading extracted from one frame of the serial stream.
#[derive(Debug)]
pub struct WeighEvent {
    pub value: Decimal,
    pub unit: WeightUnit,
    pub stable: bool,
    /// Milliseconds since the Unix epoch when the frame was parsed.
    pub timestamp_ms: u64,
    /// The frame payload the reading was taken from.
    pub raw: Vec<u8>,
}

impl WeighEvent {
    /// The event carries exactly the reading `r` (its time stamp is free).
    pub open spec fn matches(&self, r: ReadingModel) -> bool {
        &&& self.value@ == r.value
        &&& self.unit == r.unit
        &&& self.stable == r.stable
        &&& self.raw@ == r.raw
    }
}

/// `evs` carry the readings `rs`, one for one and in order.
pub open spec fn events_match(evs: Seq<WeighEvent>, rs: Seq<ReadingModel>) -> bool {
    &&& evs.len() == rs.len()
    &&& forall|i: int| 0 <= i < evs.len() ==> #[trigger] evs[i].matches(rs[i])
}

/// A reading sealed with HMAC-SHA256; `hmac` covers id, value, time stamp and unit.
#[derive(Debug)]
pub struct SignedEvent {
    pub id: u64,
    pub value: Decimal,
    pub unit: String,
    pub stable: bool,
    pub timestamp_ms: u64,
    pub hmac: String,
}

impl SignedEvent {
    /// Same content as `other`, field by field.
    pub open spec fn same_as(&self, other: SignedEvent) -> bool {
        &&& self.id == other.id
        &&& self.value@ == other.value@
        &&& self.unit@ == other.unit@
        &&& self.stable == other.stable
        &&& self.timestamp_ms == other.timestamp_ms
        &&& self.hmac@ == other.hmac@
    }

    /// A field-by-field copy.
    pub fn duplicate(&self) -> (r: SignedEvent)
        ensures
            r.same_as(*self),
    {
        SignedEvent {
            id: self.id,
            value: self.value.copy(),
            unit: self.unit.clone(),
            stable: self.stable,
            timestamp_ms: self.timestamp_ms,
            hmac: self.hmac.clone(),
        }
    }
}

impl Clone for SignedEvent {
    fn clone(&self) -> (r: Self)
        ensures
            r.same_as(*self),
    {
        self.duplicate()
    }
}

} // verus!
