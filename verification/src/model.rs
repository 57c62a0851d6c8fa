//! Value types: a position, an instant and an observation of an entity.

use crate::sort::Ranked;
use vstd::prelude::*;

verus! {

/// Least epoch second an instant can hold (the first second of year -262143).
pub const MIN_SECS: i64 = -8_334_601_228_800;

/// Greatest epoch second an instant can hold (the last second of year 262142).
pub const MAX_SECS: i64 = 8_210_266_876_799;

/// A geodetic position in degrees and metres. Each coordinate is held as the
/// IEEE-754 bit pattern of a double, so that a position can be stored,
/// compared and hashed exactly.
#[derive(Clone, Copy, Debug, PartialEq, Eq, Structural)]
pub struct Position {
    pub lat_bits: u64,
    pub lon_bits: u64,
    pub alt_m_bits: u64,
}

/// An instant in UTC: whole seconds since the epoch and the nanoseconds
/// within that second. A leap second is written as second 59 of its minute
/// with nanoseconds from 1_000_000_000 on.
#[derive(Clone, Copy, Debug, PartialEq, Eq, Structural)]
pub struct Timestamp {
    secs: i64,
    nanos: u32,
}

impl Timestamp {
    /// Whether `secs` and `nanos` name an instant.
    pub open spec fn valid_parts(secs: int, nanos: int) -> bool {
        &&& MIN_SECS <= secs <= MAX_SECS
        &&& 0 <= nanos < 2_000_000_000
        &&& nanos >= 1_000_000_000 ==> secs % 60 == 59
    }

    /// Whole seconds since the epoch.
    pub closed spec fn spec_secs(&self) -> i64 {
        self.secs
    }

    /// Nanoseconds since the start of the second.
    pub closed spec fn spec_nanos(&self) -> u32 {
        self.nanos
    }

    /// Holds of every instant that executable code can get hold of.
    pub open spec fn wf(&self) -> bool {
        Self::valid_parts(self.spec_secs() as int, self.spec_nanos() as int)
    }

    #[verifier::type_invariant]
    pub(crate) open spec fn inv(&self) -> bool {
        self.wf()
    }

    /// The instant `nanos` nanoseconds into epoch second `secs`, if there is
    /// one.
    pub fn new(secs: i64, nanos: u32) -> (t: Option<Timestamp>)
        ensures
            t is Some <==> Self::valid_parts(secs as int, nanos as int),
            t matches Some(ts) ==> ts.spec_secs() == secs && ts.spec_nanos() == nanos && ts.wf(),
    {
        if secs < MIN_SECS || secs > MAX_SECS || nanos >= 2_000_000_000 {
            return None;
        }
        if nanos >= 1_000_000_000 && (secs + 8_334_601_228_800) % 60 != 59 {
            assert((secs + 8_334_601_228_800) % 60 == secs % 60);
            return None;
        }
        assert(nanos >= 1_000_000_000 ==> (secs + 8_334_601_228_800) % 60 == secs % 60);
        Some(Timestamp { secs, nanos })
    }

    /// Whole seconds since the epoch.
    #[verifier::when_used_as_spec(spec_secs)]
    pub fn secs(&self) -> (s: i64)
        ensures
            s == self.spec_secs(),
            MIN_SECS <= s <= MAX_SECS,
    {
        proof {
            use_type_invariant(self);
        }
        self.secs
    }

    /// Nanoseconds since the start of the second.
    #[verifier::when_used_as_spec(spec_nanos)]
    pub fn nanos(&self) -> (n: u32)
        ensures
            n == self.spec_nanos(),
            n < 2_000_000_000,
    {
        proof {
            use_type_invariant(self);
        }
        self.nanos
    }

    /// Nanoseconds since the epoch, where a 64-bit signed integer holds
    /// them (from the year 1677 to the year 2262).
    pub open spec fn spec_epoch_nanos(&self) -> Option<i64> {
        let n = self.spec_secs() * 1_000_000_000 + self.spec_nanos();
        if i64::MIN <= n <= i64::MAX {
            Some(n as i64)
        } else {
            None
        }
    }

    /// Nanoseconds since the epoch, or `None` where they do not fit.
    #[verifier::when_used_as_spec(spec_epoch_nanos)]
    pub fn epoch_nanos(&self) -> (n: Option<i64>)
        ensures
            n == self.spec_epoch_nanos(),
    {
        proof {
            use_type_invariant(self);
        }
        let wide: i128 = (self.secs as i128) * 1_000_000_000 + (self.nanos as i128);
        if wide < (i64::MIN as i128) || wide > (i64::MAX as i128) {
            None
        } else {
            Some(wide as i64)
        }
    }

    /// Whether `self` is no later than `other`.
    pub open spec fn spec_not_after(&self, other: &Timestamp) -> bool {
        self.spec_secs() < other.spec_secs() || (self.spec_secs() == other.spec_secs()
            && self.spec_nanos() <= other.spec_nanos())
    }

    /// Whether `self` is no later than `other`.
    #[verifier::when_used_as_spec(spec_not_after)]
    pub fn not_after(&self, other: &Timestamp) -> (r: bool)
        ensures
            r == self.spec_not_after(other),
    {
        self.secs < other.secs || (self.secs == other.secs && self.nanos <= other.nanos)
    }
}

/// The identifier that the hash gives to an entity observed at an instant
/// and a place.
pub uninterp spec fn identity_hash(entity_id: u128, nanos: i128, lat_bits: u64, lon_bits: u64) -> u64;

/// Hashes the entity id, taken as a `uuid::Uuid`, the instant and the two
/// coordinates, in that order, with `std::hash::BuildHasher::hash_one` on
/// std's default hasher in its unkeyed state. The contract claims only that
/// the result is a function of the four arguments.
#[verifier::external_body]
fn hash_identity(entity_id: u128, nanos: i128, lat_bits: u64, lon_bits: u64) -> (id: u64)
    ensures
        id == identity_hash(entity_id, nanos, lat_bits, lon_bits),
{
    let key = (uuid::Uuid::from_u128(entity_id), nanos, lat_bits, lon_bits);
    let build = std::hash::BuildHasherDefault::<std::collections::hash_map::DefaultHasher>::default();
    std::hash::BuildHasher::hash_one(&build, key)
}

/// The instant as it enters the identifier: nanoseconds since the epoch,
/// and 0 where 64 bits do not hold them.
pub open spec fn identity_nanos(t: Timestamp) -> i128 {
    match t.spec_epoch_nanos() {
        Some(n) => n as i128,
        None => 0,
    }
}

/// The identifier of an observation of `entity_id` at `t` and `pos`.
pub open spec fn derived_id(entity_id: u128, t: Timestamp, pos: Position) -> u64 {
    identity_hash(entity_id, identity_nanos(t), pos.lat_bits, pos.lon_bits)
}

/// Derives the identifier of an observation from the entity, the instant
/// and the latitude and longitude. Altitude plays no part. Distinct
/// observations can get the same identifier: the hash has 64 bits and is
/// not cryptographic.
pub fn derive_id(entity_id: u128, t: &Timestamp, pos: &Position) -> (id: u64)
    ensures
        id == derived_id(entity_id, *t, *pos),
{
    let nanos: i128 = match t.epoch_nanos() {
        Some(n) => n as i128,
        None => 0,
    };
    hash_identity(entity_id, nanos, pos.lat_bits, pos.lon_bits)
}

/// One observation of an entity. `quality_bits` and `sigma_m_bits` are the
/// IEEE-754 bit patterns of a single and of a double; `source` is a JSON
/// document as text.
#[derive(Clone, Debug, PartialEq, Eq)]
pub struct Observation {
    pub obs_id: u64,
    pub entity_id: u128,
    pub t: Timestamp,
    pub pos: Position,
    pub quality_bits: u32,
    pub sigma_m_bits: Option<u64>,
    pub source: Option<String>,
}

impl Observation {
    /// Whether the identifier is the one that the entity, the instant and
    /// the position derive.
    pub open spec fn has_derived_id(&self) -> bool {
        self.obs_id == derived_id(self.entity_id, self.t, self.pos)
    }

    /// An observation with the identifier that its entity, instant and
    /// position derive.
    pub fn new(
        entity_id: u128,
        t: Timestamp,
        pos: Position,
        sigma_m_bits: Option<u64>,
        quality_bits: u32,
        source: Option<String>,
    ) -> (o: Observation)
        ensures
            o.has_derived_id(),
            o.entity_id == entity_id,
            o.t == t,
            o.pos == pos,
            o.quality_bits == quality_bits,
            o.sigma_m_bits == sigma_m_bits,
            o.source == source,
    {
        let obs_id = derive_id(entity_id, &t, &pos);
        Observation { obs_id, entity_id, t, pos, quality_bits, sigma_m_bits, source }
    }
}

/// Two observations with derived identifiers that agree in entity,
/// instant, latitude and longitude have one identifier, however they
/// differ in altitude, quality, uncertainty and provenance.
pub proof fn lemma_identity_collapse(a: Observation, b: Observation)
    requires
        a.has_derived_id(),
        b.has_derived_id(),
        a.entity_id == b.entity_id,
        a.t == b.t,
        a.pos.lat_bits == b.pos.lat_bits,
        a.pos.lon_bits == b.pos.lon_bits,
    ensures
        a.obs_id == b.obs_id,
{
}

/// Observations rank by their instant.
impl Ranked for Observation {
    open spec fn rank_le(&self, other: &Self) -> bool {
        self.t.spec_not_after(&other.t)
    }

    proof fn rank_total(a: &Self, b: &Self) {
    }

    proof fn rank_transitive(a: &Self, b: &Self, c: &Self) {
    }

    fn le(&self, other: &Self) -> (r: bool) {
        self.t.not_after(&other.t)
    }
}

} // verus!
