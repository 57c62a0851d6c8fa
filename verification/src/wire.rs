//! Requests and replies of the service, between the values that travel and
//! the values that the store works on.
//!
//! An observation travels with its entity as the text of a UUID, its
//! instant as RFC 3339 text, an uncertainty of zero for none and an empty
//! provenance for none. A batch with one malformed observation is refused
//! as a whole.

use crate::model::{Observation, Position, Timestamp};
use vstd::prelude::*;
use vstd::string::*;

verus! {

/// Why a request is refused as invalid.
#[derive(Clone, Copy, Debug, PartialEq, Eq, Structural)]
pub enum WireError {
    /// The instant of an observation is no RFC 3339 text.
    BadTime,
    /// An observation has no position.
    MissingPosition,
    /// A latitude or a longitude is no finite number.
    BadPosition,
    /// The entity of an observation is no UUID.
    BadUuid,
    /// The start of a query window is no RFC 3339 text.
    BadStart,
    /// The end of a query window is no RFC 3339 text.
    BadEnd,
}

/// An observation as it travels.
#[derive(Clone, Debug, PartialEq, Eq)]
pub struct WireObservation {
    pub obs_id: u64,
    pub entity_id: String,
    pub t: String,
    pub pos: Option<Position>,
    pub quality_bits: u32,
    /// The bit pattern of the uncertainty; that of zero for none.
    pub sigma_m_bits: u64,
    /// The provenance as JSON text; empty for none.
    pub source_json: String,
}

/// The instant that `chrono` reads from a text, as seconds and
/// nanoseconds; `None` where it reads none.
pub uninterp spec fn rfc3339_instant(text: Seq<char>) -> Option<(i64, u32)>;

/// The RFC 3339 text that `chrono` writes for an instant; `None` where it
/// has no such instant.
pub uninterp spec fn rfc3339_text(secs: i64, nanos: u32) -> Option<Seq<char>>;

/// The 128-bit value of the UUID that `uuid` reads from a text; `None`
/// where it reads none.
pub uninterp spec fn uuid_value(text: Seq<char>) -> Option<u128>;

/// The text that `uuid` writes for a UUID.
pub uninterp spec fn uuid_text(value: u128) -> Seq<char>;

/// The text that `serde_json` writes for the document that it reads from
/// a text; `None` where it reads none.
pub uninterp spec fn json_normal_form(text: Seq<char>) -> Option<Seq<char>>;

/// Parses a text with `str::parse::<chrono::DateTime<chrono::Utc>>` and
/// takes the instant apart with `timestamp` and `timestamp_subsec_nanos`.
/// The contract names the result and claims nothing of it.
#[verifier::external_body]
fn parse_instant(text: &str) -> (r: Option<(i64, u32)>)
    ensures
        r == rfc3339_instant(text@),
{
    match text.parse::<chrono::DateTime<chrono::Utc>>() {
        Ok(t) => Some((t.timestamp(), t.timestamp_subsec_nanos())),
        Err(_) => None,
    }
}

/// Writes the instant that `chrono::DateTime::from_timestamp` makes of
/// the two numbers with `to_rfc3339`. The contract names the result and
/// claims that `chrono` has an instant for every pair that is valid here.
#[verifier::external_body]
fn format_instant(secs: i64, nanos: u32) -> (r: Option<String>)
    ensures
        match r {
            Some(text) => rfc3339_text(secs, nanos) == Some(text@),
            None => rfc3339_text(secs, nanos) is None,
        },
        Timestamp::valid_parts(secs as int, nanos as int) ==> r is Some,
{
    chrono::DateTime::from_timestamp(secs, nanos).map(|t| t.to_rfc3339())
}

/// Parses a text with `uuid::Uuid::parse_str` and takes the value with
/// `as_u128`. The contract names the result and claims nothing of it.
#[verifier::external_body]
fn parse_uuid(text: &str) -> (r: Option<u128>)
    ensures
        r == uuid_value(text@),
{
    match uuid::Uuid::parse_str(text) {
        Ok(u) => Some(u.as_u128()),
        Err(_) => None,
    }
}

/// Writes the UUID that `uuid::Uuid::from_u128` makes of the value, as
/// its `Display` does. The contract names the result and claims nothing
/// of it.
#[verifier::external_body]
fn format_uuid(value: u128) -> (r: String)
    ensures
        r@ == uuid_text(value),
{
    uuid::Uuid::from_u128(value).to_string()
}

/// Reads a JSON document with `serde_json::from_str` and writes it again
/// as its `Display` does. The contract names the result and claims
/// nothing of it.
#[verifier::external_body]
fn normalize_json(text: &str) -> (r: Option<String>)
    ensures
        match r {
            Some(out) => json_normal_form(text@) == Some(out@),
            None => json_normal_form(text@) is None,
        },
{
    match serde_json::from_str::<serde_json::Value>(text) {
        Ok(v) => Some(v.to_string()),
        Err(_) => None,
    }
}

/// The instant that a text stands for: what `chrono` reads, where that is
/// an instant that the store can hold.
pub open spec fn instant_of(text: Seq<char>) -> Option<(i64, u32)> {
    match rfc3339_instant(text) {
        Some((secs, nanos)) => if Timestamp::valid_parts(secs as int, nanos as int) {
            Some((secs, nanos))
        } else {
            None
        },
        None => None,
    }
}

/// Whether a bit pattern is that of a finite number: its exponent field
/// is not all ones, as it is for the infinities and for what is no number.
pub open spec fn is_finite_bits(bits: u64) -> bool {
    (bits >> 52) & 0x7ff != 0x7ff
}

/// Whether a position has a cell: its latitude and longitude are finite.
pub open spec fn has_cell(pos: Position) -> bool {
    is_finite_bits(pos.lat_bits) && is_finite_bits(pos.lon_bits)
}

/// Whether a bit pattern is that of zero, positive or negative.
pub open spec fn is_zero_bits(bits: u64) -> bool {
    bits == 0 || bits == 0x8000_0000_0000_0000
}

/// The provenance that a text carries: none where it is empty or no
/// JSON, else the document as `serde_json` writes it.
pub open spec fn source_of(text: Seq<char>) -> Option<Seq<char>> {
    if text.len() == 0 {
        None
    } else {
        json_normal_form(text)
    }
}

/// What a travelling observation decodes to: the first thing amiss in
/// the order instant, position, entity, or else the parts of the
/// observation.
pub open spec fn decoded(w: WireObservation) -> Result<(u128, (i64, u32), Position), WireError> {
    match instant_of(w.t@) {
        None => Err(WireError::BadTime),
        Some(t) => match w.pos {
            None => Err(WireError::MissingPosition),
            Some(pos) => if !has_cell(pos) {
                Err(WireError::BadPosition)
            } else {
                match uuid_value(w.entity_id@) {
                    None => Err(WireError::BadUuid),
                    Some(entity) => Ok((entity, t, pos)),
                }
            },
        },
    }
}

/// Decides `has_cell`.
pub fn check_position(pos: &Position) -> (r: Result<(), WireError>)
    ensures
        r is Ok <==> has_cell(*pos),
        r matches Err(e) ==> e == WireError::BadPosition,
{
    if (pos.lat_bits >> 52) & 0x7ff == 0x7ff || (pos.lon_bits >> 52) & 0x7ff == 0x7ff {
        Err(WireError::BadPosition)
    } else {
        Ok(())
    }
}

/// Reads the instant of a text.
fn read_instant(text: &str) -> (r: Option<Timestamp>)
    ensures
        match r {
            Some(t) => instant_of(text@) == Some((t.spec_secs(), t.spec_nanos())) && t.wf(),
            None => instant_of(text@) is None,
        },
{
    match parse_instant(text) {
        Some((secs, nanos)) => Timestamp::new(secs, nanos),
        None => None,
    }
}

/// The observation that a travelling one stands for. The identifier is
/// taken as it came, not derived. An uncertainty of zero stands for none,
/// and so does a provenance that is empty or no JSON. A latitude or a
/// longitude that is no finite number is refused: such a position lies in
/// no cell.
pub fn decode_observation(w: WireObservation) -> (r: Result<Observation, WireError>)
    ensures
        match r {
            Ok(o) => {
                &&& decoded(w) == Ok::<(u128, (i64, u32), Position), WireError>(
                    (o.entity_id, (o.t.spec_secs(), o.t.spec_nanos()), o.pos),
                )
                &&& o.obs_id == w.obs_id
                &&& o.quality_bits == w.quality_bits
                &&& o.sigma_m_bits == if is_zero_bits(w.sigma_m_bits) {
                    None
                } else {
                    Some(w.sigma_m_bits)
                }
                &&& match o.source {
                    Some(text) => source_of(w.source_json@) == Some(text@),
                    None => source_of(w.source_json@) is None,
                }
            },
            Err(e) => decoded(w) == Err::<(u128, (i64, u32), Position), WireError>(e),
        },
{
    let t = match read_instant(w.t.as_str()) {
        Some(t) => t,
        None => {
            return Err(WireError::BadTime);
        },
    };
    let pos = match w.pos {
        Some(p) => p,
        None => {
            return Err(WireError::MissingPosition);
        },
    };
    match check_position(&pos) {
        Ok(()) => {},
        Err(e) => {
            return Err(e);
        },
    }
    let entity_id = match parse_uuid(w.entity_id.as_str()) {
        Some(e) => e,
        None => {
            return Err(WireError::BadUuid);
        },
    };
    let source = if w.source_json.as_str().unicode_len() == 0 {
        None
    } else {
        normalize_json(w.source_json.as_str())
    };
    let sigma_m_bits = if w.sigma_m_bits == 0 || w.sigma_m_bits == 0x8000_0000_0000_0000 {
        None
    } else {
        Some(w.sigma_m_bits)
    };
    Ok(
        Observation {
            obs_id: w.obs_id,
            entity_id,
            t,
            pos,
            quality_bits: w.quality_bits,
            sigma_m_bits,
            source,
        },
    )
}

/// Whether every observation of a batch decodes.
pub open spec fn all_decode(batch: Seq<WireObservation>) -> bool {
    forall|i: int| 0 <= i < batch.len() ==> decoded(#[trigger] batch[i]) is Ok
}

/// Whether `i` is the place of the first observation of a batch that does
/// not decode.
pub open spec fn first_failure(batch: Seq<WireObservation>, i: int) -> bool {
    &&& 0 <= i < batch.len()
    &&& decoded(batch[i]) is Err
    &&& forall|j: int| 0 <= j < i ==> decoded(#[trigger] batch[j]) is Ok
}

/// The observations of a request for ingestion. Where one of them is
/// malformed the request is refused as a whole, with what is amiss with
/// the first such.
pub fn decode_batch(batch: Vec<WireObservation>) -> (r: Result<Vec<Observation>, WireError>)
    ensures
        match r {
            Ok(v) => all_decode(batch@) && v@.len() == batch@.len() && forall|i: int|
                0 <= i < v@.len() ==> decoded(batch@[i]) == Ok::<
                    (u128, (i64, u32), Position),
                    WireError,
                >(
                    (
                        (#[trigger] v@[i]).entity_id,
                        (v@[i].t.spec_secs(), v@[i].t.spec_nanos()),
                        v@[i].pos,
                    ),
                ) && v@[i].obs_id == batch@[i].obs_id,
            Err(e) => exists|i: int|
                first_failure(batch@, i) && decoded(batch@[i]) == Err::<
                    (u128, (i64, u32), Position),
                    WireError,
                >(e),
        },
{
    let ghost s = batch@;
    let mut out: Vec<Observation> = Vec::new();
    for w in it: batch
        invariant
            s == it.seq(),
            out@.len() == it.index(),
            forall|j: int| 0 <= j < it.index() ==> decoded(#[trigger] s[j]) is Ok,
            forall|i: int|
                0 <= i < out@.len() ==> decoded(s[i]) == Ok::<
                    (u128, (i64, u32), Position),
                    WireError,
                >(
                    (
                        (#[trigger] out@[i]).entity_id,
                        (out@[i].t.spec_secs(), out@[i].t.spec_nanos()),
                        out@[i].pos,
                    ),
                ) && out@[i].obs_id == s[i].obs_id,
    {
        let ghost i = it.index() as int;
        proof {
            assert(s[i] == w);
        }
        match decode_observation(w) {
            Ok(o) => {
                out.push(o);
            },
            Err(e) => {
                proof {
                    assert(first_failure(s, i));
                }
                return Err(e);
            },
        }
    }
    Ok(out)
}

/// The center and the window of a query from the center's coordinates
/// and the texts of the window's ends. The start is looked at first, then
/// the end, then the center.
pub fn decode_query(center: &Position, t0: &str, t1: &str) -> (r: Result<
    (Timestamp, Timestamp),
    WireError,
>)
    ensures
        match r {
            Ok((a, b)) => instant_of(t0@) == Some((a.spec_secs(), a.spec_nanos())) && instant_of(
                t1@,
            ) == Some((b.spec_secs(), b.spec_nanos())) && has_cell(*center),
            Err(e) => if instant_of(t0@) is None {
                e == WireError::BadStart
            } else if instant_of(t1@) is None {
                e == WireError::BadEnd
            } else {
                e == WireError::BadPosition && !has_cell(*center)
            },
        },
{
    let window = match decode_window(t0, t1) {
        Ok(w) => w,
        Err(e) => {
            return Err(e);
        },
    };
    match check_position(center) {
        Ok(()) => Ok(window),
        Err(e) => Err(e),
    }
}

/// The window of a query from the texts of its ends.
pub fn decode_window(t0: &str, t1: &str) -> (r: Result<(Timestamp, Timestamp), WireError>)
    ensures
        match r {
            Ok((a, b)) => instant_of(t0@) == Some((a.spec_secs(), a.spec_nanos())) && instant_of(
                t1@,
            ) == Some((b.spec_secs(), b.spec_nanos())),
            Err(e) => if instant_of(t0@) is None {
                e == WireError::BadStart
            } else {
                e == WireError::BadEnd && instant_of(t1@) is None
            },
        },
{
    let a = match read_instant(t0) {
        Some(t) => t,
        None => {
            return Err(WireError::BadStart);
        },
    };
    let b = match read_instant(t1) {
        Some(t) => t,
        None => {
            return Err(WireError::BadEnd);
        },
    };
    Ok((a, b))
}

/// An observation as it travels: the entity and the instant as text, an
/// uncertainty of zero for none, an empty provenance for none.
pub fn encode_observation(o: &Observation) -> (w: WireObservation)
    ensures
        w.obs_id == o.obs_id,
        w.entity_id@ == uuid_text(o.entity_id),
        rfc3339_text(o.t.spec_secs(), o.t.spec_nanos()) == Some(w.t@),
        w.pos == Some(o.pos),
        w.quality_bits == o.quality_bits,
        w.sigma_m_bits == match o.sigma_m_bits {
            Some(bits) => bits,
            None => 0,
        },
        w.source_json@ == match o.source {
            Some(text) => text@,
            None => Seq::<char>::empty(),
        },
{
    let t = match format_instant(o.t.secs(), o.t.nanos()) {
        Some(text) => text,
        None => {
            proof {
                use_type_invariant(&o.t);
            }
            String::new()
        },
    };
    let source_json = match &o.source {
        Some(text) => text.clone(),
        None => String::new(),
    };
    WireObservation {
        obs_id: o.obs_id,
        entity_id: format_uuid(o.entity_id),
        t,
        pos: Some(o.pos),
        quality_bits: o.quality_bits,
        sigma_m_bits: match o.sigma_m_bits {
            Some(bits) => bits,
            None => 0,
        },
        source_json,
    }
}

/// The first `limit` of the results of a query, or all where there are
/// fewer.
pub fn limit_results(found: Vec<Observation>, limit: usize) -> (r: Vec<Observation>)
    ensures
        r@ == found@.take(
            if limit <= found@.len() {
                limit as int
            } else {
                found@.len() as int
            },
        ),
{
    let ghost all = found@;
    let mut kept = found;
    if limit < kept.len() {
        kept.truncate(limit);
    }
    proof {
        assert(kept@ =~= all.take(
            if limit <= all.len() {
                limit as int
            } else {
                all.len() as int
            },
        ));
    }
    kept
}

} // verus!
