//! Parsing one registry page: a trusted JSON boundary and verified
//! normalization of the candidate records.

use crate::record::Crate;
use crate::record::CrateView;
use crate::store::views_of;
use crate::text::lower_of;
use crate::text::str_eq;
use crate::text::to_lower;
use vstd::prelude::*;

verus! {

/// Candidate slots enumerated by one page response.
pub const PAGE_SLOTS: usize = 100;

/// One candidate exactly as read from a page response: the stringified
/// `name`, `max_version` and `description` fields of one slot.
pub struct RawCandidate {
    pub name: String,
    pub version: String,
    pub description: String,
}

/// The field triples of a sequence of raw candidates.
pub open spec fn raw_views(raw: Seq<RawCandidate>) -> Seq<(Seq<char>, Seq<char>, Seq<char>)> {
    raw.map_values(|c: RawCandidate| (c.name@, c.version@, c.description@))
}

/// The stringified `(name, max_version, description)` triples of the first
/// `slots` entries of the `crates` array in the JSON text `body`. They are
/// a function of `body` and `slots` alone.
pub uninterp spec fn page_candidates(body: Seq<char>, slots: int) -> Seq<
    (Seq<char>, Seq<char>, Seq<char>),
>;

/// Whether the JSON parser accepts `body`.
pub uninterp spec fn json_accepts(body: Seq<char>) -> bool;

/// The parse error of the `json` crate, declared opaquely so the trusted
/// decoder below can return it.
#[verifier::external_type_specification]
#[verifier::external_body]
pub struct ExJsonError(json::Error);

/// Relies on `json::parse` and `json::JsonValue`: `parse` accepts exactly
/// the well-formed JSON texts (named `json_accepts`); indexing a
/// non-object, a missing member or an out-of-range array slot yields the
/// null value; `to_string` renders a string value as its raw characters
/// and the null value as `null`. The triples read from the first `slots`
/// slots of the `crates` array depend on `body` and `slots` alone and are
/// named `page_candidates`.
#[verifier::external_body]
fn decode_page(body: &str, slots: usize) -> (r: Result<Vec<RawCandidate>, json::Error>)
    ensures
        r is Ok <==> json_accepts(body@),
        r is Ok ==> raw_views(r->Ok_0@) == page_candidates(body@, slots as int),
        r is Ok ==> r->Ok_0@.len() == slots,
{
    let root = match json::parse(body) {
        Ok(root) => root,
        Err(e) => return Err(e),
    };
    let mut out = Vec::new();
    for i in 0..slots {
        out.push(RawCandidate {
            name: root["crates"][i]["name"].to_string(),
            version: root["crates"][i]["max_version"].to_string(),
            description: root["crates"][i]["description"].to_string(),
        });
    }
    Ok(out)
}

/// The stringified form of an absent or null version field.
pub open spec fn null_sentinel() -> Seq<char> {
    "null"@
}

/// The record a kept candidate becomes: name and description lower-cased,
/// version as reported.
pub open spec fn normalized(c: (Seq<char>, Seq<char>, Seq<char>)) -> CrateView {
    CrateView { name: lower_of(c.0), version: c.1, description: lower_of(c.2) }
}

/// A candidate whose version is the null sentinel produces no record;
/// every other candidate produces exactly one normalized record, in order.
pub open spec fn normalize_spec(raw: Seq<(Seq<char>, Seq<char>, Seq<char>)>) -> Seq<CrateView>
    decreases raw.len(),
{
    if raw.len() == 0 {
        Seq::empty()
    } else {
        let rest = normalize_spec(raw.drop_last());
        if raw.last().1 == null_sentinel() {
            rest
        } else {
            rest.push(normalized(raw.last()))
        }
    }
}

/// Normalize the candidates of one page: drop every candidate whose
/// version is the null sentinel, lower-case name and description of the
/// rest.
pub fn normalize_candidates(raw: &Vec<RawCandidate>) -> (out: Vec<Crate>)
    ensures
        views_of(out@) == normalize_spec(raw_views(raw@)),
{
    let n = raw.len();
    let mut out: Vec<Crate> = Vec::new();
    let mut i: usize = 0;
    while i < n
        invariant
            n == raw@.len(),
            0 <= i <= n,
            views_of(out@) == normalize_spec(raw_views(raw@.take(i as int))),
        decreases n - i,
    {
        let ghost prefix = raw_views(raw@.take(i as int));
        let ghost next = raw_views(raw@.take(i + 1));
        proof {
            assert(next.drop_last() =~= prefix);
            assert(next.last() == (raw@[i as int].name@, raw@[i as int].version@, raw@[i as int].description@));
        }
        let c = &raw[i];
        if !str_eq(c.version.as_str(), "null") {
            let ghost prev_out = out@;
            out.push(
                Crate {
                    name: to_lower(c.name.as_str()),
                    version: c.version.clone(),
                    description: to_lower(c.description.as_str()),
                },
            );
            proof {
                assert(views_of(out@) =~= views_of(prev_out).push(normalized(next.last())));
            }
        }
        i = i + 1;
    }
    proof {
        assert(raw@.take(n as int) =~= raw@);
    }
    out
}

/// One candidate alone: a null-sentinel version produces no record at
/// all; any other version produces exactly one normalized record.
pub proof fn lemma_single_candidate(c: (Seq<char>, Seq<char>, Seq<char>))
    ensures
        c.1 == null_sentinel() ==> normalize_spec(seq![c]) == Seq::<CrateView>::empty(),
        c.1 != null_sentinel() ==> normalize_spec(seq![c]) == seq![normalized(c)],
{
    assert(seq![c].drop_last() =~= Seq::<(Seq<char>, Seq<char>, Seq<char>)>::empty());
    assert(normalize_spec(Seq::<(Seq<char>, Seq<char>, Seq<char>)>::empty())
        == Seq::<CrateView>::empty());
    if c.1 != null_sentinel() {
        assert(normalize_spec(seq![c]) =~= seq![normalized(c)]);
    }
}

/// No record a page produces carries the null-sentinel version.
pub proof fn lemma_no_null_version(raw: Seq<(Seq<char>, Seq<char>, Seq<char>)>)
    ensures
        forall|k: int|
            0 <= k < normalize_spec(raw).len() ==> (#[trigger] normalize_spec(raw)[k]).version
                != null_sentinel(),
    decreases raw.len(),
{
    if raw.len() > 0 {
        lemma_no_null_version(raw.drop_last());
        let rest = normalize_spec(raw.drop_last());
        if raw.last().1 != null_sentinel() {
            assert(normalize_spec(raw) == rest.push(normalized(raw.last())));
            assert forall|k: int| 0 <= k < normalize_spec(raw).len() implies (
            #[trigger] normalize_spec(raw)[k]).version != null_sentinel() by {
                if k < rest.len() {
                    assert(normalize_spec(raw)[k] == rest[k]);
                } else {
                    assert(normalize_spec(raw)[k] == normalized(raw.last()));
                }
            }
        }
    }
}

/// The records of one page body: its first `PAGE_SLOTS` candidates,
/// normalized.
pub open spec fn page_records(body: Seq<char>) -> Seq<CrateView> {
    normalize_spec(page_candidates(body, PAGE_SLOTS as int))
}

/// Decode one page body and normalize its candidates. Yields `None`
/// exactly when the body is not well-formed JSON.
pub fn parse_page(body: &str) -> (r: Option<Vec<Crate>>)
    ensures
        r is Some <==> json_accepts(body@),
        r is Some ==> views_of(r->0@) == page_records(body@),
{
    match decode_page(body, PAGE_SLOTS) {
        Ok(raw) => Some(normalize_candidates(&raw)),
        Err(_) => None,
    }
}

} // verus!
