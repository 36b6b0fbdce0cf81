//! Decision logic of the REST DNS provider: resolving the configured
//! origin to a single zone, converting and filtering the records the
//! backend reports, judging mutation responses, and the structured
//! provider error with its ordered context notes. The surrounding
//! application performs the HTTP calls and hands their decoded
//! results to these functions.

use vstd::prelude::*;
use crate::provider::{DnsEntry, DnsRecordType, RecordId, Origin};

verus! {

/// A zone as the backend's zone-search endpoint reports it.
#[derive(Debug, Clone)]
pub struct ZoneInfo {
    pub id: String,
    pub name: String,
}

/// A DNS record as the backend's record-list endpoint reports it,
/// with the record type still a plain string.
#[derive(Debug, Clone)]
pub struct RawRecord {
    pub id: String,
    pub typ: String,
    pub name: String,
    pub content: String,
}

/// The provider failure taxonomy.
#[derive(Debug, Clone, Copy, PartialEq, Eq, Structural)]
pub enum ProviderErrorKind {
    /// The backend could not be reached or its answer not decoded.
    Transport,
    /// More than one zone matched the configured origin.
    AmbiguousZone,
    /// No zone matched the configured origin.
    ZoneNotFound,
    /// The backend answered a mutation with a non-success status.
    BackendRejection,
}

/// A provider failure: its kind, and the context notes attached while
/// it propagated, in order. The notes are diagnostic only; nothing
/// branches on them.
#[derive(Debug)]
pub struct ProviderError {
    pub kind: ProviderErrorKind,
    pub context: Vec<String>,
}

impl ProviderError {
    /// The context notes in the order they were attached.
    pub open spec fn context_view(&self) -> Seq<Seq<char>> {
        self.context@.map_values(|s: String| s@)
    }

    /// A fresh failure of the given kind, with no context yet.
    pub fn new(kind: ProviderErrorKind) -> (r: Self)
        ensures
            r.kind == kind,
            r.context_view() == Seq::<Seq<char>>::empty(),
    {
        let r = ProviderError { kind, context: Vec::new() };
        proof {
            assert(r.context_view() =~= Seq::<Seq<char>>::empty());
        }
        r
    }

    /// Appends one context note; the kind and the earlier notes are
    /// unchanged.
    pub fn attach(&mut self, note: String)
        ensures
            final(self).kind == old(self).kind,
            final(self).context_view() == old(self).context_view().push(note@),
    {
        self.context.push(note);
        proof {
            assert(self.context_view() =~= old(self).context_view().push(note@));
        }
    }

    /// A short description of the failure kind.
    pub fn kind_text(&self) -> (r: String)
        ensures
            match self.kind {
                ProviderErrorKind::Transport => r@ == "error calling the DNS backend"@,
                ProviderErrorKind::AmbiguousZone => r@ == "multiple zones found for origin"@,
                ProviderErrorKind::ZoneNotFound => r@ == "no zone found for origin"@,
                ProviderErrorKind::BackendRejection => r@ == "DNS backend rejected the request"@,
            },
    {
        match self.kind {
            ProviderErrorKind::Transport => "error calling the DNS backend".to_owned(),
            ProviderErrorKind::AmbiguousZone => "multiple zones found for origin".to_owned(),
            ProviderErrorKind::ZoneNotFound => "no zone found for origin".to_owned(),
            ProviderErrorKind::BackendRejection => "DNS backend rejected the request".to_owned(),
        }
    }
}

/// Resolves the configured origin against the zones the backend
/// reported. More than one zone is always a configuration error,
/// never resolved by guessing; otherwise the single zone must carry
/// exactly the origin's name.
pub fn resolve_zone(zones: &Vec<ZoneInfo>, origin: &Origin) -> (r: Result<String, ProviderError>)
    ensures
        match r {
            Ok(id) => {
                &&& zones@.len() == 1
                &&& zones@[0].name@ == origin.0@
                &&& id@ == zones@[0].id@
            },
            Err(e) => {
                &&& e.context_view().len() == 0
                &&& match e.kind {
                    ProviderErrorKind::AmbiguousZone => zones@.len() > 1,
                    ProviderErrorKind::ZoneNotFound => zones@.len() <= 1 && (forall|i: int|
                        0 <= i < zones@.len() ==> (#[trigger] zones@[i]).name@ != origin.0@),
                    _ => false,
                }
            },
        },
{
    if zones.len() > 1 {
        return Err(ProviderError::new(ProviderErrorKind::AmbiguousZone));
    }
    if zones.len() == 1 && zones[0].name == origin.0 {
        return Ok(zones[0].id.clone());
    }
    Err(ProviderError::new(ProviderErrorKind::ZoneNotFound))
}

/// How one reported record converts: `A` and `AAAA` records become
/// entries, any other type is dropped.
pub open spec fn spec_entry_from(r: RawRecord) -> Option<DnsEntry> {
    if r.typ@ == "A"@ {
        Some(DnsEntry { typ: DnsRecordType::A, id: RecordId(r.id), name: r.name, content: r.content })
    } else if r.typ@ == "AAAA"@ {
        Some(
            DnsEntry { typ: DnsRecordType::AAAA, id: RecordId(r.id), name: r.name, content: r.content },
        )
    } else {
        None
    }
}

/// Converts one reported record, keeping id, name and content.
pub fn entry_from_record(r: &RawRecord) -> (e: Option<DnsEntry>)
    ensures
        e == spec_entry_from(*r),
{
    let a = "A".to_owned();
    let aaaa = "AAAA".to_owned();
    let typ = if r.typ == a {
        Some(DnsRecordType::A)
    } else if r.typ == aaaa {
        Some(DnsRecordType::AAAA)
    } else {
        None
    };
    match typ {
        Some(t) => Some(
            DnsEntry {
                typ: t,
                id: RecordId(r.id.clone()),
                name: r.name.clone(),
                content: r.content.clone(),
            },
        ),
        None => None,
    }
}

/// The entries of a reported record list, unsupported types dropped,
/// order preserved.
pub open spec fn spec_collect_entries(rs: Seq<RawRecord>) -> Seq<DnsEntry>
    decreases rs.len(),
{
    if rs.len() == 0 {
        Seq::empty()
    } else {
        let front = spec_collect_entries(rs.drop_last());
        match spec_entry_from(rs.last()) {
            Some(e) => front.push(e),
            None => front,
        }
    }
}

/// Converts a reported record list, dropping unsupported types so the
/// protocol layer never observes a type it cannot reconcile.
pub fn collect_entries(rs: &Vec<RawRecord>) -> (out: Vec<DnsEntry>)
    ensures
        out@ == spec_collect_entries(rs@),
{
    let mut out: Vec<DnsEntry> = Vec::new();
    let mut i: usize = 0;
    while i < rs.len()
        invariant
            i <= rs@.len(),
            out@ == spec_collect_entries(rs@.take(i as int)),
        decreases rs@.len() - i,
    {
        proof {
            assert(rs@.take(i + 1).drop_last() =~= rs@.take(i as int));
            assert(rs@.take(i + 1).last() == rs@[i as int]);
        }
        match entry_from_record(&rs[i]) {
            Some(e) => {
                out.push(e);
                proof {
                    assert(out@ =~= spec_collect_entries(rs@.take(i + 1)));
                }
            },
            None => {
                proof {
                    assert(out@ =~= spec_collect_entries(rs@.take(i + 1)));
                }
            },
        }
        i += 1;
    }
    proof {
        assert(rs@.take(rs@.len() as int) =~= rs@);
    }
    out
}

/// Whether an HTTP status counts as success, as mutation responses
/// are judged.
pub open spec fn spec_status_success(status: u16) -> bool {
    200 <= status < 300
}

/// Judges the status of a mutation response: any non-success status
/// becomes a backend rejection, to which the caller attaches the
/// status and body for the operator.
pub fn mutation_outcome(status: u16) -> (r: Result<(), ProviderError>)
    ensures
        match r {
            Ok(u) => spec_status_success(status),
            Err(e) => {
                &&& !spec_status_success(status)
                &&& e.kind == ProviderErrorKind::BackendRejection
                &&& e.context_view().len() == 0
            },
        },
{
    if 200 <= status && status < 300 {
        Ok(())
    } else {
        Err(ProviderError::new(ProviderErrorKind::BackendRejection))
    }
}

} // verus!
