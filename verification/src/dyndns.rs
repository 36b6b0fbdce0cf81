//! The DynDNS2 update protocol: parsing the client's comma-separated
//! IP list into typed, normalised record updates, validating the
//! requested hostname against the configured origin, and planning the
//! provider mutations that reconcile the request with the existing
//! records.

use vstd::prelude::*;
use crate::provider::{DnsRecordType, DnsEntry, RecordId, Origin, spec_is_subdomain};
use crate::ipv4::{spec_parse_ipv4, spec_ipv4_str, parse_ipv4, ipv4_string};
use crate::ipv6::{spec_parse_ipv6, spec_ipv6_str, parse_ipv6, ipv6_string};
use crate::text::{spec_split, spec_join, split_char, contains_char, push_char};

verus! {

/// The query parameters of an update request.
#[derive(Debug, Clone)]
pub struct UpdateQuery {
    pub myip: String,
    pub hostname: String,
}

/// Classifies and normalises one comma-separated part: a part with a
/// dot must be a strict IPv4 literal and becomes an `A` update, a
/// part with a colon and no dot must be a strict IPv6 literal and
/// becomes an `AAAA` update, anything else is rejected. The address
/// is replaced by its canonical string form.
pub open spec fn spec_parse_part(p: Seq<char>) -> Option<(DnsRecordType, Seq<char>)> {
    if p.contains('.') {
        match spec_parse_ipv4(p) {
            Some(ip) => Some((DnsRecordType::A, spec_ipv4_str(ip))),
            None => None,
        }
    } else if p.contains(':') {
        match spec_parse_ipv6(p) {
            Some(groups) => Some((DnsRecordType::AAAA, spec_ipv6_str(groups))),
            None => None,
        }
    } else {
        None
    }
}

/// Parses a whole `myip` value: every comma-separated part must parse,
/// or the whole update is rejected. Order is preserved and duplicate
/// record types are retained.
pub open spec fn spec_parse_update(s: Seq<char>) -> Option<Seq<(DnsRecordType, Seq<char>)>> {
    let parts = spec_split(s, ',');
    if forall|i: int| 0 <= i < parts.len() ==> (#[trigger] spec_parse_part(parts[i])).is_some() {
        Some(Seq::new(parts.len(), |i: int| spec_parse_part(parts[i]).unwrap()))
    } else {
        None
    }
}

/// The position of the first part that fails to parse, at or after `j`.
pub open spec fn first_bad_from(parts: Seq<Seq<char>>, j: int) -> Option<int>
    decreases parts.len() - j,
{
    if j < 0 || j >= parts.len() {
        None
    } else if spec_parse_part(parts[j]).is_none() {
        Some(j)
    } else {
        first_bad_from(parts, j + 1)
    }
}

/// Why a `myip` value was rejected; each variant carries the first
/// offending part.
#[derive(Debug, Clone)]
pub enum ParseError {
    /// The part contains neither a dot nor a colon.
    NeitherIpv4NorIpv6 { part: String },
    /// The part contains a dot but is not a strict IPv4 literal.
    InvalidIpv4 { part: String },
    /// The part contains a colon but is not a strict IPv6 literal.
    InvalidIpv6 { part: String },
}

impl ParseError {
    /// The rejected part the error reports.
    pub open spec fn spec_part(&self) -> Seq<char> {
        match self {
            ParseError::NeitherIpv4NorIpv6 { part } => part@,
            ParseError::InvalidIpv4 { part } => part@,
            ParseError::InvalidIpv6 { part } => part@,
        }
    }

    /// A diagnostic line naming the offending part.
    pub fn message(&self) -> (r: String)
        ensures
            match self {
                ParseError::NeitherIpv4NorIpv6 { part } => r@ == "IP part '"@ + part@
                    + "' is neither IPv4 nor IPv6"@,
                ParseError::InvalidIpv4 { part } => r@ == "could not parse IPv4 from '"@ + part@
                    + "'"@,
                ParseError::InvalidIpv6 { part } => r@ == "could not parse IPv6 from '"@ + part@
                    + "'"@,
            },
    {
        match self {
            ParseError::NeitherIpv4NorIpv6 { part } => {
                let mut m = "IP part '".to_owned();
                m.append(part.as_str());
                m.append("' is neither IPv4 nor IPv6");
                m
            },
            ParseError::InvalidIpv4 { part } => {
                let mut m = "could not parse IPv4 from '".to_owned();
                m.append(part.as_str());
                m.append("'");
                m
            },
            ParseError::InvalidIpv6 { part } => {
                let mut m = "could not parse IPv6 from '".to_owned();
                m.append(part.as_str());
                m.append("'");
                m
            },
        }
    }
}

/// The parsed form of a `myip` value: the typed, canonicalised update
/// pairs, in input order, never empty.
#[derive(Debug, Clone)]
pub struct ParsedIpUpdate {
    pub record_update: Vec<(DnsRecordType, String)>,
}

impl ParsedIpUpdate {
    /// The pairs as record type and canonical address string.
    pub open spec fn pairs(&self) -> Seq<(DnsRecordType, Seq<char>)> {
        self.record_update@.map_values(|p: (DnsRecordType, String)| (p.0, p.1@))
    }

    /// A parsed update never holds zero entries.
    pub open spec fn wf(&self) -> bool {
        self.pairs().len() >= 1
    }

    /// Parses and normalises one part.
    fn parse_part(p: &String) -> (r: Option<(DnsRecordType, String)>)
        ensures
            match r {
                Some(pair) => spec_parse_part(p@) == Some((pair.0, pair.1@)),
                None => spec_parse_part(p@) == None::<(DnsRecordType, Seq<char>)>,
            },
    {
        if contains_char(p.as_str(), '.') {
            match parse_ipv4(p.as_str()) {
                Some(ip) => Some((DnsRecordType::A, ipv4_string(&ip))),
                None => None,
            }
        } else if contains_char(p.as_str(), ':') {
            match parse_ipv6(p.as_str()) {
                Some(ip) => Some((DnsRecordType::AAAA, ipv6_string(&ip))),
                None => None,
            }
        } else {
            None
        }
    }

    /// Parses a `myip` value. Succeeds exactly when every
    /// comma-separated part is a strict IPv4 or IPv6 literal, and then
    /// yields one typed pair per part, in order, each address in
    /// canonical form. Fails atomically on the first offending part,
    /// which the error names.
    pub fn from_str(s: &str) -> (r: Result<ParsedIpUpdate, ParseError>)
        ensures
            match r {
                Ok(u) => {
                    &&& u.wf()
                    &&& spec_parse_update(s@) == Some(u.pairs())
                },
                Err(e) => {
                    &&& spec_parse_update(s@) == None::<Seq<(DnsRecordType, Seq<char>)>>
                    &&& {
                        let parts = spec_split(s@, ',');
                        let k = first_bad_from(parts, 0);
                        &&& k.is_some()
                        &&& e.spec_part() == parts[k.unwrap()]
                        &&& match e {
                            ParseError::NeitherIpv4NorIpv6 { part } => !part@.contains('.')
                                && !part@.contains(':'),
                            ParseError::InvalidIpv4 { part } => part@.contains('.')
                                && spec_parse_ipv4(part@) == None::<crate::ipv4::Ipv4>,
                            ParseError::InvalidIpv6 { part } => !part@.contains('.')
                                && part@.contains(':') && spec_parse_ipv6(part@) == None::<
                                Seq<u16>,
                            >,
                        }
                    }
                },
            },
    {
        let parts = split_char(s, ',');
        let ghost pseq = parts@.map_values(|p: String| p@);
        let n = parts.len();
        let mut record_update: Vec<(DnsRecordType, String)> = Vec::new();
        let mut i: usize = 0;
        while i < n
            invariant
                i <= n,
                n == parts@.len(),
                pseq == parts@.map_values(|p: String| p@),
                pseq == spec_split(s@, ','),
                record_update@.len() == i,
                forall|j: int|
                    0 <= j < i ==> (#[trigger] spec_parse_part(pseq[j])).is_some(),
                forall|j: int|
                    0 <= j < i ==> spec_parse_part(pseq[j]) == Some(
                        (
                            #[trigger] record_update@[j].0,
                            record_update@[j].1@,
                        ),
                    ),
            decreases n - i,
        {
            let part = &parts[i];
            match Self::parse_part(part) {
                Some(pair) => {
                    record_update.push(pair);
                },
                None => {
                    proof {
                        lemma_first_bad(pseq, 0, i as int);
                    }
                    let dot = contains_char(part.as_str(), '.');
                    let colon = contains_char(part.as_str(), ':');
                    let owned = part.clone();
                    if dot {
                        return Err(ParseError::InvalidIpv4 { part: owned });
                    } else if colon {
                        return Err(ParseError::InvalidIpv6 { part: owned });
                    } else {
                        return Err(ParseError::NeitherIpv4NorIpv6 { part: owned });
                    }
                },
            }
            i += 1;
        }
        let u = ParsedIpUpdate { record_update };
        proof {
            crate::text::lemma_split_nonempty(s@, ',');
            assert(u.pairs() =~= Seq::new(
                pseq.len(),
                |j: int| spec_parse_part(pseq[j]).unwrap(),
            ));
        }
        Ok(u)
    }
}

/// Why an update request is rejected before any provider call is
/// made.
#[derive(Debug, Clone)]
pub enum UpdateRejection {
    /// The `myip` value did not parse; the client error names the
    /// offending part.
    InvalidIp { error: ParseError },
    /// The requested hostname is not a strict subdomain of the
    /// configured origin.
    NotSubdomain,
}

/// Validates an update request: the `myip` value is parsed first, and
/// only a well-formed update has its hostname checked against the
/// origin.
pub fn validate_request(origin: &Origin, query: &UpdateQuery) -> (r: Result<
    ParsedIpUpdate,
    UpdateRejection,
>)
    ensures
        match r {
            Ok(u) => {
                &&& u.wf()
                &&& spec_parse_update(query.myip@) == Some(u.pairs())
                &&& spec_is_subdomain(origin.0@, query.hostname@)
            },
            Err(rej) => match rej {
                UpdateRejection::InvalidIp { error } => spec_parse_update(query.myip@) == None::<
                    Seq<(DnsRecordType, Seq<char>)>,
                >,
                UpdateRejection::NotSubdomain => {
                    &&& spec_parse_update(query.myip@).is_some()
                    &&& !spec_is_subdomain(origin.0@, query.hostname@)
                },
            },
        },
{
    let update = match ParsedIpUpdate::from_str(query.myip.as_str()) {
        Ok(u) => u,
        Err(e) => { return Err(UpdateRejection::InvalidIp { error: e }) },
    };
    if !origin.is_subdomain(query.hostname.as_str()) {
        return Err(UpdateRejection::NotSubdomain);
    }
    Ok(update)
}

/// The records whose name equals the requested hostname, in provider
/// order.
pub open spec fn spec_filter_host(records: Seq<DnsEntry>, host: Seq<char>) -> Seq<DnsEntry>
    decreases records.len(),
{
    if records.len() == 0 {
        Seq::empty()
    } else {
        let front = spec_filter_host(records.drop_last(), host);
        if records.last().name@ == host {
            front.push(records.last())
        } else {
            front
        }
    }
}

/// The position of the first record of type `t`, at or after `j`.
pub open spec fn first_match_from(records: Seq<DnsEntry>, t: DnsRecordType, j: int) -> Option<int>
    decreases records.len() - j,
{
    if j < 0 || j >= records.len() {
        None
    } else if records[j].typ == t {
        Some(j)
    } else {
        first_match_from(records, t, j + 1)
    }
}

/// The provider mutations an update asks for: one per pair whose type
/// has a matching record, in input order, each naming the first
/// matching record's id and the pair's canonical address. Pairs
/// without a matching record are skipped; the service never creates
/// records.
pub open spec fn spec_plan(
    fr: Seq<DnsEntry>,
    pairs: Seq<(DnsRecordType, Seq<char>)>,
) -> Seq<(Seq<char>, Seq<char>)>
    decreases pairs.len(),
{
    if pairs.len() == 0 {
        Seq::empty()
    } else {
        let front = spec_plan(fr, pairs.drop_last());
        let p = pairs.last();
        match first_match_from(fr, p.0, 0) {
            Some(k) => front.push((fr[k].id.0@, p.1)),
            None => front,
        }
    }
}

/// Locates the first matching record, as `first_match_from` does.
proof fn lemma_first_match(records: Seq<DnsEntry>, t: DnsRecordType, j: int, i: int)
    requires
        0 <= j <= i <= records.len(),
        forall|k: int| j <= k < i ==> (#[trigger] records[k]).typ != t,
        i < records.len() ==> records[i].typ == t,
    ensures
        first_match_from(records, t, j) == if i < records.len() {
            Some(i)
        } else {
            None::<int>
        },
    decreases i - j,
{
    if j < i {
        lemma_first_match(records, t, j + 1, i);
    }
}

/// Every filtered record carries the hostname and comes from the
/// record list.
proof fn lemma_filter_host_members(records: Seq<DnsEntry>, host: Seq<char>)
    ensures
        forall|i: int|
            0 <= i < spec_filter_host(records, host).len() ==> (#[trigger] spec_filter_host(
                records,
                host,
            )[i]).name@ == host,
        forall|i: int|
            0 <= i < spec_filter_host(records, host).len() ==> exists|j: int|
                0 <= j < records.len() && records[j] == (#[trigger] spec_filter_host(
                    records,
                    host,
                )[i]),
    decreases records.len(),
{
    if records.len() > 0 {
        lemma_filter_host_members(records.drop_last(), host);
        let fr = spec_filter_host(records, host);
        let front = spec_filter_host(records.drop_last(), host);
        assert forall|i: int| 0 <= i < fr.len() implies fr[i].name@ == host && exists|j: int|
            0 <= j < records.len() && records[j] == fr[i] by {
            if i < front.len() {
                assert(fr[i] == front[i]);
                let j = choose|j: int|
                    0 <= j < records.drop_last().len() && records.drop_last()[j] == front[i];
                assert(records[j] == fr[i]);
            } else {
                assert(fr[i] == records.last());
                assert(records[records.len() - 1] == fr[i]);
            }
        }
    }
}

/// A found first match lies within the records and has the type.
proof fn lemma_first_match_found(records: Seq<DnsEntry>, t: DnsRecordType, j: int)
    requires
        0 <= j,
    ensures
        first_match_from(records, t, j).is_some() ==> {
            let k = first_match_from(records, t, j).unwrap();
            &&& j <= k < records.len()
            &&& records[k].typ == t
        },
    decreases records.len() - j,
{
    if j < records.len() && records[j].typ != t {
        lemma_first_match_found(records, t, j + 1);
    }
}

/// The service never creates or deletes a record: every planned
/// mutation names the id of a record the provider listed, and that
/// record's name is exactly the requested hostname.
pub proof fn lemma_plan_touches_only_existing(
    records: Seq<DnsEntry>,
    host: Seq<char>,
    pairs: Seq<(DnsRecordType, Seq<char>)>,
)
    ensures
        forall|k: int|
            0 <= k < spec_plan(spec_filter_host(records, host), pairs).len() ==> exists|j: int|
                0 <= j < records.len() && (#[trigger] records[j]).id.0@ == (#[trigger] spec_plan(
                    spec_filter_host(records, host),
                    pairs,
                )[k]).0 && records[j].name@ == host,
    decreases pairs.len(),
{
    let fr = spec_filter_host(records, host);
    let plan = spec_plan(fr, pairs);
    if pairs.len() > 0 {
        lemma_plan_touches_only_existing(records, host, pairs.drop_last());
        let front = spec_plan(fr, pairs.drop_last());
        lemma_filter_host_members(records, host);
        lemma_first_match_found(fr, pairs.last().0, 0);
        assert forall|k: int| 0 <= k < plan.len() implies exists|j: int|
            0 <= j < records.len() && (#[trigger] records[j]).id.0@ == (#[trigger] plan[k]).0
                && records[j].name@ == host by {
            if k < front.len() {
                assert(plan[k] == front[k]);
                let j = choose|j: int|
                    0 <= j < records.len() && (#[trigger] records[j]).id.0@ == front[k].0
                        && records[j].name@ == host;
                assert(records[j].id.0@ == plan[k].0 && records[j].name@ == host);
            } else {
                let m = first_match_from(fr, pairs.last().0, 0).unwrap();
                assert(plan[k] == (fr[m].id.0@, pairs.last().1));
                let j = choose|j: int| 0 <= j < records.len() && records[j] == fr[m];
                assert(records[j].id.0@ == plan[k].0 && records[j].name@ == host);
            }
        }
    }
}

/// Keeps the records whose name equals the hostname.
pub fn filter_records_for_host(records: &Vec<DnsEntry>, hostname: &String) -> (r: Vec<DnsEntry>)
    ensures
        r@ == spec_filter_host(records@, hostname@),
{
    let mut out: Vec<DnsEntry> = Vec::new();
    let mut i: usize = 0;
    while i < records.len()
        invariant
            i <= records@.len(),
            out@ == spec_filter_host(records@.take(i as int), hostname@),
        decreases records@.len() - i,
    {
        proof {
            assert(records@.take(i + 1).drop_last() =~= records@.take(i as int));
            assert(records@.take(i + 1).last() == records@[i as int]);
        }
        if records[i].name == *hostname {
            let e = &records[i];
            out.push(
                DnsEntry {
                    typ: e.typ,
                    id: RecordId(e.id.0.clone()),
                    name: e.name.clone(),
                    content: e.content.clone(),
                },
            );
            proof {
                assert(out@ =~= spec_filter_host(records@.take(i + 1), hostname@));
            }
        }
        i += 1;
    }
    proof {
        assert(records@.take(records@.len() as int) =~= records@);
    }
    out
}

/// The first record in `fr` whose type is `t`.
fn find_first_match(fr: &Vec<DnsEntry>, t: DnsRecordType) -> (r: Option<usize>)
    ensures
        match r {
            Some(k) => k < fr@.len() && first_match_from(fr@, t, 0) == Some(k as int),
            None => first_match_from(fr@, t, 0) == None::<int>,
        },
{
    let mut k: usize = 0;
    while k < fr.len()
        invariant
            k <= fr@.len(),
            forall|j: int| 0 <= j < k ==> (#[trigger] fr@[j]).typ != t,
        decreases fr@.len() - k,
    {
        if fr[k].typ == t {
            proof {
                lemma_first_match(fr@, t, 0, k as int);
            }
            return Some(k);
        }
        k += 1;
    }
    proof {
        lemma_first_match(fr@, t, 0, fr@.len() as int);
    }
    None
}

/// Computes the mutations for an update against the listed records:
/// the pairs are taken in input order, each matched against the
/// records whose name equals the hostname, and a pair without a
/// matching record type is skipped.
pub fn plan_updates(records: &Vec<DnsEntry>, hostname: &String, update: &ParsedIpUpdate) -> (plan:
    Vec<(RecordId, String)>)
    ensures
        plan@.map_values(|c: (RecordId, String)| (c.0.0@, c.1@)) == spec_plan(
            spec_filter_host(records@, hostname@),
            update.pairs(),
        ),
{
    let fr = filter_records_for_host(records, hostname);
    let mut plan: Vec<(RecordId, String)> = Vec::new();
    let n = update.record_update.len();
    let mut i: usize = 0;
    while i < n
        invariant
            i <= n,
            n == update.record_update@.len(),
            fr@ == spec_filter_host(records@, hostname@),
            plan@.map_values(|c: (RecordId, String)| (c.0.0@, c.1@)) == spec_plan(
                fr@,
                update.pairs().take(i as int),
            ),
        decreases n - i,
    {
        proof {
            assert(update.pairs().take(i + 1).drop_last() =~= update.pairs().take(i as int));
            assert(update.pairs().take(i + 1).last() == update.pairs()[i as int]);
        }
        let pair = &update.record_update[i];
        match find_first_match(&fr, pair.0) {
            Some(k) => {
                plan.push((RecordId(fr[k].id.0.clone()), pair.1.clone()));
                proof {
                    assert(plan@.map_values(|c: (RecordId, String)| (c.0.0@, c.1@)) =~= spec_plan(
                        fr@,
                        update.pairs().take(i + 1),
                    ));
                }
            },
            None => {
                proof {
                    assert(plan@.map_values(|c: (RecordId, String)| (c.0.0@, c.1@)) =~= spec_plan(
                        fr@,
                        update.pairs().take(i + 1),
                    ));
                }
            },
        }
        i += 1;
    }
    proof {
        assert(update.pairs().take(n as int) =~= update.pairs());
    }
    plan
}

/// The reconciliation of one request: the planned mutations, how many
/// have been issued successfully, and the addresses applied so far.
/// The caller performs each pending mutation in order and records its
/// success; a provider failure aborts the reconciliation, and what
/// was already applied stays applied.
#[derive(Debug)]
pub struct Reconciliation {
    pub plan: Vec<(RecordId, String)>,
    pub next: usize,
    pub applied: Vec<String>,
}

impl Reconciliation {
    /// The planned mutations as id and address strings.
    pub open spec fn plan_view(&self) -> Seq<(Seq<char>, Seq<char>)> {
        self.plan@.map_values(|c: (RecordId, String)| (c.0.0@, c.1@))
    }

    /// The addresses applied so far.
    pub open spec fn applied_view(&self) -> Seq<Seq<char>> {
        self.applied@.map_values(|a: String| a@)
    }

    /// The applied addresses are exactly those of the issued prefix of
    /// the plan.
    pub open spec fn wf(&self) -> bool {
        &&& self.next <= self.plan@.len()
        &&& self.applied_view() == self.plan_view().take(self.next as int).map_values(
            |c: (Seq<char>, Seq<char>)| c.1,
        )
    }

    /// Plans the reconciliation of an update against the listed
    /// records; nothing is applied yet.
    pub fn new(records: &Vec<DnsEntry>, hostname: &String, update: &ParsedIpUpdate) -> (r: Self)
        ensures
            r.wf(),
            r.next == 0,
            r.applied@.len() == 0,
            r.plan_view() == spec_plan(spec_filter_host(records@, hostname@), update.pairs()),
    {
        let plan = plan_updates(records, hostname, update);
        let r = Reconciliation { plan, next: 0, applied: Vec::new() };
        proof {
            assert(r.applied_view() =~= r.plan_view().take(0).map_values(
                |c: (Seq<char>, Seq<char>)| c.1,
            ));
        }
        r
    }

    /// The next mutation to issue, if any is left.
    pub fn next_call(&self) -> (r: Option<(RecordId, String)>)
        ensures
            match r {
                Some(c) => {
                    &&& self.next < self.plan@.len()
                    &&& c.0.0@ == self.plan_view()[self.next as int].0
                    &&& c.1@ == self.plan_view()[self.next as int].1
                },
                None => self.next >= self.plan@.len(),
            },
    {
        if self.next < self.plan.len() {
            let c = &self.plan[self.next];
            Some((RecordId(c.0.0.clone()), c.1.clone()))
        } else {
            None
        }
    }

    /// Records that the pending mutation succeeded: its address is
    /// appended to the applied list, and nothing already applied is
    /// changed or removed.
    pub fn record_success(&mut self)
        requires
            old(self).wf(),
            old(self).next < old(self).plan@.len(),
        ensures
            final(self).wf(),
            final(self).plan == old(self).plan,
            final(self).next == old(self).next + 1,
            final(self).applied_view() == old(self).applied_view().push(
                old(self).plan_view()[old(self).next as int].1,
            ),
    {
        let limit: usize = self.plan.len();
        let c = &self.plan[self.next];
        let addr = c.1.clone();
        self.applied.push(addr);
        assert(self.next < limit);
        self.next = self.next + 1;
        proof {
            assert(self.applied_view() =~= old(self).applied_view().push(
                old(self).plan_view()[old(self).next as int].1,
            ));
            assert(self.plan_view().take(self.next as int).drop_last() =~= self.plan_view().take(
                old(self).next as int,
            ));
            assert(self.applied_view() =~= self.plan_view().take(self.next as int).map_values(
                |c: (Seq<char>, Seq<char>)| c.1,
            ));
        }
    }
}

/// The success response body: one `good <address>` line per applied
/// address, in order, joined by newlines; empty when nothing was
/// applied.
pub open spec fn spec_body(addrs: Seq<Seq<char>>) -> Seq<char> {
    spec_join(addrs.map_values(|a: Seq<char>| "good "@ + a), '\n')
}

/// Builds the success response body for the applied addresses.
pub fn success_body(applied: &Vec<String>) -> (r: String)
    ensures
        r@ == spec_body(applied@.map_values(|a: String| a@)),
{
    let mut s = String::new();
    let mut i: usize = 0;
    while i < applied.len()
        invariant
            i <= applied@.len(),
            s@ == spec_body(applied@.map_values(|a: String| a@).take(i as int)),
        decreases applied@.len() - i,
    {
        if i > 0 {
            push_char(&mut s, '\n');
        }
        s.append("good ");
        s.append(applied[i].as_str());
        proof {
            let av = applied@.map_values(|a: String| a@);
            let prev = av.take(i as int).map_values(|a: Seq<char>| "good "@ + a);
            let now = av.take(i + 1).map_values(|a: Seq<char>| "good "@ + a);
            assert(now.drop_last() =~= prev);
            assert(now.last() == "good "@ + av[i as int]);
            if i == 0 {
                assert(spec_body(av.take(1)) == now[0]);
                assert(s@ =~= spec_body(av.take(i + 1)));
            } else {
                assert(spec_body(av.take(i + 1)) == spec_join(prev, '\n').push('\n')
                    + now.last());
                assert(s@ =~= spec_body(av.take(i + 1)));
            }
        }
        i += 1;
    }
    proof {
        if applied@.len() == 0 {
            assert(applied@.map_values(|a: String| a@).take(0).map_values(
                |a: Seq<char>| "good "@ + a,
            ) =~~= Seq::<Seq<char>>::empty());
        }
        assert(applied@.map_values(|a: String| a@).take(applied@.len() as int) =~= applied@
            .map_values(|a: String| a@));
    }
    s
}

/// Canonicalisation is idempotent: re-parsing the canonical address
/// of a parsed part yields the same record type and the same string.
/// IPv4-mapped IPv6 addresses are excluded: their canonical form uses
/// the dotted mixed notation, which the parser classifies as IPv4 and
/// rejects.
pub proof fn lemma_canonical_idempotent(p: Seq<char>, t: DnsRecordType, c: Seq<char>)
    requires
        spec_parse_part(p) == Some((t, c)),
        !(t == DnsRecordType::AAAA && c.contains('.')),
    ensures
        spec_parse_part(c) == Some((t, c)),
{
    match t {
        DnsRecordType::A => {
            let ip = spec_parse_ipv4(p).unwrap();
            crate::ipv4::lemma_ipv4_str_has_dot(ip);
            crate::ipv4::lemma_ipv4_roundtrip(ip);
        },
        DnsRecordType::AAAA => {
            let g = spec_parse_ipv6(p).unwrap();
            crate::ipv6::lemma_parse_ipv6_groups_len(p);
            if crate::ipv6::is_mapped(g) {
                crate::ipv4::lemma_ipv4_str_has_dot(crate::ipv6::mapped_ipv4(g));
                let v4 = spec_ipv4_str(crate::ipv6::mapped_ipv4(g));
                let i = choose|i: int| 0 <= i < v4.len() && v4[i] == '.';
                assert(c[7 + i] == '.');
                assert(c.contains('.'));
            } else {
                crate::ipv6::lemma_ipv6_str_chars(g);
                crate::ipv6::lemma_ipv6_roundtrip(g);
            }
        },
    }
}

/// Locates the first failing part, as `first_bad_from` does.
proof fn lemma_first_bad(parts: Seq<Seq<char>>, j: int, i: int)
    requires
        0 <= j <= i <= parts.len(),
        forall|k: int| j <= k < i ==> (#[trigger] spec_parse_part(parts[k])).is_some(),
        i < parts.len() ==> spec_parse_part(parts[i]).is_none(),
    ensures
        first_bad_from(parts, j) == if i < parts.len() {
            Some(i)
        } else {
            None::<int>
        },
    decreases i - j,
{
    if j < i {
        lemma_first_bad(parts, j + 1, i);
    }
}

} // verus!
