//! DNS provider data model: record types, record identifiers, the
//! configured origin with its subdomain policy, and provider-reported
//! DNS entries.

use vstd::prelude::*;

verus! {

/// The address-record types the service reconciles: `A` holds an IPv4
/// address, `AAAA` an IPv6 address.
#[derive(Debug, Clone, Copy, PartialEq, Eq, Structural)]
pub enum DnsRecordType {
    A,
    AAAA,
}

/// Opaque provider-assigned identifier of a DNS record. The core never
/// constructs one from scratch; it only passes identifiers back to the
/// provider that issued them.
#[derive(Debug, Clone)]
pub struct RecordId(pub String);

/// The administrator-configured DNS zone name. A hostname may only be
/// updated when it is a strict subdomain of this origin.
#[derive(Debug, Clone)]
pub struct Origin(pub String);

/// A hostname is a strict subdomain of an origin exactly when it ends
/// with `"."` followed by the origin; the origin itself does not count,
/// nor does a name that merely ends with the origin without a dot
/// boundary.
pub open spec fn spec_is_subdomain(origin: Seq<char>, domain: Seq<char>) -> bool {
    domain.len() > origin.len() && domain.subrange(
        domain.len() - origin.len() - 1,
        domain.len() as int,
    ) == seq!['.'] + origin
}

impl Origin {
    /// Decides whether `domain` may be updated under this origin.
    pub fn is_subdomain(&self, domain: &str) -> (r: bool)
        ensures
            r == spec_is_subdomain(self.0@, domain@),
    {
        let olen = self.0.as_str().unicode_len();
        let dlen = domain.unicode_len();
        if dlen <= olen {
            return false;
        }
        if domain.get_char(dlen - olen - 1) != '.' {
            assert(domain@.subrange(dlen - olen - 1, dlen as int)[0] != (seq!['.']
                + self.0@)[0]);
            return false;
        }
        let mut i: usize = 0;
        while i < olen
            invariant
                i <= olen,
                olen == self.0@.len(),
                dlen == domain@.len(),
                dlen > olen,
                domain@[dlen - olen - 1] == '.',
                forall|j: int| 0 <= j < i ==> domain@[dlen - olen + j] == self.0@[j],
            decreases olen - i,
        {
            if domain.get_char(dlen - olen + i) != self.0.as_str().get_char(i) {
                assert(domain@.subrange(dlen - olen - 1, dlen as int)[i + 1] != (seq!['.']
                    + self.0@)[i + 1]);
                return false;
            }
            i += 1;
        }
        assert(domain@.subrange(dlen - olen - 1, dlen as int) =~= seq!['.'] + self.0@);
        true
    }
}

/// A provider-reported DNS record: a read-only snapshot of its type,
/// identifier, hostname and content.
#[derive(Debug, Clone)]
pub struct DnsEntry {
    pub typ: DnsRecordType,
    pub id: RecordId,
    pub name: String,
    pub content: String,
}

} // verus!
