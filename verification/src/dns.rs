//! The DNS records that a domain needs for receiving, for sending and for being believed.
use vstd::prelude::*;

use crate::config::{domains_of, DnsProvider, DomainConfig, DomainText};
use crate::text::{copy_of, decimal, decimal_text, same_text, split, starts_with_text, texts};
use crate::text_laws::{law_decimal, law_split_first};

verus! {

broadcast use vstd::seq_lib::group_seq_properties;

/// A DNS record.
#[derive(Debug, Clone, PartialEq, Eq)]
pub struct DnsRecord {
    /// The type: `MX`, `TXT` or `CNAME`.
    pub record_type: String,
    /// The name.
    pub name: String,
    /// The value.
    pub value: String,
    /// For how many seconds it may be kept.
    pub ttl: u32,
    /// What it is for.
    pub purpose: String,
}

/// What a [`DnsRecord`] holds.
pub struct RecordText {
    pub record_type: Seq<char>,
    pub name: Seq<char>,
    pub value: Seq<char>,
    pub ttl: u32,
    pub purpose: Seq<char>,
}

impl View for DnsRecord {
    type V = RecordText;

    open spec fn view(&self) -> RecordText {
        RecordText {
            record_type: self.record_type@,
            name: self.name@,
            value: self.value@,
            ttl: self.ttl,
            purpose: self.purpose@,
        }
    }
}

/// What a list of records holds.
pub open spec fn records(v: Seq<DnsRecord>) -> Seq<RecordText> {
    v.map_values(|r: DnsRecord| r@)
}

/// The value of the MX record for a region.
pub open spec fn mx_text(region: Seq<char>) -> Seq<char> {
    "10 inbound-smtp."@ + region + ".amazonaws.com"@
}

/// The value of the MX record by which SES receives mail in a region.
pub fn inbound_mx(region: &str) -> (r: String)
    ensures
        r@ == mx_text(region@),
{
    let mut out = copy_of("10 inbound-smtp.");
    out.append(region);
    out.append(".amazonaws.com");
    out
}

/// The value of the SPF record by which SES may send for a domain.
pub fn spf_value() -> (r: String)
    ensures
        r@ == "v=spf1 include:amazonses.com ~all"@,
{
    copy_of("v=spf1 include:amazonses.com ~all")
}

/// The value of the DMARC record, with the address that reports go to.
pub open spec fn dmarc_text(rua: Seq<char>) -> Seq<char> {
    "v=DMARC1; p=none; rua=mailto:"@ + rua
}

/// The value of a DMARC record that asks for reports only.
pub fn dmarc_value(rua: &str) -> (r: String)
    ensures
        r@ == dmarc_text(rua@),
{
    let mut out = copy_of("v=DMARC1; p=none; rua=mailto:");
    out.append(rua);
    out
}

/// The record for one DKIM token.
pub open spec fn dkim_record(domain: Seq<char>, token: Seq<char>) -> RecordText {
    RecordText {
        record_type: "CNAME"@,
        name: token + "._domainkey."@ + domain,
        value: token + ".dkim.amazonses.com"@,
        ttl: 300,
        purpose: "SES EasyDKIM signing"@,
    }
}

/// The records for a list of DKIM tokens.
pub open spec fn dkim_records(domain: Seq<char>, tokens: Seq<Seq<char>>) -> Seq<RecordText> {
    tokens.map_values(|t: Seq<char>| dkim_record(domain, t))
}

/// The CNAME records for the DKIM tokens that SES issues.
pub fn dkim_cnames(domain: &str, tokens: &[String]) -> (r: Vec<DnsRecord>)
    ensures
        records(r@) == dkim_records(domain@, texts(tokens@)),
{
    let mut out: Vec<DnsRecord> = Vec::new();
    for i in 0..tokens.len()
        invariant
            out@.len() == i,
            forall|j: int|
                0 <= j < i ==> (#[trigger] out@[j])@ == dkim_record(domain@, tokens@[j]@),
    {
        let mut name = copy_of(tokens[i].as_str());
        name.append("._domainkey.");
        name.append(domain);
        let mut value = copy_of(tokens[i].as_str());
        value.append(".dkim.amazonses.com");
        out.push(
            DnsRecord {
                record_type: copy_of("CNAME"),
                name,
                value,
                ttl: 300,
                purpose: copy_of("SES EasyDKIM signing"),
            },
        );
    }
    assert(records(out@) =~= dkim_records(domain@, texts(tokens@)));
    out
}

/// The records that a domain needs.
pub open spec fn domain_records(domain: Seq<char>, region: Seq<char>, tokens: Seq<Seq<char>>) -> Seq<
    RecordText,
> {
    seq![
        RecordText {
            record_type: "MX"@,
            name: domain,
            value: mx_text(region),
            ttl: 300,
            purpose: "SES inbound reception"@,
        },
        RecordText {
            record_type: "TXT"@,
            name: domain,
            value: "v=spf1 include:amazonses.com ~all"@,
            ttl: 300,
            purpose: "SPF authorize SES"@,
        },
        RecordText {
            record_type: "TXT"@,
            name: "_dmarc."@ + domain,
            value: dmarc_text("dmarc@"@ + domain),
            ttl: 300,
            purpose: "DMARC policy"@,
        },
    ] + dkim_records(domain, tokens)
}

/// The records that a domain needs: for receiving mail, SPF, DMARC and one for each DKIM token.
pub fn records_for_domain(domain: &str, region: &str, dkim_tokens: &[String]) -> (r: Vec<DnsRecord>)
    ensures
        records(r@) == domain_records(domain@, region@, texts(dkim_tokens@)),
{
    let mut dmarc_name = copy_of("_dmarc.");
    dmarc_name.append(domain);
    let mut rua = copy_of("dmarc@");
    rua.append(domain);
    let mut out: Vec<DnsRecord> = Vec::new();
    out.push(
        DnsRecord {
            record_type: copy_of("MX"),
            name: copy_of(domain),
            value: inbound_mx(region),
            ttl: 300,
            purpose: copy_of("SES inbound reception"),
        },
    );
    out.push(
        DnsRecord {
            record_type: copy_of("TXT"),
            name: copy_of(domain),
            value: spf_value(),
            ttl: 300,
            purpose: copy_of("SPF authorize SES"),
        },
    );
    out.push(
        DnsRecord {
            record_type: copy_of("TXT"),
            name: dmarc_name,
            value: dmarc_value(rua.as_str()),
            ttl: 300,
            purpose: copy_of("DMARC policy"),
        },
    );
    let mut cnames = dkim_cnames(domain, dkim_tokens);
    let ghost first = out@;
    let ghost more = cnames@;
    out.append(&mut cnames);
    assert(out@ == first + more);
    assert(records(out@) =~= records(first) + records(more));
    assert(records(first) =~= domain_records(domain@, region@, texts(dkim_tokens@)).take(3));
    out
}

/// Stand-ins for DKIM tokens that SES has not issued yet.
pub open spec fn placeholder_tokens() -> Seq<Seq<char>> {
    seq!["token1"@, "token2"@, "token3"@]
}

/// Stand-ins for DKIM tokens that SES has not issued yet.
pub fn placeholder_dkim_tokens() -> (r: Vec<String>)
    ensures
        texts(r@) == placeholder_tokens(),
{
    let mut out: Vec<String> = Vec::new();
    out.push(copy_of("token1"));
    out.push(copy_of("token2"));
    out.push(copy_of("token3"));
    assert(texts(out@) =~= placeholder_tokens());
    out
}

/// The tokens that are used where SES answered with `issued`: these, if they are three, and
/// stand-ins otherwise.
pub fn dkim_tokens(issued: Option<Vec<String>>) -> (r: Vec<String>)
    ensures
        match issued {
            Some(t) if t@.len() == 3 => texts(r@) == texts(t@),
            _ => texts(r@) == placeholder_tokens(),
        },
{
    match issued {
        Some(t) => if t.len() == 3 {
            t
        } else {
            placeholder_dkim_tokens()
        },
        None => placeholder_dkim_tokens(),
    }
}

/// The record under which the public key of an ARC seal is found.
pub open spec fn arc_text(selector: Seq<char>, domain: Seq<char>, public_key: Seq<char>) -> RecordText {
    RecordText {
        record_type: "TXT"@,
        name: selector + "._domainkey."@ + domain,
        value: "v=DKIM1; k=rsa; p="@ + public_key,
        ttl: 300,
        purpose: "ARC seal key"@,
    }
}

/// The record under which the public key of an ARC seal is found.
pub fn arc_record(selector: &str, domain: &str, public_key: &str) -> (r: DnsRecord)
    ensures
        r@ == arc_text(selector@, domain@, public_key@),
{
    let mut name = copy_of(selector);
    name.append("._domainkey.");
    name.append(domain);
    let mut value = copy_of("v=DKIM1; k=rsa; p=");
    value.append(public_key);
    DnsRecord {
        record_type: copy_of("TXT"),
        name,
        value,
        ttl: 300,
        purpose: copy_of("ARC seal key"),
    }
}

// ---------------------------------------------------------------------------------------------
// Records of a configuration, and how they are shown
// ---------------------------------------------------------------------------------------------

/// The region that records are made for: the configured one, or else the one asked for.
pub fn chosen_region(configured: &str, asked: &str) -> (r: String)
    ensures
        r@ == (if configured@.len() == 0 {
            asked@
        } else {
            configured@
        }),
{
    if configured.is_empty() {
        copy_of(asked)
    } else {
        copy_of(configured)
    }
}

/// Whether a domain's records are kept in Route 53: it is to serve them and has a zone for them.
pub fn is_managed(provider: DnsProvider, zone_found: bool) -> (r: bool)
    ensures
        r == (provider == DnsProvider::Route53 && zone_found),
{
    provider == DnsProvider::Route53 && zone_found
}

/// The records of all domains, one domain after the other.
pub open spec fn all_records(ds: Seq<DomainText>, region: Seq<char>, tokens: Seq<Seq<char>>) -> Seq<
    RecordText,
>
    decreases ds.len(),
{
    if ds.len() == 0 {
        seq![]
    } else {
        all_records(ds.drop_last(), region, tokens) + domain_records(
            ds.last().domain,
            region,
            tokens,
        )
    }
}

/// The records of all domains, one domain after the other.
pub fn records_for_domains(domains: &Vec<DomainConfig>, region: &str, tokens: &[String]) -> (r: Vec<
    DnsRecord,
>)
    ensures
        records(r@) == all_records(domains_of(domains@), region@, texts(tokens@)),
{
    let ghost ds = domains_of(domains@);
    let mut out: Vec<DnsRecord> = Vec::new();
    assert(records(out@) =~= seq![]);
    for i in 0..domains.len()
        invariant
            ds == domains_of(domains@),
            records(out@) == all_records(ds.take(i as int), region@, texts(tokens@)),
    {
        let ghost before = out@;
        let mut more = records_for_domain(domains[i].domain.as_str(), region, tokens);
        let ghost added = more@;
        out.append(&mut more);
        assert(out@ == before + added);
        assert(records(out@) =~= records(before) + records(added));
        assert(ds.take(i + 1).drop_last() =~= ds.take(i as int));
        assert(ds.take(i + 1).last() == domains@[i as int]@);
    }
    assert(ds.take(ds.len() as int) =~= ds);
    out
}

/// A record as a line of a zone file.
pub open spec fn bind_text(r: RecordText) -> Seq<char> {
    r.name + ".\t"@ + decimal(r.ttl as nat) + "\tIN\t"@ + r.record_type + "\t"@ + r.value
}

/// A record as a line of a zone file.
pub fn bind_line(record: &DnsRecord) -> (r: String)
    ensures
        r@ == bind_text(record@),
{
    let mut out = copy_of(record.name.as_str());
    out.append(".\t");
    out.append(decimal_text(record.ttl as u64).as_str());
    out.append("\tIN\t");
    out.append(record.record_type.as_str());
    out.append("\t");
    out.append(record.value.as_str());
    out
}

/// What is shown of a record's value before deployment: stand-ins for DKIM tokens are marked as
/// such.
pub open spec fn shown_value(r: RecordText) -> Seq<char> {
    if r.record_type == "CNAME"@ && "token"@.is_prefix_of(r.value) {
        r.value + " (see SES console for real DKIM token)"@
    } else {
        r.value
    }
}

/// The type, the name and the shown value of a record.
pub fn shown_row(record: &DnsRecord) -> (r: Vec<String>)
    ensures
        texts(r@) == seq![record.record_type@, record.name@, shown_value(record@)],
{
    let mut value = copy_of(record.value.as_str());
    if same_text(record.record_type.as_str(), "CNAME") && starts_with_text(
        record.value.as_str(),
        "token",
    ) {
        value.append(" (see SES console for real DKIM token)");
    }
    let mut out: Vec<String> = Vec::new();
    out.push(copy_of(record.record_type.as_str()));
    out.push(copy_of(record.name.as_str()));
    out.push(value);
    assert(texts(out@) =~= seq![record.record_type@, record.name@, shown_value(record@)]);
    out
}

/// The type, the name, the value and the purpose of a record.
pub fn full_row(record: &DnsRecord) -> (r: Vec<String>)
    ensures
        texts(r@) == seq![record.record_type@, record.name@, record.value@, record.purpose@],
{
    let mut out: Vec<String> = Vec::new();
    out.push(copy_of(record.record_type.as_str()));
    out.push(copy_of(record.name.as_str()));
    out.push(copy_of(record.value.as_str()));
    out.push(copy_of(record.purpose.as_str()));
    assert(texts(out@) =~= seq![
        record.record_type@,
        record.name@,
        record.value@,
        record.purpose@,
    ]);
    out
}

/// The records of a domain are one for receiving, one for SPF, one for DMARC and one CNAME for
/// each token, in this order.
pub proof fn law_record_set(domain: Seq<char>, region: Seq<char>, tokens: Seq<Seq<char>>)
    ensures
        domain_records(domain, region, tokens).len() == 3 + tokens.len(),
        domain_records(domain, region, tokens)[0].record_type == "MX"@,
        forall|i: int|
            0 <= i < tokens.len() ==> (#[trigger] domain_records(domain, region, tokens)[i
                + 3]).record_type == "CNAME"@,
        forall|i: int|
            0 <= i < 3 + tokens.len() ==> (#[trigger] domain_records(
                domain,
                region,
                tokens,
            )[i]).ttl == 300,
{
}

/// The records of a list of domains, one domain after the other, are those of each domain.
proof fn lemma_record_at(
    ds: Seq<DomainText>,
    region: Seq<char>,
    tokens: Seq<Seq<char>>,
    i: int,
    j: int,
)
    requires
        0 <= i < ds.len(),
        0 <= j < 3 + tokens.len(),
    ensures
        all_records(ds, region, tokens).len() == (3 + tokens.len()) * ds.len(),
        0 <= (3 + tokens.len()) * i + j < (3 + tokens.len()) * ds.len(),
        all_records(ds, region, tokens)[(3 + tokens.len()) * i + j] == domain_records(
            ds[i].domain,
            region,
            tokens,
        )[j],
    decreases ds.len(),
{
    let n: int = 3 + tokens.len() as int;
    let before = all_records(ds.drop_last(), region, tokens);
    lemma_record_count(ds.drop_last(), region, tokens);
    lemma_record_count(ds, region, tokens);
    let m: int = ds.len() - 1;
    assert(n * i + j < n * (m + 1) && 0 <= n * i) by (nonlinear_arith)
        requires
            0 <= i <= m,
            0 <= j < n,
    ;
    if i < m {
        lemma_record_at(ds.drop_last(), region, tokens, i, j);
        assert(n * i + j < before.len());
    } else {
        assert(before.len() == n * i);
        assert(all_records(ds, region, tokens) == before + domain_records(
            ds.last().domain,
            region,
            tokens,
        ));
    }
}

proof fn lemma_record_count(ds: Seq<DomainText>, region: Seq<char>, tokens: Seq<Seq<char>>)
    ensures
        all_records(ds, region, tokens).len() == (3 + tokens.len()) * ds.len(),
    decreases ds.len(),
{
    let n: int = 3 + tokens.len() as int;
    if ds.len() == 0 {
        assert(n * 0 == 0) by (nonlinear_arith);
    } else {
        lemma_record_count(ds.drop_last(), region, tokens);
        let m: int = ds.len() - 1;
        assert(n * (m + 1) == n * m + n) by (nonlinear_arith);
        law_record_set(ds.last().domain, region, tokens);
    }
}

/// Each domain of a list, in order, has its records, and there are no others: one by which SES
/// receives mail in the region, one by which SES may send, one that asks for reports to the domain,
/// and for each token, in order, a CNAME record that leads from the token's name under the domain
/// to the token's name at SES.
pub proof fn law_records_of_each_domain(
    ds: Seq<DomainText>,
    region: Seq<char>,
    tokens: Seq<Seq<char>>,
    i: int,
    k: int,
)
    requires
        0 <= i < ds.len(),
    ensures
        ({
            let rs = all_records(ds, region, tokens);
            let n: int = 3 + tokens.len() as int;
            &&& rs.len() == n * ds.len()
            &&& rs[n * i] == RecordText {
                record_type: "MX"@,
                name: ds[i].domain,
                value: "10 inbound-smtp."@ + region + ".amazonaws.com"@,
                ttl: 300,
                purpose: "SES inbound reception"@,
            }
            &&& rs[n * i + 1] == RecordText {
                record_type: "TXT"@,
                name: ds[i].domain,
                value: "v=spf1 include:amazonses.com ~all"@,
                ttl: 300,
                purpose: "SPF authorize SES"@,
            }
            &&& rs[n * i + 2] == RecordText {
                record_type: "TXT"@,
                name: "_dmarc."@ + ds[i].domain,
                value: "v=DMARC1; p=none; rua=mailto:"@ + ("dmarc@"@ + ds[i].domain),
                ttl: 300,
                purpose: "DMARC policy"@,
            }
            &&& 0 <= k < tokens.len() ==> rs[n * i + 3 + k] == RecordText {
                record_type: "CNAME"@,
                name: tokens[k] + "._domainkey."@ + ds[i].domain,
                value: tokens[k] + ".dkim.amazonses.com"@,
                ttl: 300,
                purpose: "SES EasyDKIM signing"@,
            }
            &&& 0 <= k < tokens.len() ==> rs.contains(
                RecordText {
                    record_type: "CNAME"@,
                    name: tokens[k] + "._domainkey."@ + ds[i].domain,
                    value: tokens[k] + ".dkim.amazonses.com"@,
                    ttl: 300,
                    purpose: "SES EasyDKIM signing"@,
                },
            )
        }),
{
    let rs = all_records(ds, region, tokens);
    let n: int = 3 + tokens.len() as int;
    lemma_record_at(ds, region, tokens, i, 0);
    lemma_record_at(ds, region, tokens, i, 1);
    lemma_record_at(ds, region, tokens, i, 2);
    if 0 <= k < tokens.len() {
        lemma_record_at(ds, region, tokens, i, 3 + k);
        assert(rs.contains(rs[n * i + (3 + k)]));
    }
}

/// The record for the public key of a seal stands under the selector, where the keys of a domain
/// are looked for, and holds the key.
pub proof fn law_key_record(selector: Seq<char>, domain: Seq<char>, public_key: Seq<char>)
    ensures
        arc_text(selector, domain, public_key).record_type == "TXT"@,
        arc_text(selector, domain, public_key).name == selector + "._domainkey."@ + domain,
        arc_text(selector, domain, public_key).value == "v=DKIM1; k=rsa; p="@ + public_key,
        arc_text(selector, domain, public_key).ttl == 300,
{
}

/// A line of a zone file has the record's name, which is absolute, its time to live, its class, its
/// type and its value, with tabs between them.
pub proof fn law_zone_line(r: RecordText)
    requires
        !r.name.contains('\t'),
        !r.record_type.contains('\t'),
        !r.value.contains('\t'),
    ensures
        split(bind_text(r), '\t') == seq![
            r.name + "."@,
            decimal(r.ttl as nat),
            "IN"@,
            r.record_type,
            r.value,
        ],
{
    reveal_strlit(".\t");
    reveal_strlit(".");
    reveal_strlit("\tIN\t");
    reveal_strlit("IN");
    reveal_strlit("\t");
    let ttl = decimal(r.ttl as nat);
    let parts = seq![r.name + "."@, ttl, "IN"@, r.record_type, r.value];
    law_decimal(r.ttl as nat);
    assert(!ttl.contains('\t'));
    assert(!(r.name + "."@).contains('\t')) by {
        if (r.name + "."@).contains('\t') {
            let i = choose|i: int|
                0 <= i < (r.name + "."@).len() && (r.name + "."@)[i] == '\t';
            assert(r.name[i] == '\t');
        }
    }
    let t = seq!['\t'];
    assert(bind_text(r) =~= (r.name + "."@) + t + (ttl + t + ("IN"@ + t + (r.record_type + t
        + r.value))));
    law_split_first(r.name + "."@, ttl + t + ("IN"@ + t + (r.record_type + t + r.value)), '\t');
    law_split_first(ttl, "IN"@ + t + (r.record_type + t + r.value), '\t');
    law_split_first("IN"@, r.record_type + t + r.value, '\t');
    law_split_first(r.record_type, r.value, '\t');
    law_split_first(r.value, Seq::empty(), '\t');
    assert(split(bind_text(r), '\t') =~= parts);
}

/// Before deployment the values are shown as they are, but for those of stand-ins for DKIM tokens:
/// these are marked after the value.
pub proof fn law_shown_values(r: RecordText, domain: Seq<char>, rest: Seq<char>)
    ensures
        r.record_type != "CNAME"@ ==> shown_value(r) == r.value,
        r.value.is_prefix_of(shown_value(r)),
        shown_value(dkim_record(domain, "token"@ + rest)) == "token"@ + rest
            + ".dkim.amazonses.com"@ + " (see SES console for real DKIM token)"@,
        rest.len() > 0 && rest[0] != 't' ==> shown_value(dkim_record(domain, rest)) == rest
            + ".dkim.amazonses.com"@,
{
    reveal_strlit("token");
    let marked = dkim_record(domain, "token"@ + rest);
    assert("token"@.is_prefix_of(marked.value)) by {
        assert(marked.value.subrange(0, 5) =~= "token"@);
    }
    let other = dkim_record(domain, rest).value;
    if rest.len() > 0 && rest[0] != 't' && "token"@.is_prefix_of(other) {
        assert(other.subrange(0, 5)[0] == other[0]);
    }
    assert(r.value.is_prefix_of(shown_value(r))) by {
        assert(shown_value(r).subrange(0, r.value.len() as int) =~= r.value);
    }
}

/// Until SES has issued tokens, the records of each domain hold three different stand-ins, and each
/// is shown as one.
pub proof fn law_stand_ins_are_marked(domain: Seq<char>, i: int, j: int)
    requires
        0 <= i < j < 3,
    ensures
        placeholder_tokens().len() == 3,
        placeholder_tokens()[i] != placeholder_tokens()[j],
        shown_value(dkim_record(domain, placeholder_tokens()[i])) == placeholder_tokens()[i]
            + ".dkim.amazonses.com"@ + " (see SES console for real DKIM token)"@,
        shown_value(dkim_record(domain, placeholder_tokens()[j])) == placeholder_tokens()[j]
            + ".dkim.amazonses.com"@ + " (see SES console for real DKIM token)"@,
{
    reveal_strlit("token");
    reveal_strlit("token1");
    reveal_strlit("token2");
    reveal_strlit("token3");
    let ts = placeholder_tokens();
    assert("token1"@[5] == '1' && "token2"@[5] == '2' && "token3"@[5] == '3');
    assert("token1"@ =~= "token"@ + seq!['1']);
    assert("token2"@ =~= "token"@ + seq!['2']);
    assert("token3"@ =~= "token"@ + seq!['3']);
    let r = dkim_record(domain, ts[0]);
    law_shown_values(r, domain, seq!['1']);
    law_shown_values(r, domain, seq!['2']);
    law_shown_values(r, domain, seq!['3']);
    assert(ts[0] == "token1"@ && ts[1] == "token2"@ && ts[2] == "token3"@);
}

} // verus!
