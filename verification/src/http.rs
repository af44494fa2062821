//! The write router front-door: admission control, body size limits and
//! decompression with bomb resistance, query-string decoding, routing, and
//! the error taxonomy with its status-code mapping.
//!
//! The router works on plain request values (method, path, query, encoding,
//! body bytes); the surrounding process reads the transport and builds the
//! response from the returned token or error.

use vstd::prelude::*;

use crate::batch::MutableBatch;
use crate::bytes::bytes_eq;
use crate::lineproto::{LpError, lines_to_batches};
use crate::summary::WriteSummary;

verus! {

/// Errors produced by the schema-validation layer downstream.
#[derive(Clone, Copy, Debug, PartialEq, Eq, Structural)]
pub enum SchemaError {
    /// The namespace was missing during validation: an internal fault.
    NamespaceLookup,
    /// A configured service limit was hit.
    ServiceLimit,
    /// The write conflicts with the existing schema.
    Conflict,
    /// The catalog failed unexpectedly.
    UnexpectedCatalog,
}

/// Errors produced by the partitioning layer downstream.
#[derive(Clone, Copy, Debug, PartialEq, Eq, Structural)]
pub enum PartitionError {
    /// Appending to a partition batch failed.
    BatchWrite,
}

/// Errors returned by the downstream DML handler.
#[derive(Clone, Copy, Debug, PartialEq, Eq, Structural)]
pub enum DmlError {
    /// The namespace does not exist.
    DatabaseNotFound,
    /// Schema validation failed.
    Schema(SchemaError),
    /// An internal fault.
    Internal,
    /// The write buffer rejected the write.
    WriteBuffer,
    /// Creating the namespace failed.
    NamespaceCreation,
    /// Partitioning failed.
    Partition(PartitionError),
}

/// Errors in the organisation/bucket information of a request.
#[derive(Clone, Copy, Debug, PartialEq, Eq, Structural)]
pub enum OrgBucketError {
    /// No org/bucket destination was provided, or one was empty.
    NotSpecified,
    /// The query string could not be decoded into org/bucket/precision.
    DecodeFail,
    /// The org/bucket pair could not be mapped to a database name.
    MappingFail,
}

/// Errors returned by the router's request handler.
#[derive(Clone, Copy, Debug, PartialEq, Eq, Structural)]
pub enum Error {
    /// The requested path has no registered handler.
    NoHandler,
    /// An error with the org/bucket in the request.
    InvalidOrgBucket(OrgBucketError),
    /// The body is not valid UTF-8.
    NonUtf8Body,
    /// The content-encoding header cannot be read as text.
    NonUtf8ContentHeader,
    /// The content-encoding is not acceptable.
    InvalidContentEncoding,
    /// The client disconnected while the body was being read.
    ClientHangup,
    /// The body exceeds the configured maximum, before or after
    /// decompression.
    RequestSizeExceeded,
    /// Decoding the gzip stream failed.
    InvalidGzip,
    /// The body is not valid line protocol.
    ParseLineProtocol(LpError),
    /// The delete predicate could not be parsed.
    ParseDelete,
    /// The delete request body could not be parsed.
    ParseHttpDelete,
    /// The downstream DML handler failed.
    DmlHandler(DmlError),
    /// The router is at its simultaneous-request limit.
    RequestLimit,
}

/// The status code a DML error maps to.
pub open spec fn spec_dml_status(e: DmlError) -> u16 {
    match e {
        DmlError::DatabaseNotFound => 404,
        DmlError::Schema(SchemaError::NamespaceLookup) => 500,
        DmlError::Schema(SchemaError::ServiceLimit) => 400,
        DmlError::Schema(SchemaError::Conflict) => 400,
        DmlError::Schema(SchemaError::UnexpectedCatalog) => 500,
        DmlError::Internal => 500,
        DmlError::WriteBuffer => 500,
        DmlError::NamespaceCreation => 500,
        DmlError::Partition(PartitionError::BatchWrite) => 500,
    }
}

/// The status code a router error maps to.
pub open spec fn spec_status(e: Error) -> u16 {
    match e {
        Error::NoHandler => 404,
        Error::InvalidOrgBucket(_) => 400,
        Error::ClientHangup => 400,
        Error::InvalidGzip => 400,
        Error::NonUtf8ContentHeader => 400,
        Error::NonUtf8Body => 400,
        Error::ParseLineProtocol(_) => 400,
        Error::ParseDelete => 400,
        Error::ParseHttpDelete => 400,
        Error::RequestSizeExceeded => 413,
        Error::InvalidContentEncoding => 415,
        Error::DmlHandler(d) => spec_dml_status(d),
        Error::RequestLimit => 503,
    }
}

/// The status code a DML error maps to, at run time.
pub fn dml_status_code(e: &DmlError) -> (r: u16)
    ensures
        r == spec_dml_status(*e),
{
    match e {
        DmlError::DatabaseNotFound => 404,
        DmlError::Schema(SchemaError::NamespaceLookup) => 500,
        DmlError::Schema(SchemaError::ServiceLimit) => 400,
        DmlError::Schema(SchemaError::Conflict) => 400,
        DmlError::Schema(SchemaError::UnexpectedCatalog) => 500,
        DmlError::Internal => 500,
        DmlError::WriteBuffer => 500,
        DmlError::NamespaceCreation => 500,
        DmlError::Partition(PartitionError::BatchWrite) => 500,
    }
}

impl Error {
    /// Convert the error into the status code returned to the client.
    pub fn as_status_code(&self) -> (r: u16)
        ensures
            r == spec_status(*self),
    {
        match self {
            Error::NoHandler => 404,
            Error::InvalidOrgBucket(_) => 400,
            Error::ClientHangup => 400,
            Error::InvalidGzip => 400,
            Error::NonUtf8ContentHeader => 400,
            Error::NonUtf8Body => 400,
            Error::ParseLineProtocol(_) => 400,
            Error::ParseDelete => 400,
            Error::ParseHttpDelete => 400,
            Error::RequestSizeExceeded => 413,
            Error::InvalidContentEncoding => 415,
            Error::DmlHandler(d) => dml_status_code(d),
            Error::RequestLimit => 503,
        }
    }
}

/// Timestamp precision of a write request.
#[derive(Clone, Copy, Debug, PartialEq, Eq, Structural)]
pub enum Precision {
    /// Seconds.
    Seconds,
    /// Milliseconds.
    Milliseconds,
    /// Microseconds.
    Microseconds,
    /// Nanoseconds.
    Nanoseconds,
}

impl Precision {
    /// The multiplier converting a timestamp of this precision to
    /// nanoseconds.
    pub open spec fn spec_timestamp_base(&self) -> i64 {
        match self {
            Precision::Seconds => 1000000000,
            Precision::Milliseconds => 1000000,
            Precision::Microseconds => 1000,
            Precision::Nanoseconds => 1,
        }
    }

    /// The multiplier converting a timestamp of this precision to
    /// nanoseconds.
    pub fn timestamp_base(&self) -> (r: i64)
        ensures
            r == self.spec_timestamp_base(),
            1 <= r <= 1000000000,
    {
        match self {
            Precision::Seconds => 1000000000,
            Precision::Milliseconds => 1000000,
            Precision::Microseconds => 1000,
            Precision::Nanoseconds => 1,
        }
    }
}

impl Default for Precision {
    /// Timestamps default to nanosecond precision.
    fn default() -> (r: Self)
        ensures
            r == Precision::Nanoseconds,
    {
        Precision::Nanoseconds
    }
}

/// What a query string names, the decoded key/value pairs: the result of
/// percent-decoding, a function of the text alone.
pub uninterp spec fn query_pairs_of(q: Seq<u8>) -> Option<Seq<(Seq<u8>, Seq<u8>)>>;

/// Relies on serde_urlencoded::from_str: decode an
/// application/x-www-form-urlencoded query string into its key/value pairs.
/// The result depends on the query text alone.
#[verifier::external_body]
fn decode_query_pairs(q: &[u8]) -> (r: Option<Vec<(Vec<u8>, Vec<u8>)>>)
    ensures
        match r {
            Some(ps) => query_pairs_of(q@) == Some(
                ps@.map_values(|p: (Vec<u8>, Vec<u8>)| (p.0@, p.1@)),
            ),
            None => query_pairs_of(q@) is None,
        },
{
    let text = match core::str::from_utf8(q) {
        Ok(t) => t,
        Err(_) => {
            return None;
        },
    };
    match serde_urlencoded::from_str::<Vec<(String, String)>>(text) {
        Ok(pairs) => Some(
            pairs.into_iter().map(|(k, v)| (k.into_bytes(), v.into_bytes())).collect(),
        ),
        Err(_) => None,
    }
}

/// Relies on std's str::from_utf8: whether the bytes are valid UTF-8, in the
/// sense vstd formalises.
#[verifier::external_body]
fn check_utf8(b: &[u8]) -> (r: bool)
    ensures
        r == vstd::utf8::valid_utf8(b@),
{
    core::str::from_utf8(b).is_ok()
}

/// What a capped gzip decompression yields: the first `cap` decompressed
/// bytes (or all of them), or nothing for a broken stream; a function of the
/// compressed bytes and the cap alone.
pub uninterp spec fn gunzip_prefix(compressed: Seq<u8>, cap: nat) -> Option<Seq<u8>>;

/// Relies on flate2's read::GzDecoder (driven through std's Read::take and
/// read_to_end): decompress a gzip stream, reading at most `cap` bytes of
/// output. The result depends on the input bytes and the cap alone.
#[verifier::external_body]
fn gunzip_capped(body: &Vec<u8>, cap: u64) -> (r: Result<Vec<u8>, ()>)
    ensures
        match r {
            Ok(out) => gunzip_prefix(body@, cap as nat) == Some(out@) && out@.len() <= cap,
            Err(_) => gunzip_prefix(body@, cap as nat) is None,
        },
{
    let decoder = flate2::read::GzDecoder::new(body.as_slice());
    let mut limited = std::io::Read::take(decoder, cap);
    let mut out = Vec::new();
    match std::io::Read::read_to_end(&mut limited, &mut out) {
        Ok(_) => Ok(out),
        Err(_) => Err(()),
    }
}

} // verus!

verus! {

/// The `gzip` content-encoding token.
pub open spec fn gzip_text() -> Seq<u8> {
    seq![103u8, 122u8, 105u8, 112u8]
}

/// The model of a request's optional raw query string.
pub open spec fn query_model(q: Option<Vec<u8>>) -> Option<Seq<u8>> {
    match q {
        Some(v) => Some(v@),
        None => None,
    }
}

/// Saturating counter addition.
pub open spec fn sat_add(c: u64, v: int) -> int {
    if c + v <= u64::MAX {
        c + v
    } else {
        u64::MAX as int
    }
}

/// The first value under `key` among decoded query pairs.
pub open spec fn pair_lookup(ps: Seq<(Seq<u8>, Seq<u8>)>, key: Seq<u8>) -> Option<Seq<u8>>
    decreases ps.len(),
{
    if ps.len() == 0 {
        None
    } else if ps[0].0 == key {
        Some(ps[0].1)
    } else {
        pair_lookup(ps.drop_first(), key)
    }
}

/// Find the first value under `key`, at run time.
fn find_pair<'a>(ps: &'a Vec<(Vec<u8>, Vec<u8>)>, key: &[u8]) -> (r: Option<&'a Vec<u8>>)
    ensures
        match r {
            Some(v) => pair_lookup(
                ps@.map_values(|p: (Vec<u8>, Vec<u8>)| (p.0@, p.1@)),
                key@,
            ) == Some(v@),
            None => pair_lookup(ps@.map_values(|p: (Vec<u8>, Vec<u8>)| (p.0@, p.1@)), key@)
                is None,
        },
{
    let ghost psm = ps@.map_values(|p: (Vec<u8>, Vec<u8>)| (p.0@, p.1@));
    let n = ps.len();
    proof {
        assert(psm.skip(0) =~= psm);
    }
    let mut i: usize = 0;
    while i < n
        invariant
            0 <= i <= n,
            n == ps@.len(),
            psm == ps@.map_values(|p: (Vec<u8>, Vec<u8>)| (p.0@, p.1@)),
            pair_lookup(psm, key@) == pair_lookup(psm.skip(i as int), key@),
        decreases n - i,
    {
        proof {
            assert(psm.skip(i as int)[0] == psm[i as int]);
            assert(psm.skip(i as int).drop_first() =~= psm.skip(i as int + 1));
        }
        if bytes_eq(ps[i].0.as_slice(), key) {
            return Some(&ps[i].1);
        }
        i += 1;
    }
    None
}

/// Org and bucket identifiers (and timestamp precision) for one request.
pub struct WriteInfo {
    /// The organisation.
    pub org: Vec<u8>,
    /// The bucket.
    pub bucket: Vec<u8>,
    /// Timestamp precision; nanoseconds when not given.
    pub precision: Precision,
}

/// The precision a query value names.
pub open spec fn spec_precision_of(v: Seq<u8>) -> Option<Precision> {
    if v == seq![115u8] {
        Some(Precision::Seconds)
    } else if v == seq![109u8, 115u8] {
        Some(Precision::Milliseconds)
    } else if v == seq![117u8, 115u8] {
        Some(Precision::Microseconds)
    } else if v == seq![110u8, 115u8] {
        Some(Precision::Nanoseconds)
    } else {
        None
    }
}

/// The precision a query value names, at run time.
fn precision_of(v: &[u8]) -> (r: Option<Precision>)
    ensures
        r == spec_precision_of(v@),
{
    if v.len() == 1 && v[0] == 115 {
        proof {
            assert(v@ =~= seq![115u8]);
        }
        Some(Precision::Seconds)
    } else if v.len() == 2 && v[0] == 109 && v[1] == 115 {
        proof {
            assert(v@ =~= seq![109u8, 115u8]);
        }
        Some(Precision::Milliseconds)
    } else if v.len() == 2 && v[0] == 117 && v[1] == 115 {
        proof {
            assert(v@ =~= seq![117u8, 115u8]);
        }
        Some(Precision::Microseconds)
    } else if v.len() == 2 && v[0] == 110 && v[1] == 115 {
        proof {
            assert(v@ =~= seq![110u8, 115u8]);
        }
        Some(Precision::Nanoseconds)
    } else {
        proof {
            if v@ == seq![115u8] {
                assert(v@.len() == 1 && v@[0] == 115u8);
            }
            if v@ == seq![109u8, 115u8] {
                assert(v@.len() == 2 && v@[0] == 109u8 && v@[1] == 115u8);
            }
            if v@ == seq![117u8, 115u8] {
                assert(v@.len() == 2 && v@[0] == 117u8 && v@[1] == 115u8);
            }
            if v@ == seq![110u8, 115u8] {
                assert(v@.len() == 2 && v@[0] == 110u8 && v@[1] == 115u8);
            }
        }
        None
    }
}

/// Whether a key occurs more than once among the pairs.
pub open spec fn spec_dup_key(ps: Seq<(Seq<u8>, Seq<u8>)>, key: Seq<u8>) -> bool {
    exists|i: int, j: int| 0 <= i < j < ps.len() && ps[i].0 == key && ps[j].0 == key
}

/// What decoding a write's query string yields: `org`, `bucket` and optional
/// `precision`, with a missing pair list, missing keys or a repeated key a
/// decode failure and empty org or bucket rejected.
pub open spec fn spec_write_info(q: Option<Seq<u8>>) -> Result<
    (Seq<u8>, Seq<u8>, Precision),
    OrgBucketError,
> {
    match q {
        None => Err(OrgBucketError::NotSpecified),
        Some(qs) => match query_pairs_of(qs) {
            None => Err(OrgBucketError::DecodeFail),
            Some(ps) => {
                if spec_dup_key(ps, seq![111u8, 114u8, 103u8]) || spec_dup_key(
                    ps,
                    seq![98u8, 117u8, 99u8, 107u8, 101u8, 116u8],
                ) || spec_dup_key(
                    ps,
                    seq![112u8, 114u8, 101u8, 99u8, 105u8, 115u8, 105u8, 111u8, 110u8],
                ) {
                    Err(OrgBucketError::DecodeFail)
                } else {
                let org = pair_lookup(ps, seq![111u8, 114u8, 103u8]);
                let bucket = pair_lookup(ps, seq![98u8, 117u8, 99u8, 107u8, 101u8, 116u8]);
                match (org, bucket) {
                    (Some(o), Some(b)) => {
                        if o.len() == 0 || b.len() == 0 {
                            Err(OrgBucketError::NotSpecified)
                        } else {
                            match pair_lookup(
                                ps,
                                seq![112u8, 114u8, 101u8, 99u8, 105u8, 115u8, 105u8, 111u8, 110u8],
                            ) {
                                None => Ok((o, b, Precision::Nanoseconds)),
                                Some(pv) => match spec_precision_of(pv) {
                                    Some(p) => Ok((o, b, p)),
                                    None => Err(OrgBucketError::DecodeFail),
                                },
                            }
                        }
                    },
                    _ => Err(OrgBucketError::DecodeFail),
                }
                }
            },
        },
    }
}

/// Whether `key` occurs more than once, at run time.
fn has_dup_key(ps: &Vec<(Vec<u8>, Vec<u8>)>, key: &[u8]) -> (r: bool)
    ensures
        r == spec_dup_key(ps@.map_values(|p: (Vec<u8>, Vec<u8>)| (p.0@, p.1@)), key@),
{
    let ghost psm = ps@.map_values(|p: (Vec<u8>, Vec<u8>)| (p.0@, p.1@));
    let n = ps.len();
    // Find the first occurrence.
    let mut i: usize = 0;
    while i < n
        invariant
            0 <= i <= n,
            n == ps@.len(),
            psm == ps@.map_values(|p: (Vec<u8>, Vec<u8>)| (p.0@, p.1@)),
            forall|k: int| 0 <= k < i ==> (#[trigger] psm[k]).0 != key@,
        decreases n - i,
    {
        if bytes_eq(ps[i].0.as_slice(), key) {
            proof {
                assert(psm[i as int].0 == key@);
            }
            // Look for a second occurrence.
            let mut j = i + 1;
            while j < n
                invariant
                    i < j <= n,
                    n == ps@.len(),
                    psm == ps@.map_values(|p: (Vec<u8>, Vec<u8>)| (p.0@, p.1@)),
                    psm[i as int].0 == key@,
                    i < n,
                    forall|k: int| i < k < j ==> (#[trigger] psm[k]).0 != key@,
                    forall|k: int| 0 <= k < i ==> (#[trigger] psm[k]).0 != key@,
                decreases n - j,
            {
                if bytes_eq(ps[j].0.as_slice(), key) {
                    proof {
                        assert(psm[j as int].0 == key@);
                    }
                    return true;
                }
                j += 1;
            }
            proof {
                // Exactly one occurrence: any pair would need a second.
                assert forall|i2: int, j2: int|
                    0 <= i2 < j2 < psm.len() implies !((#[trigger] psm[i2]).0 == key@ && (
                #[trigger] psm[j2]).0 == key@) by {
                    if psm[i2].0 == key@ && psm[j2].0 == key@ {
                        assert(i2 == i as int && j2 == i as int);
                    }
                }
            }
            return false;
        }
        i += 1;
    }
    false
}

/// Decode the org/bucket/precision information from a request's query
/// string. Absent query strings and empty org or bucket values are
/// `NotSpecified`; undecodable queries, missing keys and unknown precisions
/// are `DecodeFail`.
pub fn decode_write_info(query: &Option<Vec<u8>>) -> (r: Result<WriteInfo, OrgBucketError>)
    ensures
        match r {
            Ok(w) => spec_write_info(
                match query {
                    Some(q) => Some(q@),
                    None => None,
                },
            ) == Ok::<_, OrgBucketError>((w.org@, w.bucket@, w.precision)),
            Err(e) => spec_write_info(
                match query {
                    Some(q) => Some(q@),
                    None => None,
                },
            ) == Err::<(Seq<u8>, Seq<u8>, Precision), _>(e),
        },
{
    let q = match query {
        Some(q) => q,
        None => {
            return Err(OrgBucketError::NotSpecified);
        },
    };
    let pairs = match decode_query_pairs(q.as_slice()) {
        Some(ps) => ps,
        None => {
            return Err(OrgBucketError::DecodeFail);
        },
    };
    let mut org_key: Vec<u8> = Vec::new();
    org_key.push(111);
    org_key.push(114);
    org_key.push(103);
    let mut bucket_key: Vec<u8> = Vec::new();
    bucket_key.push(98);
    bucket_key.push(117);
    bucket_key.push(99);
    bucket_key.push(107);
    bucket_key.push(101);
    bucket_key.push(116);
    let mut precision_key: Vec<u8> = Vec::new();
    precision_key.push(112);
    precision_key.push(114);
    precision_key.push(101);
    precision_key.push(99);
    precision_key.push(105);
    precision_key.push(115);
    precision_key.push(105);
    precision_key.push(111);
    precision_key.push(110);
    proof {
        assert(org_key@ =~= seq![111u8, 114u8, 103u8]);
        assert(bucket_key@ =~= seq![98u8, 117u8, 99u8, 107u8, 101u8, 116u8]);
        assert(precision_key@ =~= seq![
            112u8,
            114u8,
            101u8,
            99u8,
            105u8,
            115u8,
            105u8,
            111u8,
            110u8,
        ]);
    }
    if has_dup_key(&pairs, org_key.as_slice()) || has_dup_key(&pairs, bucket_key.as_slice())
        || has_dup_key(&pairs, precision_key.as_slice()) {
        return Err(OrgBucketError::DecodeFail);
    }
    let org = find_pair(&pairs, org_key.as_slice());
    let bucket = find_pair(&pairs, bucket_key.as_slice());
    let (org, bucket) = match (org, bucket) {
        (Some(o), Some(b)) => (o, b),
        _ => {
            return Err(OrgBucketError::DecodeFail);
        },
    };
    if org.len() == 0 || bucket.len() == 0 {
        return Err(OrgBucketError::NotSpecified);
    }
    let precision = match find_pair(&pairs, precision_key.as_slice()) {
        None => Precision::Nanoseconds,
        Some(pv) => match precision_of(pv.as_slice()) {
            Some(p) => p,
            None => {
                return Err(OrgBucketError::DecodeFail);
            },
        },
    };
    Ok(WriteInfo { org: crate::batch::clone_bytes(org), bucket: crate::batch::clone_bytes(bucket), precision })
}

/// The longest database name the mapping accepts.
pub const MAX_NAMESPACE_LEN: usize = 64;

/// The database name derived from an org/bucket pair: `org_bucket`. Fails
/// only on an empty component or a name beyond the length limit.
pub open spec fn spec_namespace(org: Seq<u8>, bucket: Seq<u8>) -> Option<Seq<u8>> {
    if org.len() == 0 || bucket.len() == 0 || org.len() + 1 + bucket.len()
        > MAX_NAMESPACE_LEN as int {
        None
    } else {
        Some(org + seq![95u8] + bucket)
    }
}

/// Derive the database name for an org/bucket pair.
pub fn org_and_bucket_to_database(org: &Vec<u8>, bucket: &Vec<u8>) -> (r: Result<
    Vec<u8>,
    OrgBucketError,
>)
    ensures
        match r {
            Ok(ns) => spec_namespace(org@, bucket@) == Some(ns@),
            Err(e) => spec_namespace(org@, bucket@) is None && e == OrgBucketError::MappingFail,
        },
{
    if org.len() == 0 || bucket.len() == 0 {
        return Err(OrgBucketError::MappingFail);
    }
    if org.len() > MAX_NAMESPACE_LEN - 1 || bucket.len() > MAX_NAMESPACE_LEN - 1 - org.len() {
        return Err(OrgBucketError::MappingFail);
    }
    let mut ns = crate::batch::clone_bytes(org);
    ns.push(95);
    let mut i: usize = 0;
    let nb = bucket.len();
    while i < nb
        invariant
            0 <= i <= nb,
            nb == bucket@.len(),
            ns@ == org@ + seq![95u8] + bucket@.take(i as int),
        decreases nb - i,
    {
        let ghost before = ns@;
        ns.push(bucket[i]);
        proof {
            assert(org@ + seq![95u8] + bucket@.take(i as int + 1) =~= before.push(
                bucket@[i as int],
            ));
        }
        i += 1;
    }
    proof {
        assert(ns@ =~= org@ + seq![95u8] + bucket@);
        assert(bucket@.take(0) =~= Seq::<u8>::empty());
    }
    Ok(ns)
}

} // verus!

verus! {

/// A bounded counting semaphore: each in-flight request holds one permit for
/// its whole duration, and requests beyond the bound are dropped at the
/// routing stage, before any body is read.
pub struct RequestLimiter {
    max_requests: usize,
    active: usize,
}

impl RequestLimiter {
    /// The configured bound.
    pub closed spec fn spec_max(&self) -> int {
        self.max_requests as int
    }

    /// Permits currently held.
    pub closed spec fn spec_active(&self) -> int {
        self.active as int
    }

    /// No more permits are out than the bound allows.
    pub open spec fn wf(&self) -> bool {
        0 <= self.spec_active() <= self.spec_max()
    }

    /// A limiter admitting up to `max_requests` concurrent requests.
    pub fn new(max_requests: usize) -> (r: Self)
        ensures
            r.wf(),
            r.spec_max() == max_requests,
            r.spec_active() == 0,
    {
        RequestLimiter { max_requests, active: 0 }
    }

    /// Take a permit if one is free: succeeds exactly when a permit is
    /// available, and never blocks.
    pub fn try_acquire(&mut self) -> (r: bool)
        requires
            old(self).wf(),
        ensures
            final(self).wf(),
            final(self).spec_max() == old(self).spec_max(),
            r == (old(self).spec_active() < old(self).spec_max()),
            r ==> final(self).spec_active() == old(self).spec_active() + 1,
            !r ==> final(self).spec_active() == old(self).spec_active(),
    {
        if self.active < self.max_requests {
            self.active = self.active + 1;
            true
        } else {
            false
        }
    }

    /// Return a permit.
    pub fn release(&mut self)
        requires
            old(self).wf(),
            old(self).spec_active() > 0,
        ensures
            final(self).wf(),
            final(self).spec_max() == old(self).spec_max(),
            final(self).spec_active() == old(self).spec_active() - 1,
    {
        self.active = self.active - 1;
    }
}

/// The ingestion path's counters, process-wide and injected into handlers so
/// tests can instantiate fresh instances.
pub struct Metrics {
    /// Cumulative line-protocol lines successfully routed
    /// (`http_write_lines_total`).
    pub http_write_lines_total: u64,
    /// Cumulative line-protocol fields successfully routed
    /// (`http_write_fields_total`).
    pub http_write_fields_total: u64,
    /// Cumulative tables in write requests (`http_write_tables_total`).
    pub http_write_tables_total: u64,
    /// Cumulative decompressed byte size of routed write bodies
    /// (`http_write_body_bytes_total`).
    pub http_write_body_bytes_total: u64,
    /// Cumulative decompressed byte size of routed delete bodies
    /// (`http_delete_body_bytes_total`).
    pub http_delete_body_bytes_total: u64,
    /// Requests dropped at the admission stage
    /// (`http_request_limit_rejected`).
    pub http_request_limit_rejected: u64,
    /// Line-protocol parse invocations observed by the parse-duration
    /// histogram (`http_line_protocol_parse_duration`): the count of samples;
    /// timing itself is the caller's concern.
    pub http_line_protocol_parse_count: u64,
}

impl Metrics {
    /// Fresh counters, all zero.
    pub fn new() -> (r: Self)
        ensures
            r.http_write_lines_total == 0,
            r.http_write_fields_total == 0,
            r.http_write_tables_total == 0,
            r.http_write_body_bytes_total == 0,
            r.http_delete_body_bytes_total == 0,
            r.http_request_limit_rejected == 0,
            r.http_line_protocol_parse_count == 0,
    {
        Metrics {
            http_write_lines_total: 0,
            http_write_fields_total: 0,
            http_write_tables_total: 0,
            http_write_body_bytes_total: 0,
            http_delete_body_bytes_total: 0,
            http_request_limit_rejected: 0,
            http_line_protocol_parse_count: 0,
        }
    }
}

/// Add to a counter, saturating rather than wrapping.
fn counter_add(c: &mut u64, v: u64)
    ensures
        *final(c) == if *old(c) + v <= u64::MAX {
            *old(c) + v
        } else {
            u64::MAX as int
        },
{
    if *c <= u64::MAX - v {
        *c = *c + v;
    } else {
        *c = u64::MAX;
    }
}

/// One plain-value HTTP request, as the surrounding process hands it over:
/// the transport has been read, nothing has been decoded.
pub struct HttpRequest {
    /// The request method, upper case.
    pub method: Vec<u8>,
    /// The URI path.
    pub path: Vec<u8>,
    /// The raw query string, if any.
    pub query: Option<Vec<u8>>,
    /// The `Content-Encoding` header, if any.
    pub content_encoding: Option<Vec<u8>>,
    /// The accumulated request body.
    pub body: Vec<u8>,
}

/// One column comparison of a delete predicate.
pub struct DeleteExpr {
    /// The column compared.
    pub column: Vec<u8>,
    /// The comparison value.
    pub value: Vec<u8>,
}

/// A parsed delete predicate: a timestamp range and column comparisons.
pub struct DeletePredicate {
    /// Inclusive start of the affected time range, nanoseconds.
    pub start_ns: i64,
    /// Inclusive stop of the affected time range, nanoseconds.
    pub stop_ns: i64,
    /// Column equality comparisons, conjoined.
    pub exprs: Vec<DeleteExpr>,
}

impl DeletePredicate {
    /// The comparisons, as column/value pairs.
    pub open spec fn exprs_model(&self) -> Seq<(Seq<u8>, Seq<u8>)> {
        self.exprs@.map_values(|e: DeleteExpr| (e.column@, e.value@))
    }
}

/// The downstream writer: validates schemas, partitions the write and
/// applies it. Implemented by the surrounding process (and by test mocks);
/// the router only routes to it. The router hands it a non-empty namespace
/// and well-formed batches under distinct table names, and promises nothing
/// of what it returns.
pub trait DmlHandler {
    /// Apply a write of per-table batches to a namespace.
    fn write(&mut self, namespace: &Vec<u8>, batches: Vec<(Vec<u8>, MutableBatch)>) -> Result<
        WriteSummary,
        DmlError,
    >
        requires
            namespace@.len() > 0,
            batches@.len() > 0,
            forall|i: int| 0 <= i < batches@.len() ==> (#[trigger] batches@[i]).1.wf(),
            forall|i: int, j: int|
                0 <= i < j < batches@.len() ==> (#[trigger] batches@[i]).0@ != (
                #[trigger] batches@[j]).0@,
    ;

    /// Apply a delete predicate to a table of a namespace.
    fn delete(&mut self, namespace: &Vec<u8>, table: &Vec<u8>, predicate: &DeletePredicate) -> Result<
        (),
        DmlError,
    >
        requires
            namespace@.len() > 0,
            predicate.start_ns <= predicate.stop_ns,
    ;
}

} // verus!

verus! {

/// The method and paths the router dispatches on.
pub open spec fn method_post() -> Seq<u8> {
    seq![80u8, 79u8, 83u8, 84u8]
}

/// The write endpoint path.
pub open spec fn write_path() -> Seq<u8> {
    seq![47u8, 97u8, 112u8, 105u8, 47u8, 118u8, 50u8, 47u8, 119u8, 114u8, 105u8, 116u8, 101u8]
}

/// The delete endpoint path.
pub open spec fn delete_path() -> Seq<u8> {
    seq![
        47u8,
        97u8,
        112u8,
        105u8,
        47u8,
        118u8,
        50u8,
        47u8,
        100u8,
        101u8,
        108u8,
        101u8,
        116u8,
        101u8,
    ]
}

/// `POST`, as bytes.
fn method_post_vec() -> (r: Vec<u8>)
    ensures
        r@ == method_post(),
{
    let mut v: Vec<u8> = Vec::new();
    v.push(80);
    v.push(79);
    v.push(83);
    v.push(84);
    proof {
        assert(v@ =~= method_post());
    }
    v
}

/// `/api/v2/write`, as bytes.
fn write_path_vec() -> (r: Vec<u8>)
    ensures
        r@ == write_path(),
{
    let mut v: Vec<u8> = Vec::new();
    v.push(47);
    v.push(97);
    v.push(112);
    v.push(105);
    v.push(47);
    v.push(118);
    v.push(50);
    v.push(47);
    v.push(119);
    v.push(114);
    v.push(105);
    v.push(116);
    v.push(101);
    proof {
        assert(v@ =~= write_path());
    }
    v
}

/// `/api/v2/delete`, as bytes.
fn delete_path_vec() -> (r: Vec<u8>)
    ensures
        r@ == delete_path(),
{
    let mut v: Vec<u8> = Vec::new();
    v.push(47);
    v.push(97);
    v.push(112);
    v.push(105);
    v.push(47);
    v.push(118);
    v.push(50);
    v.push(47);
    v.push(100);
    v.push(101);
    v.push(108);
    v.push(101);
    v.push(116);
    v.push(101);
    proof {
        assert(v@ =~= delete_path());
    }
    v
}

/// `gzip`, as bytes.
fn gzip_vec() -> (r: Vec<u8>)
    ensures
        r@ == seq![103u8, 122u8, 105u8, 112u8],
{
    let mut v: Vec<u8> = Vec::new();
    v.push(103);
    v.push(122);
    v.push(105);
    v.push(112);
    proof {
        assert(v@ =~= seq![103u8, 122u8, 105u8, 112u8]);
    }
    v
}

/// What decoding a request body yields, exactly: only a missing encoding and
/// `gzip` are accepted; a wire or decompressed size beyond `max` is rejected;
/// gzip output is read through a cap one byte above the limit.
pub open spec fn spec_read_body(req: HttpRequest, max: int) -> Result<Seq<u8>, Error> {
    match req.content_encoding {
        Some(enc) => {
            if enc@ != gzip_text() {
                Err(Error::InvalidContentEncoding)
            } else if req.body@.len() > max {
                Err(Error::RequestSizeExceeded)
            } else {
                match gunzip_prefix(req.body@, (max + 1) as nat) {
                    None => Err(Error::InvalidGzip),
                    Some(o) => if o.len() > max {
                        Err(Error::RequestSizeExceeded)
                    } else {
                        Ok(o)
                    },
                }
            }
        },
        None => {
            if req.body@.len() > max {
                Err(Error::RequestSizeExceeded)
            } else {
                Ok(req.body@)
            }
        },
    }
}

/// Everything the write handler owes around its downstream call: each
/// pre-call stage fails with its own error, if and only if that stage is the
/// first to fail; an empty payload succeeds with an empty summary and no
/// downstream call; after a successful parse only the downstream handler can
/// fail.
pub open spec fn write_stage_obligations(
    max: int,
    req: HttpRequest,
    now_ns: int,
    r: Result<WriteSummary, Error>,
) -> bool {
    let wi = spec_write_info(query_model(req.query));
    &&& (wi matches Err(e) ==> r == Err::<WriteSummary, Error>(Error::InvalidOrgBucket(e)))
    &&& (wi matches Ok(p) ==> {
        if spec_namespace(p.0, p.1) is None {
            r == Err::<WriteSummary, Error>(Error::InvalidOrgBucket(OrgBucketError::MappingFail))
        } else {
            match spec_read_body(req, max) {
                Err(e) => r == Err::<WriteSummary, Error>(e),
                Ok(body) => {
                    if !vstd::utf8::valid_utf8(body) {
                        r == Err::<WriteSummary, Error>(Error::NonUtf8Body)
                    } else {
                        match crate::lineproto::spec_lines_to_batches(
                            body,
                            now_ns,
                            p.2.spec_timestamp_base() as int,
                        ) {
                            Err(LpError::EmptyPayload) => r matches Ok(s) && s.model().len()
                                == 0,
                            Err(e) => r == Err::<WriteSummary, Error>(
                                Error::ParseLineProtocol(e),
                            ),
                            Ok(_) => r matches Err(e) ==> e matches Error::DmlHandler(_),
                        }
                    }
                },
            }
        }
    })
}

/// Everything the delete handler owes around its downstream call, shaped as
/// for writes: the envelope and predicate parses fail with their own errors,
/// if and only if; past them only the downstream handler can fail, and
/// success carries an empty summary.
pub open spec fn delete_stage_obligations(
    max: int,
    req: HttpRequest,
    r: Result<WriteSummary, Error>,
) -> bool {
    let wi = spec_write_info(query_model(req.query));
    &&& (wi matches Err(e) ==> r == Err::<WriteSummary, Error>(Error::InvalidOrgBucket(e)))
    &&& (wi matches Ok(p) ==> {
        if spec_namespace(p.0, p.1) is None {
            r == Err::<WriteSummary, Error>(Error::InvalidOrgBucket(OrgBucketError::MappingFail))
        } else {
            match spec_read_body(req, max) {
                Err(e) => r == Err::<WriteSummary, Error>(e),
                Ok(body) => {
                    if !vstd::utf8::valid_utf8(body) {
                        r == Err::<WriteSummary, Error>(Error::NonUtf8Body)
                    } else {
                        match crate::delete::spec_envelope(body) {
                            None => r == Err::<WriteSummary, Error>(Error::ParseHttpDelete),
                            Some(env) => match crate::delete::spec_delete_predicate(
                                env.0,
                                env.1,
                                env.2,
                            ) {
                                None => r == Err::<WriteSummary, Error>(Error::ParseDelete),
                                Some(_) => {
                                    &&& (r matches Err(e) ==> e matches Error::DmlHandler(_))
                                    &&& (r matches Ok(s) ==> s.model().len() == 0)
                                },
                            },
                        }
                    }
                },
            }
        }
    })
}

/// This type services requests to the router's HTTP endpoint: admission,
/// body handling, decoding, and dispatch to the downstream DML handler.
pub struct HttpDelegate<D> {
    max_request_bytes: usize,
    dml_handler: D,
    request_sem: RequestLimiter,
    metrics: Metrics,
}

impl<D: DmlHandler> HttpDelegate<D> {
    /// The admission limiter's state.
    pub closed spec fn limiter(&self) -> RequestLimiter {
        self.request_sem
    }

    /// The metric counters.
    pub closed spec fn spec_metrics(&self) -> Metrics {
        self.metrics
    }

    /// The configured body-size cap.
    pub closed spec fn spec_max_request_bytes(&self) -> int {
        self.max_request_bytes as int
    }

    /// The delegate's limiter is well formed and the size cap leaves room
    /// for the one-byte decompression sentinel.
    pub open spec fn wf(&self) -> bool {
        self.limiter().wf() && self.spec_max_request_bytes() < usize::MAX
    }

    /// A delegate passing valid requests to `dml_handler`, with bodies
    /// limited to `max_request_bytes` and at most `max_requests` requests in
    /// flight.
    pub fn new(max_request_bytes: usize, max_requests: usize, dml_handler: D) -> (r: Self)
        requires
            max_request_bytes < usize::MAX,
        ensures
            r.wf(),
            r.spec_max_request_bytes() == max_request_bytes,
            r.limiter().spec_max() == max_requests,
            r.limiter().spec_active() == 0,
            r.spec_metrics().http_request_limit_rejected == 0,
            r.spec_metrics().http_write_lines_total == 0,
            r.spec_metrics().http_write_fields_total == 0,
            r.spec_metrics().http_write_tables_total == 0,
            r.spec_metrics().http_write_body_bytes_total == 0,
            r.spec_metrics().http_delete_body_bytes_total == 0,
            r.spec_metrics().http_line_protocol_parse_count == 0,
    {
        HttpDelegate {
            max_request_bytes,
            dml_handler,
            request_sem: RequestLimiter::new(max_requests),
            metrics: Metrics::new(),
        }
    }

    /// The configured body-size cap.
    pub fn max_request_bytes(&self) -> (r: usize)
        ensures
            r as int == self.spec_max_request_bytes(),
    {
        self.max_request_bytes
    }

    /// Read access to the counters.
    pub fn metrics(&self) -> (r: &Metrics)
        ensures
            r == self.spec_metrics(),
    {
        &self.metrics
    }

    /// The downstream handler.
    pub closed spec fn spec_handler(&self) -> D {
        self.dml_handler
    }

    /// Read access to the downstream handler (tests inspect their mocks
    /// through this).
    pub fn handler(&self) -> (r: &D)
        ensures
            r == self.spec_handler(),
    {
        &self.dml_handler
    }

    /// Route a request: take an admission permit (or drop the request with
    /// `RequestLimit` and count the rejection), dispatch `POST` on the write
    /// and delete paths, and release the permit however the handler leaves.
    ///
    /// On success the caller responds `204` with the summary's token in the
    /// `X-IOx-Write-Token` header.
    pub fn route(&mut self, req: &HttpRequest, now_ns: i64) -> (r: Result<WriteSummary, Error>)
        requires
            old(self).wf(),
        ensures
            final(self).wf(),
            final(self).limiter().spec_max() == old(self).limiter().spec_max(),
            final(self).limiter().spec_active() == old(self).limiter().spec_active(),
            final(self).spec_max_request_bytes() == old(self).spec_max_request_bytes(),
            // Admission: a full limiter drops the request and counts it.
            old(self).limiter().spec_active() == old(self).limiter().spec_max() ==> r == Err::<
                WriteSummary,
                Error,
            >(Error::RequestLimit) && final(self).spec_metrics().http_request_limit_rejected
                == sat_add(old(self).spec_metrics().http_request_limit_rejected, 1),
            // An admitted request is never dropped for admission, an
            // unroutable one gets `NoHandler`, and a routable one is held to
            // its handler's obligations.
            old(self).limiter().spec_active() < old(self).limiter().spec_max() ==> {
                &&& r != Err::<WriteSummary, Error>(Error::RequestLimit)
                &&& final(self).spec_metrics().http_request_limit_rejected == old(
                    self,
                ).spec_metrics().http_request_limit_rejected
                &&& (!(req.method@ == method_post() && (req.path@ == write_path() || req.path@
                    == delete_path())) ==> r == Err::<WriteSummary, Error>(Error::NoHandler))
                &&& (req.method@ == method_post() && req.path@ == write_path()
                    ==> write_stage_obligations(old(self).spec_max_request_bytes(), *req, now_ns as int, r))
                &&& (req.method@ == method_post() && req.path@ == delete_path()
                    ==> delete_stage_obligations(old(self).spec_max_request_bytes(), *req, r))
            },
    {
        if !self.request_sem.try_acquire() {
            counter_add(&mut self.metrics.http_request_limit_rejected, 1);
            return Err(Error::RequestLimit);
        }
        let r = self.route_inner(req, now_ns);
        self.request_sem.release();
        r
    }

    /// Dispatch an admitted request to its handler.
    fn route_inner(&mut self, req: &HttpRequest, now_ns: i64) -> (r: Result<WriteSummary, Error>)
        requires
            old(self).wf(),
        ensures
            final(self).wf(),
            final(self).limiter() == old(self).limiter(),
            final(self).spec_max_request_bytes() == old(self).spec_max_request_bytes(),
            final(self).spec_metrics().http_request_limit_rejected == old(
                self,
            ).spec_metrics().http_request_limit_rejected,
            r != Err::<WriteSummary, Error>(Error::RequestLimit),
            !(req.method@ == method_post() && (req.path@ == write_path() || req.path@
                == delete_path())) ==> r == Err::<WriteSummary, Error>(Error::NoHandler),
            req.method@ == method_post() && req.path@ == write_path() ==> write_stage_obligations(
                old(self).spec_max_request_bytes(),
                *req,
                now_ns as int,
                r,
            ),
            req.method@ == method_post() && req.path@ == delete_path()
                ==> delete_stage_obligations(old(self).spec_max_request_bytes(), *req, r),
    {
        let post = method_post_vec();
        let wp = write_path_vec();
        let dp = delete_path_vec();
        if !bytes_eq(req.method.as_slice(), post.as_slice()) {
            return Err(Error::NoHandler);
        }
        if bytes_eq(req.path.as_slice(), wp.as_slice()) {
            self.write_handler(req, now_ns)
        } else if bytes_eq(req.path.as_slice(), dp.as_slice()) {
            self.delete_handler(req)
        } else {
            Err(Error::NoHandler)
        }
    }

    /// Decode the request body: enforce the size cap, then apply the content
    /// encoding. Only a missing encoding and `gzip` are accepted. Gzip output
    /// is read through a cap one byte above the limit, so a decompression
    /// bomb is rejected after at most `max_request_bytes + 1` output bytes.
    pub fn read_body(&self, req: &HttpRequest) -> (r: Result<Vec<u8>, Error>)
        requires
            self.spec_max_request_bytes() < usize::MAX,
        ensures
            match r {
                Ok(out) => spec_read_body(*req, self.spec_max_request_bytes()) == Ok::<
                    Seq<u8>,
                    Error,
                >(out@),
                Err(e) => spec_read_body(*req, self.spec_max_request_bytes()) == Err::<
                    Seq<u8>,
                    Error,
                >(e),
            },
    {
        let gz = gzip_vec();
        let ungzip = match &req.content_encoding {
            None => false,
            Some(enc) => {
                if bytes_eq(enc.as_slice(), gz.as_slice()) {
                    true
                } else {
                    return Err(Error::InvalidContentEncoding);
                }
            },
        };
        if req.body.len() > self.max_request_bytes {
            return Err(Error::RequestSizeExceeded);
        }
        if !ungzip {
            return Ok(crate::batch::clone_bytes(&req.body));
        }
        // Read at most one byte beyond the cap: a longer (possibly truncated)
        // stream is over the limit either way, and a decompression bomb costs
        // at most one byte past the cap.
        let cap = (self.max_request_bytes as u64) + 1;
        match gunzip_capped(&req.body, cap) {
            Ok(out) => {
                if out.len() > self.max_request_bytes {
                    return Err(Error::RequestSizeExceeded);
                }
                Ok(out)
            },
            Err(_) => Err(Error::InvalidGzip),
        }
    }

    /// Handle a write: decode org/bucket/precision, derive the namespace,
    /// decode the body, parse the line protocol with timestamps scaled by
    /// the precision (points without one get `now_ns`), and pass the batches
    /// downstream. An empty payload succeeds with an empty summary and no
    /// downstream call.
    fn write_handler(&mut self, req: &HttpRequest, now_ns: i64) -> (r: Result<WriteSummary, Error>)
        requires
            old(self).wf(),
        ensures
            final(self).wf(),
            r matches Err(e) ==> e != Error::NoHandler && e != Error::RequestLimit,
            final(self).limiter() == old(self).limiter(),
            final(self).spec_max_request_bytes() == old(self).spec_max_request_bytes(),
            write_stage_obligations(old(self).spec_max_request_bytes(), *req, now_ns as int, r),
            // Counters: untouched up to a successful parse; the parse counter
            // moves once the payload parsed; the routed-body counter moves on
            // success. The line/field/table counters also move on success,
            // by the parsed payload's counts.
            final(self).spec_metrics().http_request_limit_rejected == old(
                self,
            ).spec_metrics().http_request_limit_rejected,
            final(self).spec_metrics().http_delete_body_bytes_total == old(
                self,
            ).spec_metrics().http_delete_body_bytes_total,
            (r matches Err(e) && !(e matches Error::DmlHandler(_))) ==> final(self).spec_metrics()
                == old(self).spec_metrics(),
            (r matches Err(e) && e matches Error::DmlHandler(_)) ==> {
                &&& final(self).spec_metrics().http_line_protocol_parse_count == sat_add(
                    old(self).spec_metrics().http_line_protocol_parse_count,
                    1,
                )
                &&& final(self).spec_metrics().http_write_lines_total == old(
                    self,
                ).spec_metrics().http_write_lines_total
                &&& final(self).spec_metrics().http_write_fields_total == old(
                    self,
                ).spec_metrics().http_write_fields_total
                &&& final(self).spec_metrics().http_write_tables_total == old(
                    self,
                ).spec_metrics().http_write_tables_total
                &&& final(self).spec_metrics().http_write_body_bytes_total == old(
                    self,
                ).spec_metrics().http_write_body_bytes_total
            },
            r is Ok ==> ({
                let wi = spec_write_info(query_model(req.query));
                &&& wi matches Ok(p)
                &&& spec_read_body(*req, old(self).spec_max_request_bytes()) matches Ok(body)
                &&& match crate::lineproto::spec_lines_to_batches(
                    body,
                    now_ns as int,
                    p.2.spec_timestamp_base() as int,
                ) {
                    // Only an empty payload reaches success without a parse:
                    // nothing was routed and no counter moves.
                    Err(_) => final(self).spec_metrics() == old(self).spec_metrics(),
                    Ok(pp) => {
                        &&& final(self).spec_metrics().http_line_protocol_parse_count == sat_add(
                            old(self).spec_metrics().http_line_protocol_parse_count,
                            1,
                        )
                        &&& final(self).spec_metrics().http_write_lines_total == sat_add(
                            old(self).spec_metrics().http_write_lines_total,
                            pp.1,
                        )
                        &&& final(self).spec_metrics().http_write_fields_total == sat_add(
                            old(self).spec_metrics().http_write_fields_total,
                            pp.2,
                        )
                        &&& final(self).spec_metrics().http_write_tables_total == sat_add(
                            old(self).spec_metrics().http_write_tables_total,
                            pp.0.len() as int,
                        )
                        &&& final(self).spec_metrics().http_write_body_bytes_total == sat_add(
                            old(self).spec_metrics().http_write_body_bytes_total,
                            body.len() as int,
                        )
                    },
                }
            }),
    {
        let info = match decode_write_info(&req.query) {
            Ok(i) => i,
            Err(e) => {
                return Err(Error::InvalidOrgBucket(e));
            },
        };
        let namespace = match org_and_bucket_to_database(&info.org, &info.bucket) {
            Ok(ns) => ns,
            Err(e) => {
                return Err(Error::InvalidOrgBucket(e));
            },
        };
        let body = match self.read_body(req) {
            Ok(b) => b,
            Err(e) => {
                return Err(e);
            },
        };
        if !check_utf8(body.as_slice()) {
            return Err(Error::NonUtf8Body);
        }
        let base = info.precision.timestamp_base();
        let (batches, stats) = match lines_to_batches(body.as_slice(), now_ns, base) {
            Ok(v) => v,
            Err(LpError::EmptyPayload) => {
                return Ok(WriteSummary::new());
            },
            Err(e) => {
                return Err(Error::ParseLineProtocol(e));
            },
        };
        counter_add(&mut self.metrics.http_line_protocol_parse_count, 1);
        let num_tables = batches.len();
        let summary = match self.dml_handler.write(&namespace, batches) {
            Ok(s) => s,
            Err(e) => {
                return Err(Error::DmlHandler(e));
            },
        };
        counter_add(&mut self.metrics.http_write_lines_total, stats.num_lines as u64);
        counter_add(&mut self.metrics.http_write_fields_total, stats.num_fields as u64);
        counter_add(&mut self.metrics.http_write_tables_total, num_tables as u64);
        counter_add(&mut self.metrics.http_write_body_bytes_total, body.len() as u64);
        Ok(summary)
    }

    /// Handle a delete: decode org/bucket, derive the namespace, decode the
    /// body, parse the envelope and its predicate, and pass the delete
    /// downstream. Returns an empty summary.
    fn delete_handler(&mut self, req: &HttpRequest) -> (r: Result<WriteSummary, Error>)
        requires
            old(self).wf(),
        ensures
            final(self).wf(),
            r matches Err(e) ==> e != Error::NoHandler && e != Error::RequestLimit,
            final(self).limiter() == old(self).limiter(),
            final(self).spec_max_request_bytes() == old(self).spec_max_request_bytes(),
            delete_stage_obligations(old(self).spec_max_request_bytes(), *req, r),
            // Counters: untouched until the delete went through, then the
            // routed delete-body counter moves by the decoded body's size.
            r is Err ==> final(self).spec_metrics() == old(self).spec_metrics(),
            r is Ok ==> {
                &&& spec_read_body(*req, old(self).spec_max_request_bytes()) matches Ok(body)
                    && final(self).spec_metrics().http_delete_body_bytes_total == sat_add(
                    old(self).spec_metrics().http_delete_body_bytes_total,
                    body.len() as int,
                )
                &&& final(self).spec_metrics().http_request_limit_rejected == old(
                    self,
                ).spec_metrics().http_request_limit_rejected
                &&& final(self).spec_metrics().http_write_lines_total == old(
                    self,
                ).spec_metrics().http_write_lines_total
                &&& final(self).spec_metrics().http_write_fields_total == old(
                    self,
                ).spec_metrics().http_write_fields_total
                &&& final(self).spec_metrics().http_write_tables_total == old(
                    self,
                ).spec_metrics().http_write_tables_total
                &&& final(self).spec_metrics().http_write_body_bytes_total == old(
                    self,
                ).spec_metrics().http_write_body_bytes_total
                &&& final(self).spec_metrics().http_line_protocol_parse_count == old(
                    self,
                ).spec_metrics().http_line_protocol_parse_count
            },
    {
        let info = match decode_write_info(&req.query) {
            Ok(i) => i,
            Err(e) => {
                return Err(Error::InvalidOrgBucket(e));
            },
        };
        let namespace = match org_and_bucket_to_database(&info.org, &info.bucket) {
            Ok(ns) => ns,
            Err(e) => {
                return Err(Error::InvalidOrgBucket(e));
            },
        };
        let body = match self.read_body(req) {
            Ok(b) => b,
            Err(e) => {
                return Err(e);
            },
        };
        if !check_utf8(body.as_slice()) {
            return Err(Error::NonUtf8Body);
        }
        let parsed = match crate::delete::parse_http_delete_request(body.as_slice()) {
            Ok(p) => p,
            Err(_) => {
                return Err(Error::ParseHttpDelete);
            },
        };
        let (table, predicate) = match crate::delete::parse_delete_predicate(
            parsed.start_time.as_slice(),
            parsed.stop_time.as_slice(),
            parsed.predicate.as_slice(),
        ) {
            Ok(p) => p,
            Err(_) => {
                return Err(Error::ParseDelete);
            },
        };
        match self.dml_handler.delete(&namespace, &table, &predicate) {
            Ok(()) => {},
            Err(e) => {
                return Err(Error::DmlHandler(e));
            },
        }
        counter_add(&mut self.metrics.http_delete_body_bytes_total, body.len() as u64);
        Ok(WriteSummary::new())
    }
}

} // verus!
