use std::io::Write;

use iox_core::batch::MutableBatch;
use iox_core::http::{DeletePredicate, DmlError, Error, HttpDelegate, HttpRequest, OrgBucketError,
    Precision, RequestLimiter};
use iox_core::summary::WriteSummary;

#[derive(Default)]
struct MockDml {
    writes: Vec<(Vec<u8>, Vec<(Vec<u8>, MutableBatch)>)>,
    deletes: Vec<(Vec<u8>, Vec<u8>)>,
    fail_with: Option<DmlError>,
}

impl iox_core::http::DmlHandler for MockDml {
    fn write(
        &mut self,
        namespace: &Vec<u8>,
        batches: Vec<(Vec<u8>, MutableBatch)>,
    ) -> Result<WriteSummary, DmlError> {
        if let Some(e) = self.fail_with {
            return Err(e);
        }
        self.writes.push((namespace.clone(), batches));
        Ok(WriteSummary::new())
    }

    fn delete(
        &mut self,
        namespace: &Vec<u8>,
        table: &Vec<u8>,
        _predicate: &DeletePredicate,
    ) -> Result<(), DmlError> {
        if let Some(e) = self.fail_with {
            return Err(e);
        }
        self.deletes.push((namespace.clone(), table.clone()));
        Ok(())
    }
}

const MAX_BYTES: usize = 1024;

fn write_request(query: &str, body: &[u8]) -> HttpRequest {
    HttpRequest {
        method: b"POST".to_vec(),
        path: b"/api/v2/write".to_vec(),
        query: if query.is_empty() { None } else { Some(query.as_bytes().to_vec()) },
        content_encoding: None,
        body: body.to_vec(),
    }
}

#[test]
fn test_write_ok() {
    let mut delegate = HttpDelegate::new(MAX_BYTES, 100, MockDml::default());
    let req = write_request("org=bananas&bucket=test", b"platanos,tag1=A,tag2=B val=42i 123456");
    let r = delegate.route(&req, 0);
    assert!(r.is_ok());
}

#[test]
fn test_write_records_namespace() {
    let req = write_request("org=bananas&bucket=test", b"platanos,tag1=A val=42i 123456");
    let mut delegate = HttpDelegate::new(MAX_BYTES, 100, MockDml::default());
    delegate.route(&req, 0).unwrap();
    // The write went downstream under the derived namespace.
    assert_eq!(delegate.handler().writes.len(), 1);
    assert_eq!(delegate.handler().writes[0].0, b"bananas_test".to_vec());
    assert_eq!(delegate.handler().writes[0].1.len(), 1);
    assert_eq!(delegate.handler().writes[0].1[0].0, b"platanos".to_vec());
}

#[test]
fn test_percent_decoded_org() {
    // The query string is percent-decoded before the namespace is derived.
    let mut delegate = HttpDelegate::new(MAX_BYTES, 100, MockDml::default());
    let req = write_request("org=big%20org&bucket=test", b"cpu val=1i 1");
    delegate.route(&req, 0).unwrap();
    assert_eq!(delegate.handler().writes[0].0, b"big org_test".to_vec());
}

#[test]
fn test_no_query_params() {
    let mut delegate = HttpDelegate::new(MAX_BYTES, 100, MockDml::default());
    let req = write_request("", b"platanos val=42i 123456");
    let r = delegate.route(&req, 0);
    assert_eq!(r.err().unwrap(), Error::InvalidOrgBucket(OrgBucketError::NotSpecified));
}

#[test]
fn test_no_org_bucket() {
    let mut delegate = HttpDelegate::new(MAX_BYTES, 100, MockDml::default());
    let mut req = write_request("", b"");
    req.query = Some(Vec::new());
    let r = delegate.route(&req, 0);
    assert_eq!(r.err().unwrap(), Error::InvalidOrgBucket(OrgBucketError::DecodeFail));
}

#[test]
fn test_empty_org_bucket() {
    let mut delegate = HttpDelegate::new(MAX_BYTES, 100, MockDml::default());
    let req = write_request("org=&bucket=", b"");
    let r = delegate.route(&req, 0);
    assert_eq!(r.err().unwrap(), Error::InvalidOrgBucket(OrgBucketError::NotSpecified));
}

#[test]
fn test_invalid_org_bucket() {
    let mut delegate = HttpDelegate::new(MAX_BYTES, 100, MockDml::default());
    let q = format!("org=test&bucket={}", "A".repeat(1000));
    let req = write_request(&q, b"");
    let r = delegate.route(&req, 0);
    assert_eq!(r.err().unwrap(), Error::InvalidOrgBucket(OrgBucketError::MappingFail));
}

#[test]
fn test_invalid_line_protocol() {
    let mut delegate = HttpDelegate::new(MAX_BYTES, 100, MockDml::default());
    let req = write_request("org=bananas&bucket=test", b"not line protocol");
    let r = delegate.route(&req, 0);
    assert!(matches!(r.err().unwrap(), Error::ParseLineProtocol(_)));
}

#[test]
fn test_non_utf8_body() {
    let mut delegate = HttpDelegate::new(MAX_BYTES, 100, MockDml::default());
    let req = write_request("org=bananas&bucket=test", &[0xc3, 0x28]);
    let r = delegate.route(&req, 0);
    assert_eq!(r.err().unwrap(), Error::NonUtf8Body);
}

#[test]
fn test_empty_write_succeeds() {
    let mut delegate = HttpDelegate::new(MAX_BYTES, 100, MockDml::default());
    let req = write_request("org=bananas&bucket=test", b"");
    let r = delegate.route(&req, 0);
    assert!(r.is_ok());
}

#[test]
fn test_not_found() {
    let mut delegate = HttpDelegate::new(MAX_BYTES, 100, MockDml::default());
    let req = HttpRequest {
        method: b"POST".to_vec(),
        path: b"/wat".to_vec(),
        query: None,
        content_encoding: None,
        body: Vec::new(),
    };
    let r = delegate.route(&req, 0);
    assert_eq!(r.err().unwrap(), Error::NoHandler);
    assert_eq!(Error::NoHandler.as_status_code(), 404);
}

#[test]
fn test_dml_error_passthrough() {
    let mut dml = MockDml::default();
    dml.fail_with = Some(DmlError::DatabaseNotFound);
    let mut delegate = HttpDelegate::new(MAX_BYTES, 100, dml);
    let req = write_request("org=bananas&bucket=test", b"platanos val=42i 123456");
    let r = delegate.route(&req, 0);
    assert_eq!(r.err().unwrap(), Error::DmlHandler(DmlError::DatabaseNotFound));
    assert_eq!(Error::DmlHandler(DmlError::DatabaseNotFound).as_status_code(), 404);
    assert_eq!(Error::DmlHandler(DmlError::Internal).as_status_code(), 500);
}

#[test]
fn test_request_size_limit() {
    let mut delegate = HttpDelegate::new(8, 100, MockDml::default());
    let req = write_request("org=bananas&bucket=test", b"platanos,tag1=A val=42i 123456");
    let r = delegate.route(&req, 0);
    assert_eq!(r.err().unwrap(), Error::RequestSizeExceeded);
    assert_eq!(Error::RequestSizeExceeded.as_status_code(), 413);
}

#[test]
fn test_gzip_write() {
    let mut e = flate2::write::GzEncoder::new(Vec::new(), flate2::Compression::default());
    e.write_all(b"platanos,tag1=A val=42i 123456").unwrap();
    let compressed = e.finish().unwrap();

    let mut req = write_request("org=bananas&bucket=test", &compressed);
    req.content_encoding = Some(b"gzip".to_vec());
    let mut delegate = HttpDelegate::new(MAX_BYTES, 100, MockDml::default());
    let r = delegate.route(&req, 0);
    assert!(r.is_ok(), "{r:?}");
}

#[test]
fn test_gzip_bomb_rejected() {
    // Decompressing far past the limit is rejected with the size error.
    let mut e = flate2::write::GzEncoder::new(Vec::new(), flate2::Compression::best());
    e.write_all(&vec![0u8; 256 * 1024]).unwrap();
    let compressed = e.finish().unwrap();
    assert!(compressed.len() <= MAX_BYTES, "the bomb must slip under the wire limit");

    let mut req = write_request("org=bananas&bucket=test", &compressed);
    req.content_encoding = Some(b"gzip".to_vec());
    let mut delegate = HttpDelegate::new(MAX_BYTES, 100, MockDml::default());
    let r = delegate.route(&req, 0);
    assert_eq!(r.err().unwrap(), Error::RequestSizeExceeded);
}

#[test]
fn test_invalid_content_encoding() {
    let mut req = write_request("org=bananas&bucket=test", b"x");
    req.content_encoding = Some(b"deflate".to_vec());
    let mut delegate = HttpDelegate::new(MAX_BYTES, 100, MockDml::default());
    let r = delegate.route(&req, 0);
    assert_eq!(r.err().unwrap(), Error::InvalidContentEncoding);
    assert_eq!(Error::InvalidContentEncoding.as_status_code(), 415);
}

#[test]
fn test_invalid_gzip() {
    let mut req = write_request("org=bananas&bucket=test", b"not gzip at all");
    req.content_encoding = Some(b"gzip".to_vec());
    let mut delegate = HttpDelegate::new(MAX_BYTES, 100, MockDml::default());
    let r = delegate.route(&req, 0);
    assert_eq!(r.err().unwrap(), Error::InvalidGzip);
}

#[test]
fn test_request_limit_enforced() {
    // A limiter with no free permits drops the request before the body is
    // touched, and counts the rejection; freeing capacity admits new
    // requests.
    let mut limiter = RequestLimiter::new(1);
    assert!(limiter.try_acquire());
    assert!(!limiter.try_acquire());
    limiter.release();
    assert!(limiter.try_acquire());

    let mut delegate = HttpDelegate::new(MAX_BYTES, 0, MockDml::default());
    let req = write_request("org=bananas&bucket=test", b"cpu field=1i");
    let r = delegate.route(&req, 0);
    assert_eq!(r.err().unwrap(), Error::RequestLimit);
    assert_eq!(Error::RequestLimit.as_status_code(), 503);
    assert_eq!(delegate.metrics().http_request_limit_rejected, 1);

    // A delegate with capacity services the same request.
    let mut ok_delegate = HttpDelegate::new(MAX_BYTES, 1, MockDml::default());
    assert!(ok_delegate.route(&req, 0).is_ok());
    assert_eq!(ok_delegate.metrics().http_request_limit_rejected, 0);
}

#[test]
fn test_precision_values() {
    assert_eq!(Precision::Seconds.timestamp_base(), 1_000_000_000);
    assert_eq!(Precision::Milliseconds.timestamp_base(), 1_000_000);
    assert_eq!(Precision::Microseconds.timestamp_base(), 1_000);
    assert_eq!(Precision::Nanoseconds.timestamp_base(), 1);
    assert_eq!(Precision::default(), Precision::Nanoseconds);
}

#[test]
fn test_write_precision_s() {
    // The precision query parameter scales provided timestamps: the batch
    // handed downstream carries the second timestamp in nanoseconds.
    let mut delegate = HttpDelegate::new(MAX_BYTES, 100, MockDml::default());
    let req = write_request(
        "org=bananas&bucket=test&precision=s",
        b"platanos,tag1=A val=42i 1647622847",
    );
    delegate.route(&req, 0).unwrap();
    assert_eq!(delegate.handler().writes.len(), 1);
    let batches = &delegate.handler().writes[0].1;
    assert_eq!(batches[0].0, b"platanos".to_vec());
    let b = &batches[0].1;
    let c = b.find_column(b"time").expect("time column missing");
    assert_eq!(
        b.get_cell(c, 0),
        Some(iox_core::batch::FieldValue::I64(1647622847000000000))
    );
}

#[test]
fn test_duplicate_query_key_rejected() {
    // A repeated org/bucket/precision key fails decoding.
    let mut delegate = HttpDelegate::new(MAX_BYTES, 100, MockDml::default());
    let req = write_request("org=a&org=b&bucket=test", b"cpu val=1i 1");
    let r = delegate.route(&req, 0);
    assert_eq!(r.err().unwrap(), Error::InvalidOrgBucket(OrgBucketError::DecodeFail));
}

#[test]
fn test_delete_ok() {
    let mut delegate = HttpDelegate::new(MAX_BYTES, 100, MockDml::default());
    let req = HttpRequest {
        method: b"POST".to_vec(),
        path: b"/api/v2/delete".to_vec(),
        query: Some(b"org=bananas&bucket=test".to_vec()),
        content_encoding: None,
        body: br#"{"start":"2021-04-01T14:00:00Z","stop":"2021-04-02T14:00:00Z", "predicate":"_measurement=its_a_table and location=Boston"}"#.to_vec(),
    };
    let r = delegate.route(&req, 0);
    assert!(r.is_ok(), "{r:?}");
    assert_eq!(delegate.handler().deletes.len(), 1);
    assert_eq!(delegate.handler().deletes[0].0, b"bananas_test".to_vec());
    assert_eq!(delegate.handler().deletes[0].1, b"its_a_table".to_vec());
}

#[test]
fn test_delete_integer_time_bounds() {
    // Plain nanosecond counts are accepted as bounds, and the summary of a
    // delete is empty.
    let mut delegate = HttpDelegate::new(MAX_BYTES, 100, MockDml::default());
    let req = HttpRequest {
        method: b"POST".to_vec(),
        path: b"/api/v2/delete".to_vec(),
        query: Some(b"org=bananas&bucket=test".to_vec()),
        content_encoding: None,
        body: br#"{"start":"-5","stop":"100","predicate":"_measurement=t"}"#.to_vec(),
    };
    let summary = delegate.route(&req, 0).expect("delete should succeed");
    assert_eq!(summary.len(), 0);
    assert_eq!(delegate.handler().deletes[0].1, b"t".to_vec());
}

#[test]
fn test_delete_reversed_range_rejected() {
    let mut delegate = HttpDelegate::new(MAX_BYTES, 100, MockDml::default());
    let req = HttpRequest {
        method: b"POST".to_vec(),
        path: b"/api/v2/delete".to_vec(),
        query: Some(b"org=bananas&bucket=test".to_vec()),
        content_encoding: None,
        body: br#"{"start":"100","stop":"5","predicate":""}"#.to_vec(),
    };
    let r = delegate.route(&req, 0);
    assert_eq!(r.err().unwrap(), Error::ParseDelete);
}

#[test]
fn test_delete_envelope_needs_separators() {
    // Members must be comma separated, and unknown escapes fail.
    let mut delegate = HttpDelegate::new(MAX_BYTES, 100, MockDml::default());
    let mut req = HttpRequest {
        method: b"POST".to_vec(),
        path: b"/api/v2/delete".to_vec(),
        query: Some(b"org=bananas&bucket=test".to_vec()),
        content_encoding: None,
        body: br#"{"start":"1" "stop":"2"}"#.to_vec(),
    };
    assert_eq!(delegate.route(&req, 0).err().unwrap(), Error::ParseHttpDelete);
    req.body = br#"{"start":"1","stop":"2","predicate":"a=\qb"}"#.to_vec();
    assert_eq!(delegate.route(&req, 0).err().unwrap(), Error::ParseHttpDelete);
}

#[test]
fn test_delete_invalid_body() {
    let mut delegate = HttpDelegate::new(MAX_BYTES, 100, MockDml::default());
    let req = HttpRequest {
        method: b"POST".to_vec(),
        path: b"/api/v2/delete".to_vec(),
        query: Some(b"org=bananas&bucket=test".to_vec()),
        content_encoding: None,
        body: b"{wat}".to_vec(),
    };
    let r = delegate.route(&req, 0);
    assert_eq!(r.err().unwrap(), Error::ParseHttpDelete);
}
