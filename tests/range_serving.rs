use mcpatch_manager::serve::{parse_request, plan_range, reply_header, RangeReply};

#[test]
fn range_within_file() {
    assert_eq!(plan_range(512, 522, Some(2048)), RangeReply::Send { start: 512, len: 10 });
    assert_eq!(reply_header(RangeReply::Send { start: 512, len: 10 }), 10i64.to_le_bytes().to_vec());
}

#[test]
fn range_beyond_file() {
    let r = plan_range(0, 4096, Some(2048));
    assert_eq!(r, RangeReply::OutOfRange);
    assert_eq!(reply_header(r), (-2i64).to_le_bytes().to_vec());
}

#[test]
fn missing_file() {
    let r = plan_range(0, 1, None);
    assert_eq!(r, RangeReply::NotFound);
    assert_eq!(reply_header(r), (-1i64).to_le_bytes().to_vec());
}

#[test]
fn whole_file_when_range_is_empty() {
    assert_eq!(plan_range(0, 0, Some(77)), RangeReply::Send { start: 0, len: 77 });
    assert_eq!(plan_range(5, 5, Some(77)), RangeReply::Send { start: 5, len: 0 });
}

#[test]
fn request_bytes() {
    let mut b = Vec::new();
    b.extend(6u64.to_le_bytes());
    b.extend(b"1.0.tar");
    let mut ok = b.clone();
    ok.truncate(8 + 6);
    ok.extend(100u64.to_le_bytes());
    ok.extend(200u64.to_le_bytes());
    let q = parse_request(&ok).unwrap();
    assert_eq!((q.path.as_str(), q.start, q.end), ("1.0.ta", 100, 200));
    let mut extra = ok.clone();
    extra.push(0);
    assert!(parse_request(&extra).is_none());
    assert!(parse_request(&ok[..ok.len() - 1]).is_none());
}
