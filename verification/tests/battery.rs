use bitfold::battery::group_totals;
use bitfold::kats::Check;

fn check(name: &str, ok: bool) -> Check {
    Check {
        name: name.to_string(),
        ok,
        detail: String::new(),
    }
}

#[test]
fn group_totals_counts_by_prefix_in_report_order() {
    let checks = vec![
        check("xval-our-dynamic-fox", true),
        check("rfc-canonical-example", true),
        check("rfc-fixed-lit-codes", false),
        check("run-encode-decode-roundtrip", true),
        check("bit-lsb-pattern", true),
        check("stored-block-pinned", true),
        check("fixed-block-pinned", false),
        check("overlap-match-kat", true),
        check("zlib-container-hello", true),
        check("hash-001", true),
    ];
    let rows = group_totals(&checks);
    assert_eq!(
        rows,
        vec![
            ("rfc1951", (2, 1)),
            ("bits", (1, 1)),
            ("blocks", (4, 3)),
            ("hash", (1, 1)),
            ("xval", (1, 1)),
        ]
    );
}

#[test]
fn group_totals_skips_empty_groups() {
    let checks = vec![check("hash-001", false), check("hash-002", true), check("other", true)];
    assert_eq!(group_totals(&checks), vec![("hash", (2, 1))]);
    assert!(group_totals(&[]).is_empty());
}

#[test]
fn group_totals_prefix_is_exact() {
    // "rfc" without the dash and "bits-" with a different dash position do not match.
    let checks = vec![check("rfc", true), check("bi-t", true), check("Rfc-x", true)];
    assert!(group_totals(&checks).is_empty());
}
