//! KAT battery: every check must pass, and the count must be pinned.

use bitfold::battery::group_totals;
use bitfold::kats::{check_count, run_all};

#[test]
fn full_battery_passes() {
    let checks = run_all();
    let failed: Vec<_> = checks.iter().filter(|c| !c.ok).collect();
    assert_eq!(
        failed.len(),
        0,
        "failed: {}",
        failed
            .iter()
            .take(8)
            .map(|c| format!("{}: {}", c.name, c.detail))
            .collect::<Vec<_>>()
            .join("; ")
    );
    println!(
        "battery: {}/{} checks passed",
        checks.iter().filter(|c| c.ok).count(),
        checks.len()
    );
}

#[test]
fn battery_count_matches_static_count() {
    assert_eq!(run_all().len(), check_count());
    assert_eq!(check_count(), 32);
}

#[test]
fn battery_groups_in_report_order() {
    let checks = run_all();
    let names: Vec<&str> = checks.iter().map(|c| c.name.as_str()).collect();
    for want in [
        "rfc-canonical-example",
        "rfc-run-example-8x12",
        "rfc-length-code-roundtrip",
        "rfc-distance-code-roundtrip",
        "run-encode-decode-roundtrip",
        "bit-lsb-pattern",
        "bit-huff-pattern",
        "stored-block-pinned",
        "fixed-block-pinned",
        "overlap-match-kat",
        "zlib-container-hello",
        "zlib-headers-rejected",
        "hash-001",
        "hash-006",
        "xval-our-dynamic-fox",
        "xval-cpython-fixed-fox-1",
        "xval-cpython-fixed-fox-6",
        "xval-cpython-fixed-data",
    ] {
        assert!(names.iter().any(|n| *n == want), "missing {want}");
    }
    assert_eq!(
        group_totals(&checks),
        vec![
            ("rfc1951", (12, 12)),
            ("bits", (4, 4)),
            ("blocks", (5, 5)),
            ("hash", (6, 6)),
            ("xval", (4, 4)),
        ]
    );
}

#[test]
fn battery_details_are_readable() {
    let checks = run_all();
    let find = |n: &str| checks.iter().find(|c| c.name == n).unwrap().detail.clone();
    assert_eq!(
        find("rfc-canonical-example"),
        "A..H codes = [2, 3, 4, 5, 6, 0, 14, 15] (want A=010 B=011 C=100 D=101 E=110 F=00 G=1110 H=1111)"
    );
    assert_eq!(find("bit-lsb-pattern"), "lsb(0b110)+lsb(0b1010)+lsb(1) = d6 (want 0xd6)");
    assert_eq!(
        find("bit-64-lsb"),
        "lsb64(0xdeadbeefcafe1234) = 3412fecaefbeadde, read back = 0xdeadbeefcafe1234"
    );
    assert_eq!(find("stored-block-pinned"), "raw stored 0x010300fcff414243 -> Ok([65, 66, 67])");
    assert_eq!(find("overlap-match-kat"), "XY + match{5,2} -> \"XYXYXYX\"");
    assert_eq!(
        find("hash-004"),
        "len 9 adler(0x00000001)=0x091e01de crc(0x00000000)=0xcbf43926"
    );
    assert!(find("zlib-headers-rejected").starts_with("bad-checksum=Err(Truncated) bad-cmf=Err(BadFormat)"));
}
