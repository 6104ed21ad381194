use pcore_blake3::cpulist::{cpu_list_from_sysfs, parse_cpu_list, MAX_CPU_ID};

/// Differential regression corpus for the strict cpulist grammar.
const CORPUS: &[(&str, Option<&[usize]>)] = &[
    // canonical sysfs forms
    ("0-11", Some(&[0, 1, 2, 3, 4, 5, 6, 7, 8, 9, 10, 11])),
    ("12-19", Some(&[12, 13, 14, 15, 16, 17, 18, 19])),
    ("0-19", Some(&[0, 1, 2, 3, 4, 5, 6, 7, 8, 9, 10, 11, 12, 13, 14, 15, 16, 17, 18, 19])),
    ("0", Some(&[0])),
    ("0,2-5", Some(&[0, 2, 3, 4, 5])),
    ("0-3,8,10-11", Some(&[0, 1, 2, 3, 8, 10, 11])),
    ("007", Some(&[7])),
    ("8191", Some(&[8191])),
    ("", Some(&[])),
    // tolerated legacy form: one trailing comma
    ("5,", Some(&[5])),
    ("0-3,", Some(&[0, 1, 2, 3])),
    // rejected
    ("5,,6", None),
    ("5,,", None),
    ("0-3junk", None),
    ("5 , 6", None),
    (" 7", None),
    ("-1", None),
    ("3-0", None),
    ("0-", None),
    ("-", None),
    (",", None),
    ("abc", None),
    ("1-2-3", None),
    ("+5", None),
    ("8192", None),                 // > MAX_CPU_ID
    ("0-999999999999", None),       // would OOM without the value cap
    ("18446744073709551616", None), // > usize::MAX
];

#[test]
fn parser_matches_c_reference_corpus() {
    for (input, expected) in CORPUS {
        let got = parse_cpu_list(input);
        match expected {
            Some(list) => assert_eq!(got.as_deref(), Some(*list), "input {input:?}"),
            None => assert_eq!(got, None, "input {input:?} should be rejected"),
        }
    }
}

#[test]
fn parser_accepts_full_range_without_blowup() {
    let got = parse_cpu_list("0-8191").expect("maximal legal cpulist");
    assert_eq!(got.len(), 8192);
    assert_eq!(got[0], 0);
    assert_eq!(got[8191], 8191);
}

#[test]
fn parser_never_trims() {
    assert_eq!(parse_cpu_list("0-3\n"), None);
    assert_eq!(parse_cpu_list("0-3\r\n"), None);
    assert_eq!(parse_cpu_list("\n"), None);
}

#[test]
fn parser_rejects_non_ascii_digits() {
    assert_eq!(parse_cpu_list("٣"), None);
    assert_eq!(parse_cpu_list("1-٣"), None);
}

#[test]
fn parser_keeps_term_order_and_repeats() {
    assert_eq!(parse_cpu_list("8,0-1,8"), Some(vec![8, 0, 1, 8]));
    assert_eq!(parse_cpu_list("4-4"), Some(vec![4]));
}

#[test]
fn parser_caps_every_id() {
    assert_eq!(MAX_CPU_ID, 8191);
    assert_eq!(parse_cpu_list("8190-8191"), Some(vec![8190, 8191]));
    assert_eq!(parse_cpu_list("8190-8192"), None);
    assert_eq!(parse_cpu_list("00000000000000000000000000005"), Some(vec![5]));
}

#[test]
fn sysfs_text_strips_only_trailing_newlines() {
    assert_eq!(cpu_list_from_sysfs("0-3\n"), Some(vec![0, 1, 2, 3]));
    assert_eq!(cpu_list_from_sysfs("0-1\r\n\n"), Some(vec![0, 1]));
    assert_eq!(cpu_list_from_sysfs("\n"), Some(vec![]));
    assert_eq!(cpu_list_from_sysfs("5,\n"), Some(vec![5]));
    assert_eq!(cpu_list_from_sysfs("0-3 \n"), None);
    assert_eq!(cpu_list_from_sysfs("\n0-3"), None);
    assert_eq!(cpu_list_from_sysfs(" 0-3\n"), None);
}

#[test]
fn joined_lists_list_both() {
    let lists = ["0-3", "8", "5,", "", "0-3,8", "x", "9-2", "12-13"];
    for a in lists {
        if a.is_empty() || a.ends_with(',') {
            continue;
        }
        for b in lists {
            let joined = parse_cpu_list(&format!("{a},{b}"));
            let expected = match (parse_cpu_list(a), parse_cpu_list(b)) {
                (Some(mut x), Some(y)) => {
                    x.extend(y);
                    Some(x)
                }
                _ => None,
            };
            assert_eq!(joined, expected, "{a:?} + {b:?}");
        }
    }
    // Where the first list is empty or ends in its trailing comma, a join is rejected.
    assert_eq!(parse_cpu_list(",1"), None);
    assert_eq!(parse_cpu_list("5,,1"), None);
}
