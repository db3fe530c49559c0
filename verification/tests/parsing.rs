use pvsched_qos::cpuset::parse_cpuset_cpus;
use pvsched_qos::decimal::{parse_u64, parse_usize, render, IntParseError};
use pvsched_qos::error::QosError;
use pvsched_qos::psi::parse_psi_total_us;
use pvsched_qos::text::{
    is_white_space, same_text, split, split_once, split_whitespace, strip_prefix, trim,
};

#[test]
fn parse_psi_total_us_ok() {
    let line = "some avg10=0.00 avg60=0.00 avg300=0.00 total=123456";
    let total = parse_psi_total_us(line).expect("parse should succeed");
    assert_eq!(total, 123456);
}

#[test]
fn parse_psi_total_us_missing() {
    let line = "some avg10=0.00 avg60=0.00 avg300=0.00";
    let err = parse_psi_total_us(line).unwrap_err().message();
    assert!(err.contains("PSI total field not found"));
}

#[test]
fn parse_psi_total_us_invalid() {
    let line = "some avg10=0.00 avg60=0.00 avg300=0.00 total=oops";
    let err = parse_psi_total_us(line).unwrap_err().message();
    assert!(err.contains("invalid PSI total value"));
}

#[test]
fn parse_cpuset_cpus_single() {
    let cpus = parse_cpuset_cpus("2").expect("parse should succeed");
    assert_eq!(cpus, vec![2]);
}

#[test]
fn parse_cpuset_cpus_ranges() {
    let cpus = parse_cpuset_cpus("0-2,4,6-7").expect("parse should succeed");
    assert_eq!(cpus, vec![0, 1, 2, 4, 6, 7]);
}

#[test]
fn parse_cpuset_cpus_invalid_range() {
    let err = parse_cpuset_cpus("3-1").unwrap_err().message();
    assert!(err.contains("invalid cpuset range"));
    assert_eq!(err, "invalid cpuset range 3-1");
}

#[test]
fn psi_line_details() {
    assert_eq!(parse_psi_total_us("total=5\n"), Ok(5));
    assert_eq!(parse_psi_total_us("\ttotal=7 total=8"), Ok(7));
    assert_eq!(parse_psi_total_us("some total=18446744073709551615\n"), Ok(u64::MAX));
    assert_eq!(parse_psi_total_us("subtotal=3 total=+4"), Ok(4));
    assert_eq!(parse_psi_total_us(""), Err(QosError::TotalMissing));
    assert_eq!(
        parse_psi_total_us("total= 3"),
        Err(QosError::InvalidTotal { cause: IntParseError::Empty })
    );
    assert_eq!(
        parse_psi_total_us("total=18446744073709551616"),
        Err(QosError::InvalidTotal { cause: IntParseError::PosOverflow })
    );
    assert_eq!(
        parse_psi_total_us("total=oops total=1").unwrap_err().message(),
        "invalid PSI total value: invalid digit found in string"
    );
}

#[test]
fn cpuset_details() {
    assert_eq!(parse_cpuset_cpus("0-3\n"), Ok(vec![0, 1, 2, 3]));
    assert_eq!(parse_cpuset_cpus(" 5 , 1 - 2 ,,1,5\n"), Ok(vec![1, 2, 5]));
    assert_eq!(parse_cpuset_cpus(","), Ok(vec![]));
    assert_eq!(parse_cpuset_cpus("7-7"), Ok(vec![7]));
    assert_eq!(parse_cpuset_cpus(""), Err(QosError::EmptyCpuset));
    assert_eq!(parse_cpuset_cpus(" \n"), Err(QosError::EmptyCpuset));
    assert_eq!(QosError::EmptyCpuset.message(), "cpuset.cpus is empty");
    assert_eq!(
        parse_cpuset_cpus("1,x").unwrap_err().message(),
        "invalid cpuset cpu 'x': invalid digit found in string"
    );
    assert_eq!(
        parse_cpuset_cpus("1- ,y").unwrap_err().message(),
        "invalid cpuset cpu '': cannot parse integer from empty string"
    );
    assert_eq!(
        parse_cpuset_cpus(" a -3").unwrap_err(),
        QosError::InvalidCpu { cpu: "a ".to_string(), cause: IntParseError::InvalidDigit }
    );
    assert_eq!(
        parse_cpuset_cpus("1-2-3").unwrap_err(),
        QosError::InvalidCpu { cpu: "2-3".to_string(), cause: IntParseError::InvalidDigit }
    );
    assert_eq!(
        parse_cpuset_cpus("99999999999999999999").unwrap_err().message(),
        "invalid cpuset cpu '99999999999999999999': number too large to fit in target type"
    );
    assert_eq!(parse_cpuset_cpus("2-1,x"), Err(QosError::InvalidRange { start: 2, end: 1 }));
}

#[test]
fn lists_joined_by_a_comma_name_the_cpus_of_both() {
    let both = parse_cpuset_cpus("0-2,9,1,4").unwrap();
    let mut joined = parse_cpuset_cpus("0-2,9").unwrap();
    joined.extend(parse_cpuset_cpus("1,4").unwrap());
    joined.sort();
    joined.dedup();
    assert_eq!(both, joined);
}

#[test]
fn rendered_ranges_read_back() {
    for start in 0..12usize {
        for end in start..12usize {
            let text = format!("{}-{}", render(start as u64), render(end as u64));
            let expected: Vec<usize> = (start..=end).collect();
            assert_eq!(parse_cpuset_cpus(&text), Ok(expected));
        }
    }
}

#[test]
fn numbers_are_read_as_the_standard_library_reads_them() {
    let samples = [
        "", "+", "-", "0", "7", "+7", "-7", "++7", "00012", " 1", "1 ", "1_0", "x", "1x", "18446744073709551615",
        "18446744073709551616", "+18446744073709551615", "99999999999999999999", "99999999999999999999x",
        "1844674407370955161x", "184467440737095516150", "\u{0663}", "1\u{e9}", "000000000000000000000000000000",
    ];
    for s in samples {
        match (s.parse::<u64>(), parse_u64(s)) {
            (Ok(a), Ok(b)) => assert_eq!(a, b),
            (Err(a), Err(b)) => assert_eq!(a.to_string(), b.message()),
            _ => panic!("disagreement on {s:?}"),
        }
        match (s.parse::<usize>(), parse_usize(s)) {
            (Ok(a), Ok(b)) => assert_eq!(a, b),
            (Err(a), Err(b)) => assert_eq!(a.to_string(), b.message()),
            _ => panic!("disagreement on {s:?}"),
        }
    }
}

#[test]
fn rendered_numbers_read_back() {
    for n in [0, 1, 9, 10, 99, 100, 12345, 987654321, u64::MAX - 1, u64::MAX] {
        assert_eq!(render(n), n.to_string());
        assert_eq!(parse_u64(&render(n)), Ok(n));
    }
}

#[test]
fn white_space_is_that_of_the_standard_library() {
    for code in 0..=0x10ffffu32 {
        if let Some(c) = char::from_u32(code) {
            assert_eq!(is_white_space(c), c.is_whitespace(), "{code:x}");
        }
    }
}

#[test]
fn text_is_cut_as_the_standard_library_cuts_it() {
    let samples = [
        "", " ", "a", " a", "a ", " a b ", "\u{a0}a\u{3000}", "a,b", ",", ",,a,", "a-b", "-", "a-b-c", "\u{e9},\u{e9} x",
        "total=1", "total", "total=", "x total=2\n",
    ];
    for s in samples {
        assert_eq!(trim(s), s.trim());
        assert_eq!(split_whitespace(s), s.split_whitespace().collect::<Vec<&str>>());
        assert_eq!(split(s, ','), s.split(',').collect::<Vec<&str>>());
        assert_eq!(split_once(s, '-'), s.split_once('-'));
        assert_eq!(strip_prefix(s, "total="), s.strip_prefix("total="));
        assert_eq!(strip_prefix(s, "a"), s.strip_prefix("a"));
        for t in samples {
            assert_eq!(same_text(s, t), s == t);
        }
    }
}

#[test]
fn total_is_found_whatever_stands_around_it() {
    for head in ["", "some", "full avg10=1.00", " subtotal=9 "] {
        for tail in ["", "\n", " total=1", "\tx"] {
            let line = format!("{head} total={}{tail}", render(77));
            assert_eq!(parse_psi_total_us(&line), Ok(77));
        }
    }
}
