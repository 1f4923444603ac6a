use websdr::report::report_text;
use websdr::session::Stats;

#[test]
fn a_report_is_the_bare_number() {
    assert_eq!(report_text(Stats::Frequency(0)), "0");
    assert_eq!(report_text(Stats::Frequency(9)), "9");
    assert_eq!(report_text(Stats::Frequency(10_000)), "10000");
    assert_eq!(report_text(Stats::Frequency(101_500_000)), "101500000");
    assert_eq!(report_text(Stats::Frequency(u32::MAX)), "4294967295");
}

#[test]
fn a_report_can_be_read_back() {
    for frequency in [1, 12, 999, 1000, 95_000_000, 4_000_000_001] {
        assert_eq!(report_text(Stats::Frequency(frequency)).parse::<u32>(), Ok(frequency));
    }
}

#[test]
fn different_reports_differ() {
    assert_ne!(
        report_text(Stats::Frequency(100)),
        report_text(Stats::Frequency(1000))
    );
}
