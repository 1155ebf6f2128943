use std::str::FromStr;

use cronexpr::normalize_crontab;
use cronexpr::parse_crontab;
use cronexpr::Crontab;

#[test]
fn test_parse_crontab_success() {
    parse_crontab("* * * * * Asia/Shanghai").unwrap();
    parse_crontab("2 4 * * * Asia/Shanghai").unwrap();
    parse_crontab("2 4 * * 0-6 Asia/Shanghai").unwrap();
    parse_crontab("2 4 */3 * 0-6 Asia/Shanghai").unwrap();
    parse_crontab("*/2 1 1 1 * Asia/Shanghai").unwrap();
    parse_crontab("1/2 1 1 1 * Asia/Shanghai").unwrap();
    parse_crontab("1-29/2 1 1 1 * Asia/Shanghai").unwrap();
    parse_crontab("1-30/2 1 1 1 * Asia/Shanghai").unwrap();
    parse_crontab("1,2,10 1 1 1 * Asia/Shanghai").unwrap();
    parse_crontab("1-10,2,10,50 1 1 1 * Asia/Shanghai").unwrap();
    parse_crontab("1-10,2,10,50 1 * 1 TUE Asia/Shanghai").unwrap();
}

#[test]
fn test_parse_crontab_failed() {
    parse_crontab("invalid 4 * * * Asia/Shanghai").unwrap_err();
    parse_crontab("* * * * * Unknown/Timezone").unwrap_err();
    parse_crontab("* 5-4 * * * Asia/Shanghai").unwrap_err();
    parse_crontab("10086 * * * * Asia/Shanghai").unwrap_err();
    parse_crontab("* 0-24 * * * Asia/Shanghai").unwrap_err();
    parse_crontab("* * * 25 * Asia/Shanghai").unwrap_err();
    parse_crontab("32-300 * * * * Asia/Shanghai").unwrap_err();
    parse_crontab("129-300 * * * * Asia/Shanghai").unwrap_err();
    parse_crontab("29- * * * * Asia/Shanghai").unwrap_err();
    parse_crontab("29 ** * * * Asia/Shanghai").unwrap_err();
    parse_crontab("29--30 * * * * Asia/Shanghai").unwrap_err();
    parse_crontab("1,2,10,100 1 1 1 * Asia/Shanghai").unwrap_err();
    parse_crontab("104,2,10,100 1 1 1 * Asia/Shanghai").unwrap_err();
    parse_crontab("1,2,10 * * 104,2,10,100 * Asia/Shanghai").unwrap_err();
    parse_crontab("1-10,2,10,50 1 * 1 TTT Asia/Shanghai").unwrap_err();
}

#[test]
fn test_crontab_guru_examples() {
    // crontab.guru examples: https://crontab.guru/examples.html
    parse_crontab("* * * * * UTC").unwrap();
    parse_crontab("*/2 * * * * UTC").unwrap();
    parse_crontab("1-59/2 * * * * UTC").unwrap();
    parse_crontab("*/3 * * * * UTC").unwrap();
    parse_crontab("*/4 * * * * UTC").unwrap();
    parse_crontab("*/5 * * * * UTC").unwrap();
    parse_crontab("*/6 * * * * UTC").unwrap();
    parse_crontab("*/10 * * * * UTC").unwrap();
    parse_crontab("*/15 * * * * UTC").unwrap();
    parse_crontab("*/20 * * * * UTC").unwrap();
    parse_crontab("*/30 * * * * UTC").unwrap();
    parse_crontab("30 * * * * UTC").unwrap();
    parse_crontab("0 * * * * UTC").unwrap();
    parse_crontab("0 */2 * * * UTC").unwrap();
    parse_crontab("0 */3 * * * UTC").unwrap();
    parse_crontab("0 */4 * * * UTC").unwrap();
    parse_crontab("0 */6 * * * UTC").unwrap();
    parse_crontab("0 */8 * * * UTC").unwrap();
    parse_crontab("0 */12 * * * UTC").unwrap();
    parse_crontab("0 9-17 * * * UTC").unwrap();
    parse_crontab("0 0 * * * UTC").unwrap();
    parse_crontab("0 1 * * * UTC").unwrap();
    parse_crontab("0 2 * * * UTC").unwrap();
    parse_crontab("0 8 * * * UTC").unwrap();
    parse_crontab("0 9 * * * UTC").unwrap();
    parse_crontab("0 0 * * 0 UTC").unwrap();
    parse_crontab("0 0 * * 1 UTC").unwrap();
    parse_crontab("0 0 * * 2 UTC").unwrap();
    parse_crontab("0 0 * * 3 UTC").unwrap();
    parse_crontab("0 0 * * 4 UTC").unwrap();
    parse_crontab("0 0 * * 5 UTC").unwrap();
    parse_crontab("0 0 * * 6 UTC").unwrap();
    parse_crontab("0 0 * * 1-5 UTC").unwrap();
    parse_crontab("0 0 * * 6,0 UTC").unwrap();
    parse_crontab("0 0 1 * * UTC").unwrap();
    parse_crontab("0 0 1 */2 * UTC").unwrap();
    parse_crontab("0 0 1 */3 * UTC").unwrap();
    parse_crontab("0 0 1 */6 * UTC").unwrap();
    parse_crontab("0 0 1 1 * UTC").unwrap();
}

#[test]
fn test_normalize_examples() {
    assert_eq!(
        normalize_crontab("  *   * * * * Asia/Shanghai  "),
        "* * * * * Asia/Shanghai"
    );
    assert_eq!(
        normalize_crontab("  2\t4 * * *\nAsia/Shanghai  "),
        "2 4 * * * Asia/Shanghai"
    );
    assert_eq!(normalize_crontab(""), "");
    assert_eq!(normalize_crontab(" \t\r\n "), "");
    assert_eq!(normalize_crontab("a"), "a");
}

#[test]
fn test_normalize_idempotent_on_samples() {
    let samples = [
        "",
        "   ",
        "  2\t4 * * *\nAsia/Shanghai  ",
        "* * * * * UTC",
        "x",
        " one  two\tthree\r\nfour ",
    ];
    for s in samples {
        let once = normalize_crontab(s);
        let twice = normalize_crontab(&once);
        assert_eq!(once, twice);
        // normalization is the identity on already-normal strings
        assert_eq!(normalize_crontab(&once), once);
    }
}

#[test]
fn test_parse_error_messages() {
    let err = parse_crontab("10086 * * * * Asia/Shanghai").unwrap_err();
    assert_eq!(
        err.message(),
        "failed to parse crontab expression:\n10086 * * * * Asia/Shanghai\n^ value must be in range 0..=59; found 10086"
    );

    let err = parse_crontab("* 5-4 * * * Asia/Shanghai").unwrap_err();
    assert_eq!(
        err.message(),
        "failed to parse crontab expression:\n* 5-4 * * * Asia/Shanghai\n  ^ range must be in ascending order; found 5-4"
    );

    let err = parse_crontab("* 0-24 * * * Asia/Shanghai").unwrap_err();
    assert_eq!(
        err.message(),
        "failed to parse crontab expression:\n* 0-24 * * * Asia/Shanghai\n    ^ value must be in range 0..=23; found 24"
    );

    let err = parse_crontab("* */0 * * * Asia/Shanghai").unwrap_err();
    assert!(err.message().contains("step must be greater than 0"));

    let err = parse_crontab("*/100 * * * * Asia/Shanghai").unwrap_err();
    assert!(err
        .message()
        .contains("step must be in range 0..=59; found 100"));

    let err = parse_crontab("invalid 4 * * * Asia/Shanghai").unwrap_err();
    assert!(err.message().contains("malformed expression"));

    let err = parse_crontab("* * * * 1#6 Asia/Shanghai").unwrap_err();
    assert!(err.message().contains("value must be in range 1..=5; found 6"));

    let err = parse_crontab("* * * * * Unknown/Timezone").unwrap_err();
    assert!(err
        .message()
        .contains("failed to find timezone Unknown/Timezone"));
}

#[test]
fn test_parse_extended_forms() {
    // the day-of-month extensions, each a term of its own
    parse_crontab("3 11 L * * Asia/Shanghai").unwrap();
    parse_crontab("3 11 17W,L * * Asia/Shanghai").unwrap();
    parse_crontab("3 11 1W * * Asia/Shanghai").unwrap();
    // the day-of-week extensions
    parse_crontab("0 18 * * TUE#1 Asia/Shanghai").unwrap();
    parse_crontab("4 2 * * 1L Asia/Shanghai").unwrap();
    parse_crontab("0 18 * * FRI#5 Asia/Shanghai").unwrap();
    parse_crontab("0 0 * * SUNL UTC").unwrap();
    // month names as range endpoints
    parse_crontab("3 11 L JAN-FEB,5 * Asia/Shanghai").unwrap();
    // missing fields fail at end of input
    parse_crontab("* * * * *").unwrap_err();
    parse_crontab("").unwrap_err();
    // W wraps only a single literal day
    parse_crontab("0 0 1-3W * * UTC").unwrap_err();
}

#[test]
fn test_from_str_trait() {
    let crontab = Crontab::from_str("2 4 * * * Asia/Shanghai").unwrap();
    let driver = crontab.drive(0);
    driver.find_next_zoned().unwrap();
    Crontab::from_str("not a crontab").unwrap_err();
}
