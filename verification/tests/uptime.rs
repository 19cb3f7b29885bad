use fcoreutils::uptime::{default_prefix, format_uptime, print_pretty, print_since};

#[test]
fn short_form() {
    assert_eq!(format_uptime(59), b"0 min".to_vec());
    assert_eq!(format_uptime(300), b"5 min".to_vec());
    assert_eq!(format_uptime(3 * 3600 + 4 * 60), b" 3:04".to_vec());
    assert_eq!(format_uptime(86400), b"1 day".to_vec());
    assert_eq!(format_uptime(2 * 86400 + 3 * 3600 + 4 * 60 + 5), b"2 days,  3:04".to_vec());
    assert_eq!(format_uptime(86400 + 60), b"1 day,  0:01".to_vec());
}

#[test]
fn pretty_form() {
    assert_eq!(print_pretty(30), b"up 0 minutes\n".to_vec());
    assert_eq!(print_pretty(60), b"up 1 minute\n".to_vec());
    assert_eq!(print_pretty(2 * 86400 + 3600 + 120), b"up 2 days, 1 hour, 2 minutes\n".to_vec());
    assert_eq!(print_pretty(86400 + 7200), b"up 1 day, 2 hours\n".to_vec());
}

#[test]
fn since_form() {
    assert_eq!(print_since(2024, 3, 9, 7, 5, 0), b"2024-03-09 07:05:00\n".to_vec());
}

#[test]
fn default_report_start() {
    assert_eq!(
        default_prefix(9, 8, 7, 3600 * 5 + 60 * 6, 1),
        b" 09:08:07 up  5:06,  1 user,  load average: ".to_vec()
    );
    assert_eq!(
        default_prefix(23, 59, 0, 120, 3),
        b" 23:59:00 up 2 min,  3 users,  load average: ".to_vec()
    );
}
