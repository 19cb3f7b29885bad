use fcoreutils::sum::{bsd_checksum, format_sum_line, process_input, sysv_checksum, Algorithm};

#[test]
fn bsd_known_value() {
    assert_eq!(bsd_checksum(b"hello\n"), (36979, 1));
    assert_eq!(bsd_checksum(b""), (0, 0));
}

#[test]
fn sysv_known_value() {
    assert_eq!(sysv_checksum(b"hello\n"), (542, 1));
    assert_eq!(sysv_checksum(b""), (0, 0));
}

#[test]
fn block_counts() {
    let data = vec![b'a'; 1025];
    assert_eq!(bsd_checksum(&data).1, 2);
    assert_eq!(sysv_checksum(&data).1, 3);
    assert_eq!(sysv_checksum(&vec![0u8; 512]).1, 1);
}

#[test]
fn sysv_is_the_byte_sum_mod_65535() {
    let data = vec![0xFFu8; 300];
    let total: u32 = 300 * 255;
    let (c, _) = sysv_checksum(&data);
    assert_eq!(c, total % 65535);
    assert_eq!(c, 10965);
    assert_eq!(sysv_checksum(&vec![0xFFu8; 257]), (0, 1));
}

#[test]
fn process_input_picks_algorithm() {
    assert_eq!(process_input(b"hello\n", Algorithm::Bsd), (36979, 1));
    assert_eq!(process_input(b"hello\n", Algorithm::SysV), (542, 1));
}

#[test]
fn sum_report_lines() {
    assert_eq!(format_sum_line(Algorithm::Bsd, 42, 1, "-", false), b"00042     1\n".to_vec());
    assert_eq!(format_sum_line(Algorithm::Bsd, 36979, 1, "-", true), b"36979     1 -\n".to_vec());
    assert_eq!(format_sum_line(Algorithm::Bsd, 7, 123456, "f.txt", false), b"00007 123456 f.txt\n".to_vec());
    assert_eq!(format_sum_line(Algorithm::SysV, 542, 1, "f.txt", false), b"542 1 f.txt\n".to_vec());
    assert_eq!(format_sum_line(Algorithm::SysV, 542, 1, "-", false), b"542 1\n".to_vec());
}
