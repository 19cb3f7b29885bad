use fcoreutils::uname::{all_fields, effective_fields, uname_line, SystemNames, UnameFields};

fn names() -> SystemNames {
    SystemNames {
        sysname: b"Linux".to_vec(),
        nodename: b"host".to_vec(),
        release: b"6.1.0".to_vec(),
        version: b"#1 SMP".to_vec(),
        machine: b"x86_64".to_vec(),
    }
}

fn none() -> UnameFields {
    UnameFields {
        kernel_name: false,
        nodename: false,
        kernel_release: false,
        kernel_version: false,
        machine: false,
        processor: false,
        hardware_platform: false,
        operating_system: false,
    }
}

#[test]
fn default_is_kernel_name() {
    assert_eq!(uname_line(effective_fields(none()), &names()), b"Linux\n".to_vec());
}

#[test]
fn all_fields_in_order() {
    assert_eq!(
        uname_line(all_fields(), &names()),
        b"Linux host 6.1.0 #1 SMP x86_64 x86_64 x86_64 GNU/Linux\n".to_vec()
    );
}

#[test]
fn chosen_fields_keep_their_order() {
    let show = UnameFields { machine: true, nodename: true, ..none() };
    assert_eq!(uname_line(effective_fields(show), &names()), b"host x86_64\n".to_vec());
    let os = UnameFields { operating_system: true, ..none() };
    assert_eq!(uname_line(os, &names()), b"GNU/Linux\n".to_vec());
}
