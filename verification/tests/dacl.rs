//! Judging access-control lists.

use dig_updater_broker::dacl::{
    an_everyone_deny_is_reached_by, entries, has_basic_layout, is_administrator_account, judge,
    judge_files_created_in, Ace, AceKind, Dacl, DaclVerdict, RawAce, Trustee, ADD_SUBDIRECTORY,
    DELETE, DELETE_CHILD, GENERIC_ALL, GENERIC_WRITE, WRITE_DAC, WRITE_DATA, WRITE_EQUIVALENT,
    WRITE_OWNER,
};

const EVERYONE: &str = "S-1-1-0";
const ANONYMOUS_LOGON: &str = "S-1-5-7";
const UNREADABLE_TRUSTEE: &str = "<object ACE: trustee unreadable>";
const PRIVILEGED_SIDS: [&str; 5] = [
    "S-1-5-18",
    "S-1-5-32-544",
    "S-1-3-0",
    "S-1-3-4",
    "S-1-5-80-956008885-3418522649-1831038044-1853292631-2271478464",
];

const USERS: &str = "S-1-5-32-545";
const ADMINISTRATORS: &str = "S-1-5-32-544";
const SYSTEM: &str = "S-1-5-18";
const APP_PACKAGES: &str = "S-1-15-2-1";
const READ_EXECUTE: u32 = 0x0012_01A9;
const FULL: u32 = 0x001F_01FF;

fn stock_program_files() -> Dacl {
    Dacl::Present(vec![
        Ace::allow(SYSTEM, FULL),
        Ace::allow(ADMINISTRATORS, FULL),
        Ace::allow(USERS, READ_EXECUTE),
        Ace::allow(APP_PACKAGES, READ_EXECUTE),
    ])
}

#[test]
fn a_stock_install_root_is_accepted() {
    assert_eq!(
        judge(&stock_program_files()),
        DaclVerdict::PrivilegedWriteOnly
    );
}

#[test]
fn an_admin_owned_root_with_a_write_ace_for_users_is_refused() {
    let mut aces = match stock_program_files() {
        Dacl::Present(aces) => aces,
        Dacl::Absent => unreachable!(),
    };
    aces.push(Ace::allow(USERS, WRITE_DATA));
    assert_eq!(
        judge(&Dacl::Present(aces)),
        DaclVerdict::UnprivilegedWrite {
            sid: USERS.to_string()
        }
    );
}

#[test]
fn every_write_equivalent_bit_alone_is_a_finding() {
    for bit in [
        WRITE_DATA,
        ADD_SUBDIRECTORY,
        DELETE,
        WRITE_DAC,
        WRITE_OWNER,
        GENERIC_ALL,
        GENERIC_WRITE,
    ] {
        assert_eq!(
            judge(&Dacl::Present(vec![Ace::allow(USERS, bit)])),
            DaclVerdict::UnprivilegedWrite {
                sid: USERS.to_string()
            },
            "mask bit {bit:#x} must count as write-equivalent"
        );
    }
}

#[test]
fn a_read_only_bit_for_an_unprivileged_group_is_not_a_finding() {
    for benign in [READ_EXECUTE, 0x0000_0100, 0x0000_0010] {
        assert_eq!(
            judge(&Dacl::Present(vec![Ace::allow(USERS, benign)])),
            DaclVerdict::PrivilegedWriteOnly,
            "mask {benign:#x} must not be a finding"
        );
    }
}

#[test]
fn a_write_grant_to_a_privileged_principal_is_expected() {
    for sid in PRIVILEGED_SIDS {
        assert_eq!(
            judge(&Dacl::Present(vec![Ace::allow(sid, FULL)])),
            DaclVerdict::PrivilegedWriteOnly,
            "{sid} is expected to hold write access"
        );
    }
}

#[test]
fn every_unprivileged_well_known_group_is_a_finding() {
    for sid in [
        "S-1-1-0",
        "S-1-5-11",
        USERS,
        "S-1-5-4",
        "S-1-5-21-1111111111-2222222222-3333333333-1001",
    ] {
        assert_eq!(
            judge(&Dacl::Present(vec![Ace::allow(sid, FULL)])),
            DaclVerdict::UnprivilegedWrite {
                sid: sid.to_string()
            },
            "{sid} must not hold write access to a privileged install root"
        );
    }
}

#[test]
fn the_built_in_administrator_account_may_hold_write_access() {
    for sid in [
        "S-1-5-21-1178926710-2200278958-3596451971-500",
        "S-1-5-21-1178926710-2200278958-3596451971-512",
        "S-1-5-21-1178926710-2200278958-3596451971-518",
        "S-1-5-21-1178926710-2200278958-3596451971-519",
    ] {
        assert_eq!(
            judge(&Dacl::Present(vec![Ace::allow(sid, FULL)])),
            DaclVerdict::PrivilegedWriteOnly,
            "{sid} is administrator-equivalent"
        );
    }
}

#[test]
fn the_administrative_rid_match_does_not_spread_to_ordinary_accounts() {
    for sid in [
        "S-1-5-21-1178926710-2200278958-3596451971-1001",
        "S-1-5-21-1178926710-2200278958-3596451971-5000",
        "S-1-5-21-500-2200278958-3596451971-1001",
        "S-1-5-32-500",
        "S-1-5-21-500",
    ] {
        assert_eq!(
            judge(&Dacl::Present(vec![Ace::allow(sid, FULL)])),
            DaclVerdict::UnprivilegedWrite {
                sid: sid.to_string()
            },
            "{sid} must not be mistaken for an administrative account"
        );
    }
}

#[test]
fn file_all_access_for_an_unprivileged_group_is_a_finding() {
    assert_eq!(
        judge(&Dacl::Present(vec![Ace::allow(USERS, FULL)])),
        DaclVerdict::UnprivilegedWrite {
            sid: USERS.to_string()
        }
    );
}

#[test]
fn a_deny_ace_neutralizes_the_matching_grant() {
    assert_eq!(
        judge(&Dacl::Present(vec![
            Ace::deny(USERS, WRITE_EQUIVALENT),
            Ace::allow(USERS, FULL),
        ])),
        DaclVerdict::PrivilegedWriteOnly
    );
}

#[test]
fn a_partial_deny_still_leaves_a_finding() {
    assert_eq!(
        judge(&Dacl::Present(vec![
            Ace::deny(USERS, DELETE),
            Ace::allow(USERS, DELETE | WRITE_DATA),
        ])),
        DaclVerdict::UnprivilegedWrite {
            sid: USERS.to_string()
        }
    );
}

#[test]
fn a_deny_counts_only_where_windows_would_reach_it() {
    assert_eq!(
        judge(&Dacl::Present(vec![
            Ace::deny(USERS, WRITE_EQUIVALENT),
            Ace::allow(USERS, FULL),
        ])),
        DaclVerdict::PrivilegedWriteOnly,
        "a DENY before the grant is honoured by Windows, so it must be honoured here — the \
         canonical hardened shape must keep installing"
    );
    assert_eq!(
        judge(&Dacl::Present(vec![
            Ace::allow(USERS, FULL),
            Ace::deny(USERS, WRITE_EQUIVALENT),
        ])),
        DaclVerdict::UnprivilegedWrite {
            sid: USERS.to_string()
        },
        "a DENY after the grant is unreachable on Windows and must not excuse it"
    );
    assert_eq!(
        judge(&Dacl::Present(vec![
            Ace::allow(USERS, FULL),
            Ace::deny(EVERYONE, WRITE_EQUIVALENT),
        ])),
        DaclVerdict::UnprivilegedWrite {
            sid: USERS.to_string()
        },
        "position bounds the Everyone widening exactly as it bounds the same-SID case: a \
         trailing Everyone deny is just as unreachable"
    );
}

#[test]
fn a_grant_after_a_clean_prefix_is_still_found() {
    let mut aces = match stock_program_files() {
        Dacl::Present(aces) => aces,
        Dacl::Absent => unreachable!(),
    };
    aces.push(Ace::deny(APP_PACKAGES, WRITE_EQUIVALENT));
    aces.push(Ace::allow("S-1-5-11", WRITE_DAC));
    assert_eq!(
        judge(&Dacl::Present(aces)),
        DaclVerdict::UnprivilegedWrite {
            sid: "S-1-5-11".to_string()
        }
    );
}

#[test]
fn a_deny_for_an_unrelated_non_superset_principal_does_not_excuse_the_grant() {
    for denied in [
        APP_PACKAGES,
        "S-1-5-11",
        "S-1-5-4",
    ] {
        assert_eq!(
            judge(&Dacl::Present(vec![
                Ace::deny(denied, WRITE_EQUIVALENT),
                Ace::allow(USERS, WRITE_DATA),
            ])),
            DaclVerdict::UnprivilegedWrite {
                sid: USERS.to_string()
            },
            "a DENY to {denied} does not necessarily reach a {USERS} member"
        );
    }
}

#[test]
fn an_everyone_deny_preceding_a_grant_is_honoured_because_everyone_contains_the_grantee() {
    assert_eq!(
        judge(&Dacl::Present(vec![
            Ace::deny(EVERYONE, WRITE_EQUIVALENT),
            Ace::allow(USERS, FULL),
            Ace::allow(SYSTEM, FULL),
        ])),
        DaclVerdict::PrivilegedWriteOnly,
        "a preceding Everyone DENY reaches every principal, so it neutralizes the grant"
    );
}

#[test]
fn an_everyone_deny_does_not_reach_an_anonymous_logon_grant() {
    assert_eq!(
        judge(&Dacl::Present(vec![
            Ace::deny(EVERYONE, WRITE_EQUIVALENT),
            Ace::allow(ANONYMOUS_LOGON, FULL),
            Ace::allow(SYSTEM, FULL),
        ])),
        DaclVerdict::UnprivilegedWrite {
            sid: ANONYMOUS_LOGON.to_string()
        },
        "an Everyone DENY is not reached by an anonymous token, so it excuses nothing here"
    );
}

#[test]
fn an_everyone_deny_excuses_nothing_for_a_trustee_that_cannot_be_named() {
    assert_eq!(
        judge(&Dacl::Present(vec![
            Ace::deny(EVERYONE, 0x001f_01ff),
            Ace {
                trustee: Trustee::Unreadable,
                ..Ace::allow(USERS, u32::MAX)
            },
            Ace::allow(SYSTEM, FULL),
        ])),
        DaclVerdict::UnprivilegedWrite {
            sid: UNREADABLE_TRUSTEE.to_string()
        },
        "a deny cannot be matched to a trustee nobody can name, so it excuses nothing"
    );
}

#[test]
fn an_unnameable_trustee_is_never_privileged() {
    assert_eq!(
        judge(&Dacl::Present(vec![Ace {
            trustee: Trustee::Unreadable,
            ..Ace::allow(SYSTEM, FULL)
        }])),
        DaclVerdict::UnprivilegedWrite {
            sid: UNREADABLE_TRUSTEE.to_string()
        },
        "an unnameable trustee must not inherit a privileged principal's exemption"
    );
}

#[test]
fn a_grant_inherited_only_by_files_is_judged_for_the_files_and_not_for_the_directory() {
    let root = Dacl::Present(vec![
        Ace::allow(ADMINISTRATORS, FULL),
        Ace::allow(SYSTEM, FULL),
        Ace::allow_files_only(USERS, FULL),
    ]);

    assert_eq!(
        judge(&root),
        DaclVerdict::PrivilegedWriteOnly,
        "the (OI)(IO) ACE grants nothing on the directory itself — this half was already right"
    );
    assert_eq!(
        judge_files_created_in(&root),
        DaclVerdict::UnprivilegedWrite {
            sid: USERS.to_string()
        },
        "every file created in this directory carries an explicit Users write grant"
    );
}

#[test]
fn a_directory_only_grant_does_not_reach_the_files_created_in_it() {
    let root = Dacl::Present(vec![Ace::allow(SYSTEM, FULL), Ace::allow(USERS, FULL)]);

    assert_eq!(
        judge(&root),
        DaclVerdict::UnprivilegedWrite {
            sid: USERS.to_string()
        },
        "the directory itself is writable by Users"
    );
    assert_eq!(
        judge_files_created_in(&root),
        DaclVerdict::PrivilegedWriteOnly,
        "a non-inheritable ACE is not carried by a new file, so the file question is clean"
    );
}

#[test]
fn a_deny_that_only_applies_to_the_directory_does_not_excuse_an_inherited_grant() {
    let root = Dacl::Present(vec![
        Ace::deny(USERS, WRITE_EQUIVALENT),
        Ace::allow_files_only(USERS, FULL),
        Ace::allow(SYSTEM, FULL),
    ]);

    assert_eq!(
        judge(&root),
        DaclVerdict::PrivilegedWriteOnly,
        "on the directory the deny is reached and the grant is inherit-only"
    );
    assert_eq!(
        judge_files_created_in(&root),
        DaclVerdict::UnprivilegedWrite {
            sid: USERS.to_string()
        },
        "the deny is not inherited by the file, so it cannot excuse the inherited grant"
    );
}

#[test]
fn an_inherited_deny_still_excuses_an_inherited_grant() {
    let root = Dacl::Present(vec![
        Ace {
            object_inherit: true,
            ..Ace::deny(USERS, WRITE_EQUIVALENT)
        },
        Ace::allow_files_only(USERS, FULL),
        Ace::allow(SYSTEM, FULL),
    ]);

    assert_eq!(
        judge_files_created_in(&root),
        DaclVerdict::PrivilegedWriteOnly,
        "an inherited deny preceding an inherited grant is reached on the file too"
    );
}

#[test]
fn an_everyone_deny_is_still_bounded_by_mask() {
    assert_eq!(
        judge(&Dacl::Present(vec![
            Ace::deny(EVERYONE, DELETE),
            Ace::allow(USERS, DELETE | WRITE_DATA),
        ])),
        DaclVerdict::UnprivilegedWrite {
            sid: USERS.to_string()
        },
        "a PARTIAL Everyone deny leaves the remaining write-equivalent bits granted"
    );
}

#[test]
fn an_inherit_only_grant_does_not_apply_to_the_object() {
    let inherit_only = Ace {
        inherit_only: true,
        ..Ace::allow(USERS, FULL)
    };
    assert_eq!(
        judge(&Dacl::Present(vec![inherit_only])),
        DaclVerdict::PrivilegedWriteOnly
    );
}

#[test]
fn an_inherit_only_deny_does_not_excuse_an_applicable_grant() {
    assert_eq!(
        judge(&Dacl::Present(vec![
            Ace {
                inherit_only: true,
                ..Ace::deny(USERS, WRITE_EQUIVALENT)
            },
            Ace::allow(USERS, WRITE_DATA),
        ])),
        DaclVerdict::UnprivilegedWrite {
            sid: USERS.to_string()
        }
    );
}

#[test]
fn an_audit_ace_grants_nothing() {
    let audit = Ace {
        kind: AceKind::Other,
        ..Ace::allow(USERS, FULL)
    };
    assert_eq!(
        judge(&Dacl::Present(vec![audit])),
        DaclVerdict::PrivilegedWriteOnly
    );
}

#[test]
fn a_null_dacl_is_a_finding_and_an_empty_one_is_not() {
    assert!(matches!(
        judge(&Dacl::Absent),
        DaclVerdict::UnprivilegedWrite { .. }
    ));
    assert_eq!(
        judge(&Dacl::Present(vec![])),
        DaclVerdict::PrivilegedWriteOnly
    );
}

#[test]
fn an_ace_that_cannot_be_read_is_a_finding_not_an_accept() {
    let walked = entries(&vec![RawAce::Unread]);
    assert_eq!(walked.len(), 1, "the claimed ACE must still be accounted for");
    assert!(
        matches!(
            judge(&Dacl::Present(walked)),
            DaclVerdict::UnprivilegedWrite { .. }
        ),
        "an ACE that cannot be read must count as granting, never as an accept"
    );
}

fn raw(ace_type: u8, flags: u8, mask: u32, sid: &str) -> RawAce {
    RawAce::Read {
        ace_type,
        flags,
        mask,
        sid: Some(sid.to_string()),
    }
}

#[test]
fn plain_entries_are_decoded_in_order() {
    let walked = entries(&vec![
        raw(1, 0, WRITE_EQUIVALENT, USERS),
        raw(0, 0x08, FULL, SYSTEM),
        raw(0, 0x01, READ_EXECUTE, ADMINISTRATORS),
    ]);
    assert_eq!(
        walked,
        vec![
            Ace::deny(USERS, WRITE_EQUIVALENT),
            Ace {
                inherit_only: true,
                ..Ace::allow(SYSTEM, FULL)
            },
            Ace {
                object_inherit: true,
                ..Ace::allow(ADMINISTRATORS, READ_EXECUTE)
            },
        ]
    );
}

#[test]
fn a_conditional_grant_and_an_object_grant_are_findings() {
    assert_eq!(
        judge(&Dacl::Present(entries(&vec![raw(9, 0, FULL, USERS)]))),
        DaclVerdict::UnprivilegedWrite {
            sid: USERS.to_string()
        }
    );
    assert_eq!(
        judge(&Dacl::Present(entries(&vec![raw(5, 0, FULL, SYSTEM)]))),
        DaclVerdict::UnprivilegedWrite {
            sid: UNREADABLE_TRUSTEE.to_string()
        },
        "the trustee of an object grant cannot be read, so it is nobody's"
    );
}

#[test]
fn an_audit_entry_on_disk_grants_nothing() {
    assert_eq!(
        judge(&Dacl::Present(entries(&vec![raw(2, 0, FULL, USERS)]))),
        DaclVerdict::PrivilegedWriteOnly
    );
}

#[test]
fn a_grant_to_a_trustee_without_a_sid_is_a_finding() {
    let unnamed = RawAce::Read {
        ace_type: 0,
        flags: 0,
        mask: FULL,
        sid: None,
    };
    assert!(matches!(
        judge(&Dacl::Present(entries(&vec![unnamed]))),
        DaclVerdict::UnprivilegedWrite { .. }
    ));
}

#[test]
fn deleting_children_is_write_equivalent() {
    assert_eq!(
        judge(&Dacl::Present(vec![Ace::allow(USERS, DELETE_CHILD)])),
        DaclVerdict::UnprivilegedWrite {
            sid: USERS.to_string()
        }
    );
}

#[test]
fn the_basic_layout_is_that_of_three_types() {
    let basic: Vec<u8> = (0..=20).filter(|t| has_basic_layout(*t)).collect();
    assert_eq!(basic, vec![0, 1, 9]);
}

#[test]
fn only_an_anonymous_grant_is_out_of_reach_of_an_everyone_deny() {
    assert!(an_everyone_deny_is_reached_by(USERS));
    assert!(!an_everyone_deny_is_reached_by(ANONYMOUS_LOGON));
    assert!(is_administrator_account("S-1-5-21-1-2-3-500"));
    assert!(!is_administrator_account("S-1-5-21-1-2-3-501"));
}
