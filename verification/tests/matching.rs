use driver_indexer::inf::InfInfo;
use driver_indexer::matcher::current_arch_tag;
use driver_indexer::matcher::getMatchInfo;
use driver_indexer::matcher::HardwareDevice;

fn entry(inf: &str, class: &str, arch: &str, version: &str, ids: &[&str]) -> InfInfo {
    InfInfo {
        Path: String::from("pkg"),
        Inf: String::from(inf),
        Class: String::from(class),
        Arch: vec![String::from(arch)],
        Date: String::from("01/01/2020"),
        Version: String::from(version),
        DriverList: ids.iter().map(|s| String::from(*s)).collect(),
    }
}

fn device(name: &str, hw: &[&str], compat: &[&str]) -> HardwareDevice {
    HardwareDevice {
        name: String::from(name),
        hardware_ids: hw.iter().map(|s| String::from(*s)).collect(),
        compatible_ids: compat.iter().map(|s| String::from(*s)).collect(),
        has_problem: true,
    }
}

const ARCH: &str = "NTamd64";

#[test]
fn hardware_id_match_outranks_compatible_match() {
    let a = entry("a.inf", "Net", ARCH, "1.0", &["USB\\SPECIFIC"]);
    let b = entry("b.inf", "Net", ARCH, "9.0", &["USB\\GENERIC"]);
    let index = vec![a, b];
    let dev = device("nic", &["USB\\SPECIFIC"], &["USB\\GENERIC"]);
    let matches = getMatchInfo(&[dev], &index, &None, ARCH);
    assert_eq!(matches.len(), 1);
    let candidates = &matches[0].1;
    assert_eq!(candidates.len(), 2);
    assert_eq!(candidates[0].Inf, "a.inf");
    assert_eq!(candidates[1].Inf, "b.inf");
}

#[test]
fn higher_version_ranks_first_within_one_id() {
    let old = entry("old.inf", "Net", ARCH, "1.0", &["USB\\CARD"]);
    let new = entry("new.inf", "Net", ARCH, "2.0", &["USB\\CARD"]);
    let index = vec![old, new];
    let dev = device("nic", &["USB\\CARD"], &[]);
    let matches = getMatchInfo(&[dev], &index, &None, ARCH);
    let candidates = &matches[0].1;
    assert_eq!(candidates.len(), 2);
    assert_eq!(candidates[0].Inf, "new.inf");
    assert_eq!(candidates[1].Inf, "old.inf");
}

#[test]
fn wrong_architecture_never_matches() {
    let x86_only = entry("x86.inf", "Net", "NTx86", "9.9", &["USB\\CARD"]);
    let index = vec![x86_only];
    let dev = device("nic", &["USB\\CARD"], &["USB\\CARD"]);
    let matches = getMatchInfo(&[dev], &index, &None, ARCH);
    assert!(matches.is_empty());
}

#[test]
fn class_filter_compares_case_insensitively() {
    let e = entry("a.inf", "Net", ARCH, "1.0", &["USB\\CARD"]);
    let index = vec![e];
    let dev = device("nic", &["USB\\CARD"], &[]);
    assert_eq!(getMatchInfo(&[dev.duplicate()], &index, &Some(String::from("NET")), ARCH).len(), 1);
    assert_eq!(getMatchInfo(&[dev.duplicate()], &index, &Some(String::from("Media")), ARCH).len(), 0);
    assert_eq!(getMatchInfo(&[dev], &index, &None, ARCH).len(), 1);
}

#[test]
fn ids_compare_case_insensitively_and_candidates_carry_the_matching_subset() {
    let e = entry("a.inf", "Net", ARCH, "1.0", &["usb\\card", "USB\\OTHER"]);
    let index = vec![e];
    let dev = device("nic", &["USB\\CARD"], &[]);
    let matches = getMatchInfo(&[dev], &index, &None, ARCH);
    let candidates = &matches[0].1;
    assert_eq!(candidates.len(), 1);
    assert_eq!(candidates[0].DriverList, vec![String::from("usb\\card")]);
}

#[test]
fn devices_without_candidates_are_omitted() {
    let e = entry("a.inf", "Net", ARCH, "1.0", &["USB\\CARD"]);
    let index = vec![e];
    let matched = device("nic", &["USB\\CARD"], &[]);
    let unmatched = device("cam", &["USB\\NOPE"], &[]);
    let matches = getMatchInfo(&[unmatched, matched], &index, &None, ARCH);
    assert_eq!(matches.len(), 1);
    assert_eq!(matches[0].0.name, "nic");
}

#[test]
fn host_arch_names_map_to_tags() {
    assert_eq!(current_arch_tag("x86"), "NTx86");
    assert_eq!(current_arch_tag("x86_64"), "NTamd64");
    assert_eq!(current_arch_tag("arm"), "NTarm");
    assert_eq!(current_arch_tag("aarch64"), "");
}

#[test]
fn malformed_version_blocks_reordering() {
    // an incomparable version never reorders: the insertion keeps later
    // candidates behind it, so the higher version does not pass the
    // malformed one
    let low = entry("low.inf", "Net", ARCH, "1.0", &["USB\\CARD"]);
    let bad = entry("bad.inf", "Net", ARCH, "x", &["USB\\CARD"]);
    let high = entry("high.inf", "Net", ARCH, "9.0", &["USB\\CARD"]);
    let index = vec![low, bad, high];
    let dev = device("nic", &["USB\\CARD"], &[]);
    let matches = getMatchInfo(&[dev], &index, &None, ARCH);
    let candidates = &matches[0].1;
    assert_eq!(candidates.len(), 3);
    assert_eq!(candidates[0].Inf, "low.inf");
    assert_eq!(candidates[1].Inf, "bad.inf");
    assert_eq!(candidates[2].Inf, "high.inf");
}
