use driver_indexer::inf::InfInfo;
use driver_indexer::matcher::HardwareDevice;
use driver_indexer::orchestrator::next_pass;
use driver_indexer::orchestrator::select_install_candidate;
use driver_indexer::orchestrator::OrchestratorState;
use driver_indexer::orchestrator::PassDecision;

const ARCH: &str = "NTamd64";

fn entry(ids: &[&str]) -> InfInfo {
    InfInfo {
        Path: String::from("pkg"),
        Inf: String::from("oem.inf"),
        Class: String::from("Net"),
        Arch: vec![String::from(ARCH)],
        Date: String::from("01/01/2020"),
        Version: String::from("1.0.0.0"),
        DriverList: ids.iter().map(|s| String::from(*s)).collect(),
    }
}

fn device(name: &str, id: &str) -> HardwareDevice {
    HardwareDevice {
        name: String::from(name),
        hardware_ids: vec![String::from(id)],
        compatible_ids: Vec::new(),
        has_problem: true,
    }
}

#[test]
fn install_loop_never_exceeds_three_passes() {
    let index = vec![entry(&["USB\\VID_0000&PID_0001"])];
    let mut state = OrchestratorState::new();
    let mut passes = 0;
    let mut fresh = 0;
    // every pass reports a brand-new problem device
    while state.can_continue() {
        fresh += 1;
        let devices = vec![device("dev", &format!("USB\\VID_{fresh:04}&PID_0001"))];
        let _ = next_pass(&mut state, devices, &index, false, &None, ARCH);
        passes += 1;
        assert!(passes <= 3);
    }
    assert_eq!(passes, 3);
}

#[test]
fn empty_inventory_fails_the_run() {
    let index = vec![entry(&["USB\\X"])];
    let mut state = OrchestratorState::new();
    let decision = next_pass(&mut state, Vec::new(), &index, false, &None, ARCH);
    assert!(matches!(decision, PassDecision::NoDeviceFound));
}

#[test]
fn no_problem_device_fails_when_not_all() {
    let index = vec![entry(&["USB\\X"])];
    let mut healthy = device("ok", "USB\\X");
    healthy.has_problem = false;
    let mut state = OrchestratorState::new();
    let decision = next_pass(&mut state, vec![healthy], &index, false, &None, ARCH);
    assert!(matches!(decision, PassDecision::NoMatchableDevice));
}

#[test]
fn first_pass_without_matches_reports_no_driver() {
    let index = vec![entry(&["USB\\OTHER"])];
    let mut state = OrchestratorState::new();
    let decision = next_pass(&mut state, vec![device("nic", "USB\\X")], &index, false, &None, ARCH);
    assert!(matches!(decision, PassDecision::NoDriverFound));
}

#[test]
fn second_pass_skips_processed_devices() {
    let index = vec![entry(&["USB\\X"])];
    let mut state = OrchestratorState::new();
    let d1 = next_pass(&mut state, vec![device("nic", "USB\\X")], &index, false, &None, ARCH);
    assert!(matches!(d1, PassDecision::Install(_)));
    let d2 = next_pass(&mut state, vec![device("nic", "USB\\X")], &index, false, &None, ARCH);
    assert!(matches!(d2, PassDecision::Converged));
}

#[test]
fn end_to_end_single_device_install() {
    // an index with one entry and a device exposing exactly that ID
    let index = vec![entry(&["USB\\VID_0000&PID_0001"])];
    let dev = device("usb device", "USB\\VID_0000&PID_0001");
    let mut state = OrchestratorState::new();
    let decision = next_pass(&mut state, vec![dev], &index, false, &None, ARCH);
    let matches = match decision {
        PassDecision::Install(m) => m,
        _ => panic!("expected an install decision"),
    };
    assert_eq!(matches.len(), 1);
    let (matched_dev, candidates) = &matches[0];
    assert_eq!(matched_dev.name, "usb device");
    assert_eq!(candidates.len(), 1);
    assert_eq!(candidates[0].DriverList, vec![String::from("USB\\VID_0000&PID_0001")]);
    // loading that candidate's single hardware ID succeeds
    let mut success_count = 0;
    let chosen = select_install_candidate(1, &vec![true], &vec![true], false, false);
    assert_eq!(chosen, Some(0));
    if chosen.is_some() {
        success_count += 1;
    }
    assert_eq!(success_count, 1);
}

#[test]
fn install_skips_candidates_that_fail() {
    // extraction fails for the first candidate, loading fails for the second
    let extract_ok = vec![false, true, true];
    let load_ok = vec![true, false, true];
    assert_eq!(select_install_candidate(3, &extract_ok, &load_ok, false, true), Some(2));
    // outside an archive no extraction happens, so the first loading one wins
    assert_eq!(select_install_candidate(3, &extract_ok, &load_ok, false, false), Some(0));
    // extract-only mode succeeds on the first extractable candidate
    assert_eq!(select_install_candidate(3, &extract_ok, &load_ok, true, true), Some(1));
    // everything failing exhausts the list
    assert_eq!(select_install_candidate(2, &vec![false, false], &vec![true, true], false, true), None);
    assert_eq!(select_install_candidate(0, &Vec::new(), &Vec::new(), false, false), None);
}
