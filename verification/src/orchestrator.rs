//! The install orchestrator's decision core: a state machine over at most
//! three scan passes. The surrounding program performs the outside work of
//! each pass (rescanning, enumerating, extracting, loading) and feeds the
//! results back; every decision between those steps is made here.

use crate::inf::InfInfo;
use crate::inf::InfInfoView;
use crate::matcher::spec_match_devices;
use crate::matcher::HardwareDevice;
use crate::matcher::HardwareDeviceView;
use vstd::prelude::*;

verus! {

/// The pass budget: installing a driver can surface dependent devices, so
/// the scan runs again, but never more than this many times.
pub open spec fn pass_limit() -> u32 {
    3
}

/// The orchestrator's state between passes: how many passes have begun, and
/// which devices earlier passes already took on.
pub struct OrchestratorState {
    pub pass: u32,
    pub processed: Vec<HardwareDevice>,
}

pub ghost struct OrchestratorStateView {
    pub pass: u32,
    pub processed: Seq<HardwareDeviceView>,
}

impl View for OrchestratorState {
    type V = OrchestratorStateView;

    open spec fn view(&self) -> OrchestratorStateView {
        OrchestratorStateView { pass: self.pass, processed: self.processed.deep_view() }
    }
}

impl OrchestratorState {
    /// The state before the first pass.
    pub fn new() -> (r: OrchestratorState)
        ensures
            r@.pass == 0,
            r@.processed == Seq::<HardwareDeviceView>::empty(),
    {
        let r = OrchestratorState { pass: 0, processed: Vec::new() };
        proof {
            assert(r@.processed =~~= Seq::<HardwareDeviceView>::empty());
        }
        r
    }

    /// May another pass begin?
    pub fn can_continue(&self) -> (r: bool)
        ensures
            r == (self@.pass < pass_limit()),
    {
        self.pass < 3
    }
}

/// What one pass decides, given the device snapshot: an error that fails
/// the run, the end of the loop, or the matches to install.
pub enum PassDecision {
    /// The inventory reported no devices at all.
    NoDeviceFound,
    /// Narrowing to problem devices left nothing.
    NoMatchableDevice,
    /// The first pass matched nothing; the run ends with this report.
    NoDriverFound,
    /// Nothing new to process, or a later pass matched nothing: the loop
    /// ends without error.
    Converged,
    /// The devices to install, each with its ranked candidates.
    Install(Vec<(HardwareDevice, Vec<InfInfo>)>),
}

pub ghost enum PassDecisionView {
    NoDeviceFound,
    NoMatchableDevice,
    NoDriverFound,
    Converged,
    Install(Seq<(HardwareDeviceView, Seq<InfInfoView>)>),
}

impl View for PassDecision {
    type V = PassDecisionView;

    open spec fn view(&self) -> PassDecisionView {
        match self {
            PassDecision::NoDeviceFound => PassDecisionView::NoDeviceFound,
            PassDecision::NoMatchableDevice => PassDecisionView::NoMatchableDevice,
            PassDecision::NoDriverFound => PassDecisionView::NoDriverFound,
            PassDecision::Converged => PassDecisionView::Converged,
            PassDecision::Install(v) => PassDecisionView::Install(v.deep_view()),
        }
    }
}

/// Two devices are the same for de-duplication across passes: they expose
/// the same hardware-ID list.
pub open spec fn same_identity(a: HardwareDeviceView, b: HardwareDeviceView) -> bool {
    a.hardware_ids == b.hardware_ids
}

pub open spec fn is_processed(d: HardwareDeviceView, processed: Seq<HardwareDeviceView>) -> bool {
    exists|k: int| 0 <= k < processed.len() && same_identity(processed[k], d)
}

/// The devices flagged as lacking a functioning driver, in order.
pub open spec fn problem_only(devices: Seq<HardwareDeviceView>) -> Seq<HardwareDeviceView>
    decreases devices.len(),
{
    if devices.len() == 0 {
        Seq::<HardwareDeviceView>::empty()
    } else {
        let rest = problem_only(devices.drop_last());
        if devices.last().has_problem {
            rest.push(devices.last())
        } else {
            rest
        }
    }
}

/// The devices no earlier pass took on, in order.
pub open spec fn not_processed(
    devices: Seq<HardwareDeviceView>,
    processed: Seq<HardwareDeviceView>,
) -> Seq<HardwareDeviceView>
    decreases devices.len(),
{
    if devices.len() == 0 {
        Seq::<HardwareDeviceView>::empty()
    } else {
        let rest = not_processed(devices.drop_last(), processed);
        if !is_processed(devices.last(), processed) {
            rest.push(devices.last())
        } else {
            rest
        }
    }
}

/// What one pass does with a device snapshot: fail on an empty inventory,
/// narrow to problem devices unless every device was asked for, drop
/// devices already processed, and match the rest; an empty match ends the
/// run, as an error only on the first pass. The fresh devices are recorded
/// as processed exactly when installation follows.
pub open spec fn spec_next_pass(
    st: OrchestratorStateView,
    devices: Seq<HardwareDeviceView>,
    index: Seq<InfInfoView>,
    is_all_device: bool,
    class_filter: Option<Seq<char>>,
    arch_tag: Seq<char>,
) -> (OrchestratorStateView, PassDecisionView) {
    let bumped = OrchestratorStateView { pass: (st.pass + 1) as u32, ..st };
    if devices.len() == 0 {
        (bumped, PassDecisionView::NoDeviceFound)
    } else {
        let pool = if is_all_device {
            devices
        } else {
            problem_only(devices)
        };
        if pool.len() == 0 {
            (bumped, PassDecisionView::NoMatchableDevice)
        } else {
            let fresh = not_processed(pool, st.processed);
            if fresh.len() == 0 {
                (bumped, PassDecisionView::Converged)
            } else {
                let matches = spec_match_devices(index, arch_tag, class_filter, fresh, 0);
                if matches.len() == 0 {
                    if st.pass == 0 {
                        (bumped, PassDecisionView::NoDriverFound)
                    } else {
                        (bumped, PassDecisionView::Converged)
                    }
                } else {
                    let recorded = OrchestratorStateView {
                        pass: (st.pass + 1) as u32,
                        processed: st.processed + fresh,
                    };
                    (recorded, PassDecisionView::Install(matches))
                }
            }
        }
    }
}

/// Do the two devices share their hardware-ID list?
fn same_identity_x(a: &HardwareDevice, b: &HardwareDevice) -> (r: bool)
    ensures
        r == same_identity(a@, b@),
{
    let mut i: usize = 0;
    if a.hardware_ids.len() != b.hardware_ids.len() {
        proof {
            assert(a@.hardware_ids.len() == a.hardware_ids@.len());
            assert(b@.hardware_ids.len() == b.hardware_ids@.len());
        }
        return false;
    }
    while i < a.hardware_ids.len()
        invariant
            a@.hardware_ids.len() == a.hardware_ids@.len(),
            b@.hardware_ids.len() == b.hardware_ids@.len(),
            a.hardware_ids@.len() == b.hardware_ids@.len(),
            i <= a.hardware_ids@.len(),
            forall|j: int| 0 <= j < i ==> a@.hardware_ids[j] == b@.hardware_ids[j],
        decreases a.hardware_ids@.len() - i,
    {
        proof {
            assert(a@.hardware_ids[i as int] == a.hardware_ids@[i as int]@);
            assert(b@.hardware_ids[i as int] == b.hardware_ids@[i as int]@);
        }
        if !a.hardware_ids[i].eq(&b.hardware_ids[i]) {
            return false;
        }
        i += 1;
    }
    proof {
        assert(a@.hardware_ids =~= b@.hardware_ids);
    }
    true
}

fn is_processed_x(d: &HardwareDevice, processed: &Vec<HardwareDevice>) -> (r: bool)
    ensures
        r == is_processed(d@, processed.deep_view()),
{
    let mut i: usize = 0;
    while i < processed.len()
        invariant
            i <= processed@.len(),
            forall|j: int| 0 <= j < i ==> !same_identity(processed.deep_view()[j], d@),
        decreases processed@.len() - i,
    {
        proof {
            assert(processed.deep_view()[i as int] == processed@[i as int]@);
        }
        if same_identity_x(&processed[i], d) {
            return true;
        }
        i += 1;
    }
    proof {
        if is_processed(d@, processed.deep_view()) {
            let k = choose|k: int|
                0 <= k < processed.deep_view().len() && same_identity(
                    processed.deep_view()[k],
                    d@,
                );
            assert(false);
        }
    }
    false
}

/// Runs one pass's decisions over a device snapshot. The caller performs
/// the rescan before, and the installations after, when the decision says
/// so; `requires` holds the pass budget.
pub fn next_pass(
    state: &mut OrchestratorState,
    devices: Vec<HardwareDevice>,
    index: &[InfInfo],
    is_all_device: bool,
    drive_class: &Option<String>,
    arch_tag: &str,
) -> (r: PassDecision)
    requires
        old(state)@.pass < pass_limit(),
    ensures
        ({
            let (st, dec) = spec_next_pass(
                old(state)@,
                devices.deep_view(),
                index.deep_view(),
                is_all_device,
                drive_class.deep_view(),
                arch_tag@,
            );
            &&& final(state)@ == st
            &&& r@ == dec
            &&& final(state)@.pass == old(state)@.pass + 1
        }),
{
    let ghost dv = devices.deep_view();
    state.pass = state.pass + 1;
    if devices.len() == 0 {
        proof {
            assert(dv.len() == 0);
        }
        return PassDecision::NoDeviceFound;
    }
    // narrow to problem devices unless every device was asked for
    let pool: Vec<HardwareDevice> = if is_all_device {
        let mut all: Vec<HardwareDevice> = Vec::new();
        let mut i: usize = 0;
        while i < devices.len()
            invariant
                devices.deep_view() == dv,
                i <= devices@.len(),
                all.deep_view() == dv.take(i as int),
            decreases devices@.len() - i,
        {
            proof {
                assert(devices.deep_view()[i as int] == devices@[i as int]@);
            }
            let ghost prev = all.deep_view();
            all.push(devices[i].duplicate());
            proof {
                assert(all.deep_view() =~~= prev.push(dv[i as int]));
                assert(all.deep_view() =~~= dv.take(i + 1));
            }
            i += 1;
        }
        proof {
            assert(dv.take(devices@.len() as int) =~= dv);
        }
        all
    } else {
        let mut probs: Vec<HardwareDevice> = Vec::new();
        let mut i: usize = 0;
        proof {
            assert(dv.take(0) =~= Seq::<HardwareDeviceView>::empty());
            assert(probs.deep_view() =~~= problem_only(dv.take(0)));
        }
        while i < devices.len()
            invariant
                devices.deep_view() == dv,
                i <= devices@.len(),
                probs.deep_view() == problem_only(dv.take(i as int)),
            decreases devices@.len() - i,
        {
            proof {
                assert(devices.deep_view()[i as int] == devices@[i as int]@);
                assert(dv.take(i + 1).drop_last() =~= dv.take(i as int));
                assert(dv.take(i + 1).last() == dv[i as int]);
            }
            if devices[i].has_problem {
                let ghost prev = probs.deep_view();
                probs.push(devices[i].duplicate());
                proof {
                    assert(probs.deep_view() =~~= prev.push(dv[i as int]));
                }
            }
            i += 1;
        }
        proof {
            assert(dv.take(devices@.len() as int) =~= dv);
        }
        probs
    };
    let ghost poolv = pool.deep_view();
    if pool.len() == 0 {
        proof {
            assert(poolv.len() == 0);
            if is_all_device {
                assert(dv.len() > 0);
                assert(false);
            }
        }
        return PassDecision::NoMatchableDevice;
    }
    // drop devices an earlier pass already took on
    let ghost procv = state.processed.deep_view();
    let mut fresh: Vec<HardwareDevice> = Vec::new();
    let mut i: usize = 0;
    proof {
        assert(poolv.take(0) =~= Seq::<HardwareDeviceView>::empty());
        assert(fresh.deep_view() =~~= not_processed(poolv.take(0), procv));
    }
    while i < pool.len()
        invariant
            pool.deep_view() == poolv,
            state.processed.deep_view() == procv,
            i <= pool@.len(),
            fresh.deep_view() == not_processed(poolv.take(i as int), procv),
        decreases pool@.len() - i,
    {
        proof {
            assert(pool.deep_view()[i as int] == pool@[i as int]@);
            assert(poolv.take(i + 1).drop_last() =~= poolv.take(i as int));
            assert(poolv.take(i + 1).last() == poolv[i as int]);
        }
        if !is_processed_x(&pool[i], &state.processed) {
            let ghost prev = fresh.deep_view();
            fresh.push(pool[i].duplicate());
            proof {
                assert(fresh.deep_view() =~~= prev.push(poolv[i as int]));
            }
        }
        i += 1;
    }
    proof {
        assert(poolv.take(pool@.len() as int) =~= poolv);
    }
    let ghost freshv = fresh.deep_view();
    if fresh.len() == 0 {
        proof {
            assert(freshv.len() == 0);
        }
        return PassDecision::Converged;
    }
    // match the fresh devices against the index
    let matches = crate::matcher::getMatchInfo(
        fresh.as_slice(),
        index,
        drive_class,
        arch_tag,
    );
    if matches.len() == 0 {
        proof {
            assert(matches.deep_view().len() == 0);
        }
        if state.pass == 1 {
            return PassDecision::NoDriverFound;
        }
        return PassDecision::Converged;
    }
    proof {
        assert(matches.deep_view().len() > 0);
    }
    // record this pass's devices so that later passes skip them
    let mut i: usize = 0;
    let n: usize = fresh.len();
    while i < n
        invariant
            fresh.deep_view() == freshv,
            n == fresh@.len(),
            n == freshv.len(),
            i <= n,
            state.processed.deep_view() == procv + freshv.take(i as int),
            state.pass == old(state).pass + 1,
        decreases n - i,
    {
        proof {
            assert(fresh.deep_view()[i as int] == fresh@[i as int]@);
        }
        let ghost prev = state.processed.deep_view();
        state.processed.push(fresh[i].duplicate());
        proof {
            assert(state.processed.deep_view() =~~= prev.push(freshv[i as int]));
            assert(state.processed.deep_view() =~~= procv + freshv.take(i + 1));
        }
        i += 1;
    }
    proof {
        assert(procv + freshv.take(n as int) =~= procv + freshv);
    }
    PassDecision::Install(matches)
}

/// Which candidate an installation settles on: candidates are tried in
/// order; a candidate whose files cannot be extracted from an archive is
/// skipped; in extract-only mode the first extracted candidate wins;
/// otherwise a candidate wins when any of its hardware IDs loads.
pub open spec fn spec_install_choice(
    n: int,
    extract_ok: Seq<bool>,
    load_ok: Seq<bool>,
    only_extract: bool,
    from_archive: bool,
    i: int,
) -> Option<int>
    decreases n - i,
    when 0 <= i
{
    if i >= n {
        None
    } else if from_archive && !extract_ok[i] {
        spec_install_choice(n, extract_ok, load_ok, only_extract, from_archive, i + 1)
    } else if only_extract {
        Some(i)
    } else if load_ok[i] {
        Some(i)
    } else {
        spec_install_choice(n, extract_ok, load_ok, only_extract, from_archive, i + 1)
    }
}

/// Selects the winning candidate for one device, given what the outside
/// calls reported: `extract_ok[i]` says whether candidate `i`'s files could
/// be extracted, `load_ok[i]` whether any of its hardware IDs loaded. The
/// result is the first candidate that gets through, `None` when every
/// candidate is exhausted.
pub fn select_install_candidate(
    n: usize,
    extract_ok: &Vec<bool>,
    load_ok: &Vec<bool>,
    only_extract: bool,
    from_archive: bool,
) -> (r: Option<usize>)
    requires
        extract_ok@.len() == n,
        load_ok@.len() == n,
    ensures
        match r {
            Some(i) => i < n && Some(i as int) == spec_install_choice(
                n as int,
                extract_ok@,
                load_ok@,
                only_extract,
                from_archive,
                0,
            ),
            None => spec_install_choice(
                n as int,
                extract_ok@,
                load_ok@,
                only_extract,
                from_archive,
                0,
            ) is None,
        },
{
    let mut i: usize = 0;
    while i < n
        invariant
            extract_ok@.len() == n,
            load_ok@.len() == n,
            i <= n,
            spec_install_choice(
                n as int,
                extract_ok@,
                load_ok@,
                only_extract,
                from_archive,
                0,
            ) == spec_install_choice(
                n as int,
                extract_ok@,
                load_ok@,
                only_extract,
                from_archive,
                i as int,
            ),
        decreases n - i,
    {
        if !(from_archive && !extract_ok[i]) {
            if only_extract {
                return Some(i);
            }
            if load_ok[i] {
                return Some(i);
            }
        }
        i += 1;
    }
    None
}

/// The install loop never exceeds the pass budget: a run's states go
/// `0, 1, 2, ...`, a pass begins only below the limit, so a run holds at
/// most four states, that is at most three passes.
pub proof fn lemma_pass_values(trace: Seq<OrchestratorStateView>, i: int)
    requires
        trace.len() >= 1,
        trace[0].pass == 0,
        forall|k: int|
            0 <= k < trace.len() - 1 ==> (#[trigger] trace[k]).pass < pass_limit() && trace[k
                + 1].pass == trace[k].pass + 1,
        0 <= i < trace.len(),
    ensures
        trace[i].pass == i,
    decreases i,
{
    if i > 0 {
        lemma_pass_values(trace, i - 1);
    }
}

/// The pass budget bounds every run: any chain of passes that starts fresh
/// and only continues below the limit ends after at most `pass_limit`
/// passes.
pub proof fn lemma_install_loop_bounded(trace: Seq<OrchestratorStateView>)
    requires
        trace.len() >= 1,
        trace[0].pass == 0,
        forall|k: int|
            0 <= k < trace.len() - 1 ==> (#[trigger] trace[k]).pass < pass_limit() && trace[k
                + 1].pass == trace[k].pass + 1,
    ensures
        trace.len() <= pass_limit() + 1,
{
    if trace.len() > pass_limit() + 1 {
        lemma_pass_values(trace, pass_limit() as int);
        assert(trace[pass_limit() as int].pass == pass_limit());
        assert(trace[pass_limit() as int].pass < pass_limit());
    }
}

} // verus!
