//! The matcher: ranks index entries per device. Candidates from hardware
//! IDs precede candidates from compatible IDs; within one ID's matches the
//! higher driver version ranks first.

use crate::inf::InfInfo;
use crate::inf::InfInfoView;
use crate::text::chars_vec;
use crate::text::seq_eq_ci;
use crate::text::str_eq_ci;
use crate::version::compareVersion;
use crate::version::is_valid_version;
use crate::version::spec_compare_version;
use crate::version::version_le;
use std::cmp::Ordering;
use vstd::prelude::*;
use vstd::seq_lib::group_to_multiset_ensures;

verus! {

/// One device as the hardware inventory reports it: its name, its hardware
/// IDs most specific first, its compatible IDs, and whether it currently
/// lacks a functioning driver.
pub struct HardwareDevice {
    pub name: String,
    pub hardware_ids: Vec<String>,
    pub compatible_ids: Vec<String>,
    pub has_problem: bool,
}

pub ghost struct HardwareDeviceView {
    pub name: Seq<char>,
    pub hardware_ids: Seq<Seq<char>>,
    pub compatible_ids: Seq<Seq<char>>,
    pub has_problem: bool,
}

impl View for HardwareDevice {
    type V = HardwareDeviceView;

    open spec fn view(&self) -> HardwareDeviceView {
        HardwareDeviceView {
            name: self.name@,
            hardware_ids: self.hardware_ids.deep_view(),
            compatible_ids: self.compatible_ids.deep_view(),
            has_problem: self.has_problem,
        }
    }
}

impl DeepView for HardwareDevice {
    type V = HardwareDeviceView;

    open spec fn deep_view(&self) -> HardwareDeviceView {
        self.view()
    }
}

impl HardwareDevice {
    /// A copy of this device whose view is the same.
    pub fn duplicate(&self) -> (r: HardwareDevice)
        ensures
            r@ == self@,
    {
        HardwareDevice {
            name: self.name.clone(),
            hardware_ids: crate::inf::copy_strings(&self.hardware_ids),
            compatible_ids: crate::inf::copy_strings(&self.compatible_ids),
            has_problem: self.has_problem,
        }
    }
}

/// The comparison the candidate sort uses: `Greater` exactly when `y`'s
/// version is strictly higher than `x`'s, an incomparable pair counting as
/// `Less` so that it never reorders.
pub open spec fn candidate_order(x: InfInfoView, y: InfInfoView) -> Ordering {
    match spec_compare_version(y.version, x.version) {
        Some(o) => o,
        None => Ordering::Less,
    }
}

fn candidate_order_x(x: &InfInfo, y: &InfInfo) -> (r: Ordering)
    ensures
        r == candidate_order(x@, y@),
{
    match compareVersion(y.Version.as_str(), x.Version.as_str()) {
        Ok(o) => o,
        Err(_) => Ordering::Less,
    }
}

/// Stable insertion of a candidate into a version-sorted list: the new
/// element moves left past exactly the elements whose version is strictly
/// lower.
pub open spec fn spec_insert_candidate(sorted: Seq<InfInfoView>, x: InfInfoView) -> Seq<
    InfInfoView,
>
    decreases sorted.len(),
{
    if sorted.len() == 0 {
        seq![x]
    } else if candidate_order(sorted.last(), x) == Ordering::Greater {
        spec_insert_candidate(sorted.drop_last(), x).push(sorted.last())
    } else {
        sorted.push(x)
    }
}

/// Stable insertion sort of candidates by descending version.
pub open spec fn spec_sort_candidates(s: Seq<InfInfoView>) -> Seq<InfInfoView>
    decreases s.len(),
{
    if s.len() == 0 {
        Seq::<InfInfoView>::empty()
    } else {
        spec_insert_candidate(spec_sort_candidates(s.drop_last()), s.last())
    }
}

/// `spec_insert_candidate` places the element at the scan position.
proof fn lemma_insert_candidate_at(sorted: Seq<InfInfoView>, x: InfInfoView, j: int)
    requires
        0 <= j <= sorted.len(),
        forall|k: int| j <= k < sorted.len() ==> candidate_order(#[trigger] sorted[k], x)
            == Ordering::Greater,
        j == 0 || candidate_order(sorted[j - 1], x) != Ordering::Greater,
    ensures
        spec_insert_candidate(sorted, x) == sorted.take(j) + seq![x] + sorted.skip(j),
    decreases sorted.len(),
{
    if sorted.len() == 0 {
        assert(spec_insert_candidate(sorted, x) =~= sorted.take(j) + seq![x] + sorted.skip(j));
    } else if j == sorted.len() {
        assert(sorted.take(j) =~= sorted);
        assert(spec_insert_candidate(sorted, x) =~= sorted.take(j) + seq![x] + sorted.skip(j));
    } else {
        assert(candidate_order(sorted.last(), x) == Ordering::Greater);
        assert forall|k: int| j <= k < sorted.drop_last().len() implies candidate_order(
            #[trigger] sorted.drop_last()[k],
            x,
        ) == Ordering::Greater by {
            assert(sorted.drop_last()[k] == sorted[k]);
        }
        if j > 0 {
            assert(sorted.drop_last()[j - 1] == sorted[j - 1]);
        }
        lemma_insert_candidate_at(sorted.drop_last(), x, j);
        assert(spec_insert_candidate(sorted, x) =~= sorted.take(j) + seq![x] + sorted.skip(j));
    }
}

/// Inserts one candidate into a sorted vector, keeping the sort.
fn insert_candidate(out: &mut Vec<InfInfo>, x: InfInfo)
    ensures
        final(out).deep_view() == spec_insert_candidate(old(out).deep_view(), x@),
{
    let ghost sorted = out.deep_view();
    let mut j: usize = out.len();
    while j > 0 && matches!(candidate_order_x(&out[j - 1], &x), Ordering::Greater)
        invariant
            out.deep_view() == sorted,
            j <= sorted.len(),
            forall|k: int| j <= k < sorted.len() ==> candidate_order(#[trigger] sorted[k], x@)
                == Ordering::Greater,
        decreases j,
    {
        proof {
            assert(out.deep_view()[j - 1] == out@[j - 1]@);
        }
        j -= 1;
    }
    proof {
        if j > 0 {
            assert(out.deep_view()[j - 1] == out@[j - 1]@);
        }
        lemma_insert_candidate_at(sorted, x@, j as int);
    }
    out.insert(j, x);
    proof {
        assert(out.deep_view() =~~= sorted.take(j as int) + seq![x@] + sorted.skip(j as int));
    }
}

/// Sorts candidates by descending version, stably.
fn sort_candidates(v: Vec<InfInfo>) -> (r: Vec<InfInfo>)
    ensures
        r.deep_view() == spec_sort_candidates(v.deep_view()),
{
    let ghost vdv = v.deep_view();
    let mut out: Vec<InfInfo> = Vec::new();
    let mut i: usize = 0;
    let n: usize = v.len();
    proof {
        assert(vdv.take(0) =~= Seq::<InfInfoView>::empty());
        assert(out.deep_view() =~~= spec_sort_candidates(vdv.take(0)));
    }
    let mut v = v;
    while i < n
        invariant
            v.deep_view() == vdv,
            n == vdv.len(),
            i <= n,
            i <= v@.len(),
            out.deep_view() == spec_sort_candidates(vdv.take(i as int)),
        decreases n - i,
    {
        proof {
            assert(v.deep_view()[i as int] == v@[i as int]@);
            assert(vdv.take(i + 1).drop_last() =~= vdv.take(i as int));
            assert(vdv.take(i + 1).last() == vdv[i as int]);
        }
        let x = v[i].duplicate();
        insert_candidate(&mut out, x);
        i += 1;
    }
    proof {
        assert(vdv.take(n as int) =~= vdv);
    }
    out
}

/// An index entry is eligible for matching: it supports the host
/// architecture tag, and the class filter, when given, equals its class up
/// to case.
pub open spec fn entry_eligible(
    e: InfInfoView,
    arch_tag: Seq<char>,
    class_filter: Option<Seq<char>>,
) -> bool {
    e.arch.contains(arch_tag) && match class_filter {
        Some(c) => seq_eq_ci(c, e.class),
        None => true,
    }
}

/// The entry's hardware IDs equal to `id` up to case, in order.
pub open spec fn matching_ids(list: Seq<Seq<char>>, id: Seq<char>) -> Seq<Seq<char>>
    decreases list.len(),
{
    if list.len() == 0 {
        Seq::<Seq<char>>::empty()
    } else {
        let rest = matching_ids(list.drop_last(), id);
        if seq_eq_ci(id, list.last()) {
            rest.push(list.last())
        } else {
            rest
        }
    }
}

/// The entry restricted to the hardware IDs matching `id`.
pub open spec fn partial_entry(e: InfInfoView, id: Seq<char>) -> InfInfoView {
    InfInfoView { driver_list: matching_ids(e.driver_list, id), ..e }
}

/// All eligible index entries with a hardware ID equal to `id` up to case,
/// each restricted to its matching IDs, in index order.
pub open spec fn matches_for_id(
    index: Seq<InfInfoView>,
    arch_tag: Seq<char>,
    class_filter: Option<Seq<char>>,
    id: Seq<char>,
) -> Seq<InfInfoView>
    decreases index.len(),
{
    if index.len() == 0 {
        Seq::<InfInfoView>::empty()
    } else {
        let rest = matches_for_id(index.drop_last(), arch_tag, class_filter, id);
        let e = index.last();
        if entry_eligible(e, arch_tag, class_filter) && matching_ids(e.driver_list, id).len()
            > 0 {
            rest.push(partial_entry(e, id))
        } else {
            rest
        }
    }
}

/// The candidates one ID contributes: its matches, version-sorted.
pub open spec fn sorted_matches_for_id(
    index: Seq<InfInfoView>,
    arch_tag: Seq<char>,
    class_filter: Option<Seq<char>>,
    id: Seq<char>,
) -> Seq<InfInfoView> {
    spec_sort_candidates(matches_for_id(index, arch_tag, class_filter, id))
}

/// The concatenation of every ID's sorted matches, in ID order.
pub open spec fn id_list_matches(
    index: Seq<InfInfoView>,
    arch_tag: Seq<char>,
    class_filter: Option<Seq<char>>,
    ids: Seq<Seq<char>>,
    i: int,
) -> Seq<InfInfoView>
    decreases ids.len() - i,
    when 0 <= i
{
    if i >= ids.len() {
        Seq::<InfInfoView>::empty()
    } else {
        sorted_matches_for_id(index, arch_tag, class_filter, ids[i]) + id_list_matches(
            index,
            arch_tag,
            class_filter,
            ids,
            i + 1,
        )
    }
}

/// A device's candidate list: every hardware-ID match, then every
/// compatible-ID match, each ID's group version-sorted internally.
pub open spec fn device_candidates(
    index: Seq<InfInfoView>,
    arch_tag: Seq<char>,
    class_filter: Option<Seq<char>>,
    d: HardwareDeviceView,
) -> Seq<InfInfoView> {
    id_list_matches(index, arch_tag, class_filter, d.hardware_ids, 0) + id_list_matches(
        index,
        arch_tag,
        class_filter,
        d.compatible_ids,
        0,
    )
}

/// The match results for a device list: one pair per device with a
/// nonempty candidate list, in device order.
pub open spec fn spec_match_devices(
    index: Seq<InfInfoView>,
    arch_tag: Seq<char>,
    class_filter: Option<Seq<char>>,
    devices: Seq<HardwareDeviceView>,
    i: int,
) -> Seq<(HardwareDeviceView, Seq<InfInfoView>)>
    decreases devices.len() - i,
    when 0 <= i
{
    if i >= devices.len() {
        Seq::<(HardwareDeviceView, Seq<InfInfoView>)>::empty()
    } else {
        let rest = spec_match_devices(index, arch_tag, class_filter, devices, i + 1);
        let c = device_candidates(index, arch_tag, class_filter, devices[i]);
        if c.len() == 0 {
            rest
        } else {
            seq![(devices[i], c)] + rest
        }
    }
}

/// The entry's hardware IDs equal to `id` up to case.
fn matching_ids_x(list: &Vec<String>, id: &[char]) -> (r: Vec<String>)
    ensures
        r.deep_view() == matching_ids(list.deep_view(), id@),
{
    let ghost ldv = list.deep_view();
    let mut r: Vec<String> = Vec::new();
    let mut i: usize = 0;
    proof {
        assert(ldv.take(0) =~= Seq::<Seq<char>>::empty());
        assert(r.deep_view() =~~= matching_ids(ldv.take(0), id@));
    }
    while i < list.len()
        invariant
            list.deep_view() == ldv,
            i <= ldv.len(),
            i <= list@.len(),
            r.deep_view() == matching_ids(ldv.take(i as int), id@),
        decreases list@.len() - i,
    {
        proof {
            assert(list.deep_view()[i as int] == list@[i as int]@);
            assert(ldv.take(i + 1).drop_last() =~= ldv.take(i as int));
            assert(ldv.take(i + 1).last() == ldv[i as int]);
        }
        let cv = chars_vec(list[i].as_str());
        if crate::text::eq_vec_ci(id, cv.as_slice()) {
            let ghost prev = r.deep_view();
            r.push(list[i].clone());
            proof {
                assert(r.deep_view() =~~= prev.push(ldv[i as int]));
            }
        }
        i += 1;
    }
    proof {
        assert(ldv.take(list@.len() as int) =~= ldv);
    }
    r
}

/// The version-sorted matches one ID draws from the index.
fn match_one_id(
    index: &[InfInfo],
    arch_tag: &[char],
    class_filter: &Option<String>,
    id: &[char],
) -> (r: Vec<InfInfo>)
    ensures
        r.deep_view() == sorted_matches_for_id(
            index.deep_view(),
            arch_tag@,
            class_filter.deep_view(),
            id@,
        ),
{
    let ghost idx = index.deep_view();
    let ghost cf = class_filter.deep_view();
    let mut found: Vec<InfInfo> = Vec::new();
    let mut i: usize = 0;
    let n: usize = index.len();
    proof {
        assert(idx.take(0) =~= Seq::<InfInfoView>::empty());
        assert(found.deep_view() =~~= matches_for_id(idx.take(0), arch_tag@, cf, id@));
    }
    while i < n
        invariant
            index.deep_view() == idx,
            class_filter.deep_view() == cf,
            n == idx.len(),
            n == index@.len(),
            i <= n,
            found.deep_view() == matches_for_id(idx.take(i as int), arch_tag@, cf, id@),
        decreases n - i,
    {
        proof {
            assert(index.deep_view()[i as int] == index@[i as int]@);
            assert(idx.take(i + 1).drop_last() =~= idx.take(i as int));
            assert(idx.take(i + 1).last() == idx[i as int]);
        }
        let e = &index[i];
        let arch_ok = crate::inf::contains_string(&e.Arch, arch_tag);
        let class_ok = match class_filter {
            Some(c) => str_eq_ci(c.as_str(), e.Class.as_str()),
            None => true,
        };
        if arch_ok && class_ok {
            let ids = matching_ids_x(&e.DriverList, id);
            if ids.len() > 0 {
                proof {
                    assert(ids.deep_view().len() > 0);
                }
                let ghost prev = found.deep_view();
                let partial = InfInfo {
                    Path: e.Path.clone(),
                    Inf: e.Inf.clone(),
                    Class: e.Class.clone(),
                    Arch: crate::inf::copy_strings(&e.Arch),
                    Date: e.Date.clone(),
                    Version: e.Version.clone(),
                    DriverList: ids,
                };
                found.push(partial);
                proof {
                    assert(found.deep_view() =~~= prev.push(partial_entry(idx[i as int], id@)));
                }
            } else {
                proof {
                    assert(ids.deep_view().len() == 0);
                }
            }
        }
        i += 1;
    }
    proof {
        assert(idx.take(n as int) =~= idx);
    }
    sort_candidates(found)
}

/// Appends the entries of `src` to `dst`.
fn append_entries(dst: &mut Vec<InfInfo>, src: Vec<InfInfo>)
    ensures
        final(dst).deep_view() == old(dst).deep_view() + src.deep_view(),
{
    let ghost sdv = src.deep_view();
    let ghost ddv0 = old(dst).deep_view();
    let n: usize = src.len();
    let mut i: usize = 0;
    proof {
        assert(dst.deep_view() =~= ddv0 + sdv.take(0));
    }
    let src = src;
    while i < n
        invariant
            src.deep_view() == sdv,
            n == sdv.len(),
            n == src@.len(),
            i <= n,
            dst.deep_view() == ddv0 + sdv.take(i as int),
        decreases n - i,
    {
        proof {
            assert(src.deep_view()[i as int] == src@[i as int]@);
        }
        let ghost prev = dst.deep_view();
        dst.push(src[i].duplicate());
        proof {
            assert(dst.deep_view() =~~= prev.push(sdv[i as int]));
            assert(prev.push(sdv[i as int]) =~= ddv0 + sdv.take(i + 1));
        }
        i += 1;
    }
    proof {
        assert(sdv.take(n as int) =~= sdv);
    }
}

/// The concatenated sorted matches of a whole ID list.
fn candidates_for_ids(
    index: &[InfInfo],
    arch_tag: &[char],
    class_filter: &Option<String>,
    ids: &Vec<String>,
    out: &mut Vec<InfInfo>,
)
    ensures
        final(out).deep_view() == old(out).deep_view() + id_list_matches(
            index.deep_view(),
            arch_tag@,
            class_filter.deep_view(),
            ids.deep_view(),
            0,
        ),
{
    let ghost idx = index.deep_view();
    let ghost cf = class_filter.deep_view();
    let ghost idv = ids.deep_view();
    let ghost out0 = old(out).deep_view();
    let n: usize = ids.len();
    let mut i: usize = 0;
    while i < n
        invariant
            index.deep_view() == idx,
            class_filter.deep_view() == cf,
            ids.deep_view() == idv,
            n == idv.len(),
            n == ids@.len(),
            i <= n,
            out.deep_view() + id_list_matches(idx, arch_tag@, cf, idv, i as int) == out0
                + id_list_matches(idx, arch_tag@, cf, idv, 0),
        decreases n - i,
    {
        proof {
            assert(ids.deep_view()[i as int] == ids@[i as int]@);
        }
        let idc = chars_vec(ids[i].as_str());
        let group = match_one_id(index, arch_tag, class_filter, idc.as_slice());
        let ghost gdv = group.deep_view();
        append_entries(out, group);
        proof {
            assert(out.deep_view() + id_list_matches(idx, arch_tag@, cf, idv, i + 1) =~= out0
                + id_list_matches(idx, arch_tag@, cf, idv, 0));
        }
        i += 1;
    }
}

/// Matches every device against the index: each device with at least one
/// candidate is paired with its candidate list, hardware-ID matches first,
/// each ID group sorted by descending version.
#[allow(non_snake_case)]
pub fn getMatchInfo(
    idInfo: &[HardwareDevice],
    infInfoList: &[InfInfo],
    driveClass: &Option<String>,
    currentArch: &str,
) -> (r: Vec<(HardwareDevice, Vec<InfInfo>)>)
    ensures
        r.deep_view() == spec_match_devices(
            infInfoList.deep_view(),
            currentArch@,
            driveClass.deep_view(),
            idInfo.deep_view(),
            0,
        ),
{
    let ghost idx = infInfoList.deep_view();
    let ghost cf = driveClass.deep_view();
    let ghost dv = idInfo.deep_view();
    let arch = chars_vec(currentArch);
    let mut r: Vec<(HardwareDevice, Vec<InfInfo>)> = Vec::new();
    let n: usize = idInfo.len();
    let mut i: usize = 0;
    while i < n
        invariant
            infInfoList.deep_view() == idx,
            driveClass.deep_view() == cf,
            idInfo.deep_view() == dv,
            arch@ == currentArch@,
            n == dv.len(),
            n == idInfo@.len(),
            i <= n,
            r.deep_view() + spec_match_devices(idx, currentArch@, cf, dv, i as int)
                == spec_match_devices(idx, currentArch@, cf, dv, 0),
        decreases n - i,
    {
        proof {
            assert(idInfo.deep_view()[i as int] == idInfo@[i as int]@);
        }
        let d = &idInfo[i];
        let mut cands: Vec<InfInfo> = Vec::new();
        candidates_for_ids(infInfoList, arch.as_slice(), driveClass, &d.hardware_ids, &mut cands);
        candidates_for_ids(
            infInfoList,
            arch.as_slice(),
            driveClass,
            &d.compatible_ids,
            &mut cands,
        );
        proof {
            assert(cands.deep_view() =~= device_candidates(idx, currentArch@, cf, dv[i as int]));
        }
        if cands.len() > 0 {
            proof {
                assert(cands.deep_view().len() > 0);
            }
            let ghost prev = r.deep_view();
            r.push((d.duplicate(), cands));
            proof {
                assert(r.deep_view() =~~= prev.push(
                    (dv[i as int], device_candidates(idx, currentArch@, cf, dv[i as int])),
                ));
                assert(prev.push(
                    (dv[i as int], device_candidates(idx, currentArch@, cf, dv[i as int])),
                ) + spec_match_devices(idx, currentArch@, cf, dv, i + 1) =~= prev + (seq![
                    (dv[i as int], device_candidates(idx, currentArch@, cf, dv[i as int])),
                ] + spec_match_devices(idx, currentArch@, cf, dv, i + 1)));
            }
        } else {
            proof {
                assert(cands.deep_view().len() == 0);
            }
        }
        i += 1;
    }
    proof {
        assert(r.deep_view() =~= spec_match_devices(idx, currentArch@, cf, dv, 0));
    }
    r
}

/// The architecture tag the matcher uses for a standard architecture name.
pub open spec fn spec_arch_tag_for(s: Seq<char>) -> Seq<char> {
    if s == seq!['x', '8', '6'] {
        crate::inf::tag_x86()
    } else if s == seq!['x', '8', '6', '_', '6', '4'] {
        crate::inf::tag_amd64()
    } else if s == seq!['a', 'r', 'm'] {
        crate::inf::tag_arm()
    } else {
        Seq::<char>::empty()
    }
}

/// The architecture tag for the host: `x86`, `x86_64` and `arm` map to
/// their INF tags, anything else to the empty tag, which no entry carries.
pub fn current_arch_tag(std_arch: &str) -> (r: String)
    ensures
        r@ == spec_arch_tag_for(std_arch@),
{
    let sv = chars_vec(std_arch);
    let x86: Vec<char> = vec!['x', '8', '6'];
    let x64: Vec<char> = vec!['x', '8', '6', '_', '6', '4'];
    let arm: Vec<char> = vec!['a', 'r', 'm'];
    proof {
        assert(x86@ =~= seq!['x', '8', '6']);
        assert(x64@ =~= seq!['x', '8', '6', '_', '6', '4']);
        assert(arm@ =~= seq!['a', 'r', 'm']);
    }
    if crate::util::vec_eq_chars(sv.as_slice(), x86.as_slice()) {
        let t: Vec<char> = vec!['N', 'T', 'x', '8', '6'];
        proof {
            assert(t@ =~= crate::inf::tag_x86());
        }
        crate::text::string_from_chars(t.as_slice())
    } else if crate::util::vec_eq_chars(sv.as_slice(), x64.as_slice()) {
        let t: Vec<char> = vec!['N', 'T', 'a', 'm', 'd', '6', '4'];
        proof {
            assert(t@ =~= crate::inf::tag_amd64());
        }
        crate::text::string_from_chars(t.as_slice())
    } else if crate::util::vec_eq_chars(sv.as_slice(), arm.as_slice()) {
        let t: Vec<char> = vec!['N', 'T', 'a', 'r', 'm'];
        proof {
            assert(t@ =~= crate::inf::tag_arm());
        }
        crate::text::string_from_chars(t.as_slice())
    } else {
        String::new()
    }
}

/// Matching priority: in a device's candidate list every hardware-ID match
/// stands before every compatible-ID match, whatever the versions involved.
pub proof fn lemma_matching_priority(
    index: Seq<InfInfoView>,
    arch_tag: Seq<char>,
    class_filter: Option<Seq<char>>,
    d: HardwareDeviceView,
)
    ensures
        ({
            let hw = id_list_matches(index, arch_tag, class_filter, d.hardware_ids, 0);
            let co = id_list_matches(index, arch_tag, class_filter, d.compatible_ids, 0);
            let c = device_candidates(index, arch_tag, class_filter, d);
            &&& c.len() == hw.len() + co.len()
            &&& forall|i: int| 0 <= i < hw.len() ==> c[i] == hw[i]
            &&& forall|j: int| 0 <= j < co.len() ==> c[hw.len() + j] == co[j]
        }),
{
}

/// Every element of `matches_for_id` supports the architecture tag.
proof fn lemma_matches_for_id_arch(
    index: Seq<InfInfoView>,
    arch_tag: Seq<char>,
    class_filter: Option<Seq<char>>,
    id: Seq<char>,
)
    ensures
        forall|k: int|
            0 <= k < matches_for_id(index, arch_tag, class_filter, id).len() ==> (
            #[trigger] matches_for_id(index, arch_tag, class_filter, id)[k]).arch.contains(
                arch_tag,
            ),
    decreases index.len(),
{
    if index.len() > 0 {
        lemma_matches_for_id_arch(index.drop_last(), arch_tag, class_filter, id);
        let m = matches_for_id(index, arch_tag, class_filter, id);
        let rest = matches_for_id(index.drop_last(), arch_tag, class_filter, id);
        let e = index.last();
        assert forall|k: int| 0 <= k < m.len() implies (#[trigger] m[k]).arch.contains(
            arch_tag,
        ) by {
            if entry_eligible(e, arch_tag, class_filter) && matching_ids(e.driver_list, id).len()
                > 0 {
                if k < rest.len() {
                    assert(m[k] == rest[k]);
                } else {
                    assert(m[k] == partial_entry(e, id));
                }
            } else {
                assert(m[k] == rest[k]);
            }
        }
    }
}

/// Insertion rearranges the candidates: the multiset of elements grows by
/// exactly the inserted one.
proof fn lemma_insert_multiset(sorted: Seq<InfInfoView>, x: InfInfoView)
    ensures
        spec_insert_candidate(sorted, x).to_multiset() == sorted.to_multiset().insert(x),
    decreases sorted.len(),
{
    broadcast use group_to_multiset_ensures;

    if sorted.len() == 0 {
        assert(seq![x] =~= Seq::<InfInfoView>::empty().push(x));
        assert(spec_insert_candidate(sorted, x).to_multiset() =~= sorted.to_multiset().insert(
            x,
        ));
    } else if candidate_order(sorted.last(), x) == Ordering::Greater {
        lemma_insert_multiset(sorted.drop_last(), x);
        assert(sorted =~= sorted.drop_last().push(sorted.last()));
        assert(spec_insert_candidate(sorted, x).to_multiset() =~= sorted.to_multiset().insert(
            x,
        ));
    } else {
        assert(spec_insert_candidate(sorted, x).to_multiset() =~= sorted.to_multiset().insert(
            x,
        ));
    }
}

/// Sorting rearranges the candidates: the multiset of elements is kept.
pub proof fn lemma_sort_multiset(s: Seq<InfInfoView>)
    ensures
        spec_sort_candidates(s).to_multiset() == s.to_multiset(),
    decreases s.len(),
{
    broadcast use group_to_multiset_ensures;

    if s.len() > 0 {
        lemma_sort_multiset(s.drop_last());
        lemma_insert_multiset(spec_sort_candidates(s.drop_last()), s.last());
        assert(s =~= s.drop_last().push(s.last()));
        assert(spec_sort_candidates(s).to_multiset() =~= s.to_multiset());
    }
}

/// Every element of the sorted candidates is an element of the input.
proof fn lemma_sort_membership(s: Seq<InfInfoView>, k: int)
    requires
        0 <= k < spec_sort_candidates(s).len(),
    ensures
        s.contains(spec_sort_candidates(s)[k]),
{
    broadcast use group_to_multiset_ensures;

    lemma_sort_multiset(s);
    let e = spec_sort_candidates(s)[k];
    assert(spec_sort_candidates(s).contains(e));
    assert(spec_sort_candidates(s).to_multiset().count(e) > 0);
    assert(s.to_multiset().count(e) > 0);
}

/// Architecture exclusion: an index entry whose architectures lack the host
/// tag never appears among any device's candidates; equivalently, every
/// candidate supports the host tag.
pub proof fn lemma_candidates_match_arch(
    index: Seq<InfInfoView>,
    arch_tag: Seq<char>,
    class_filter: Option<Seq<char>>,
    d: HardwareDeviceView,
    k: int,
)
    requires
        0 <= k < device_candidates(index, arch_tag, class_filter, d).len(),
    ensures
        device_candidates(index, arch_tag, class_filter, d)[k].arch.contains(arch_tag),
{
    let hw = id_list_matches(index, arch_tag, class_filter, d.hardware_ids, 0);
    if k < hw.len() {
        lemma_id_list_matches_arch(index, arch_tag, class_filter, d.hardware_ids, 0, k);
    } else {
        lemma_id_list_matches_arch(
            index,
            arch_tag,
            class_filter,
            d.compatible_ids,
            0,
            k - hw.len(),
        );
    }
}

/// Every element of an ID list's matches supports the architecture tag.
proof fn lemma_id_list_matches_arch(
    index: Seq<InfInfoView>,
    arch_tag: Seq<char>,
    class_filter: Option<Seq<char>>,
    ids: Seq<Seq<char>>,
    i: int,
    k: int,
)
    requires
        0 <= i,
        0 <= k < id_list_matches(index, arch_tag, class_filter, ids, i).len(),
    ensures
        id_list_matches(index, arch_tag, class_filter, ids, i)[k].arch.contains(arch_tag),
    decreases ids.len() - i,
{
    if i < ids.len() {
        let group = sorted_matches_for_id(index, arch_tag, class_filter, ids[i]);
        if k < group.len() {
            lemma_sort_membership(matches_for_id(index, arch_tag, class_filter, ids[i]), k);
            lemma_matches_for_id_arch(index, arch_tag, class_filter, ids[i]);
            let e = group[k];
            let m = matches_for_id(index, arch_tag, class_filter, ids[i]);
            let w = choose|w: int| 0 <= w < m.len() && m[w] == e;
            assert(m[w].arch.contains(arch_tag));
        } else {
            lemma_id_list_matches_arch(index, arch_tag, class_filter, ids, i + 1, k - group.len());
        }
    }
}

/// All candidates in a group carry well-formed versions.
pub open spec fn all_versions_valid(s: Seq<InfInfoView>) -> bool {
    forall|i: int| 0 <= i < s.len() ==> is_valid_version((#[trigger] s[i]).version)
}

/// Descending version order, pairwise.
pub open spec fn version_sorted_desc(s: Seq<InfInfoView>) -> bool {
    forall|i: int, j: int|
        0 <= i < j < s.len() ==> version_le((#[trigger] s[j]).version, (#[trigger] s[i]).version)
}

/// Inserting into a descending list keeps it descending, when every version
/// involved is well formed.
proof fn lemma_insert_sorted(sorted: Seq<InfInfoView>, x: InfInfoView)
    requires
        all_versions_valid(sorted),
        is_valid_version(x.version),
        version_sorted_desc(sorted),
    ensures
        version_sorted_desc(spec_insert_candidate(sorted, x)),
        all_versions_valid(spec_insert_candidate(sorted, x)),
    decreases sorted.len(),
{
    broadcast use group_to_multiset_ensures;

    if sorted.len() == 0 {
    } else if candidate_order(sorted.last(), x) == Ordering::Greater {
        let last = sorted.last();
        let head = sorted.drop_last();
        assert forall|i: int, j: int| 0 <= i < j < head.len() implies version_le(
            (#[trigger] head[j]).version,
            (#[trigger] head[i]).version,
        ) by {
            assert(head[j] == sorted[j] && head[i] == sorted[i]);
        }
        assert forall|i: int| 0 <= i < head.len() implies is_valid_version(
            (#[trigger] head[i]).version,
        ) by {
            assert(head[i] == sorted[i]);
        }
        lemma_insert_sorted(head, x);
        let ins = spec_insert_candidate(head, x);
        let res = ins.push(last);
        // the moved-out last element is at most everything in the new list
        assert(is_valid_version(sorted[sorted.len() - 1].version));
        crate::version::lemma_version_antisym(last.version, x.version);
        assert(version_le(last.version, x.version));
        lemma_insert_multiset(head, x);
        assert forall|i: int| 0 <= i < ins.len() implies version_le(
            last.version,
            (#[trigger] ins[i]).version,
        ) by {
            assert(ins.contains(ins[i]));
            if ins[i] == x {
            } else {
                assert(head.to_multiset().insert(x).count(ins[i]) > 0);
                if head.to_multiset().count(ins[i]) == 0 {
                    assert(ins[i] == x);
                }
                assert(head.contains(ins[i]));
                let w = choose|w: int| 0 <= w < head.len() && head[w] == ins[i];
                // last is the minimum of the sorted input
                assert(version_le(sorted[sorted.len() - 1].version, sorted[w].version));
            }
        }
        assert forall|i: int, j: int| 0 <= i < j < res.len() implies version_le(
            (#[trigger] res[j]).version,
            (#[trigger] res[i]).version,
        ) by {
            if j < ins.len() {
                assert(res[j] == ins[j] && res[i] == ins[i]);
            } else {
                assert(res[j] == last && res[i] == ins[i]);
            }
        }
        assert(version_sorted_desc(spec_insert_candidate(sorted, x)));
        assert forall|i: int| 0 <= i < res.len() implies is_valid_version(
            (#[trigger] res[i]).version,
        ) by {
            if i < ins.len() {
                assert(res[i] == ins[i]);
            } else {
                assert(res[i] == last);
            }
        }
    } else {
        let last = sorted.last();
        let res = sorted.push(x);
        assert(is_valid_version(sorted[sorted.len() - 1].version));
        crate::version::lemma_version_total(x.version, last.version);
        assert(version_le(x.version, last.version)) by {
            crate::version::lemma_version_antisym(last.version, x.version);
        }
        assert forall|i: int, j: int| 0 <= i < j < res.len() implies version_le(
            (#[trigger] res[j]).version,
            (#[trigger] res[i]).version,
        ) by {
            if j < sorted.len() {
                assert(res[j] == sorted[j] && res[i] == sorted[i]);
            } else {
                assert(res[j] == x && res[i] == sorted[i]);
                assert(is_valid_version(sorted[i].version));
                if i < sorted.len() - 1 {
                    assert(version_le(sorted[sorted.len() - 1].version, sorted[i].version));
                } else {
                    crate::version::lemma_version_refl(last.version);
                }
                crate::version::lemma_version_trans(
                    x.version,
                    last.version,
                    sorted[i].version,
                );
            }
        }
    }
}

/// Version tie-break: sorting a group whose versions are all well formed
/// puts higher versions first; for any two positions the later one's
/// version is at most the earlier one's.
pub proof fn lemma_sort_version_descending(s: Seq<InfInfoView>)
    requires
        all_versions_valid(s),
    ensures
        version_sorted_desc(spec_sort_candidates(s)),
        all_versions_valid(spec_sort_candidates(s)),
    decreases s.len(),
{
    if s.len() > 0 {
        let head = s.drop_last();
        assert forall|i: int| 0 <= i < head.len() implies is_valid_version(
            (#[trigger] head[i]).version,
        ) by {
            assert(head[i] == s[i]);
        }
        lemma_sort_version_descending(head);
        lemma_insert_sorted(spec_sort_candidates(head), s.last());
    }
}

/// The version tie-break at the matcher's own groups: when every match a
/// given ID draws from the index carries a well-formed version, that ID's
/// candidate group is ordered by descending version.
pub proof fn lemma_group_version_order(
    index: Seq<InfInfoView>,
    arch_tag: Seq<char>,
    class_filter: Option<Seq<char>>,
    id: Seq<char>,
)
    requires
        all_versions_valid(matches_for_id(index, arch_tag, class_filter, id)),
    ensures
        version_sorted_desc(sorted_matches_for_id(index, arch_tag, class_filter, id)),
{
    lemma_sort_version_descending(matches_for_id(index, arch_tag, class_filter, id));
}

} // verus!
