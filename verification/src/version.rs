//! Driver version strings: dot-separated numeric components, compared
//! component-wise, with missing trailing components reading as zero.

use crate::text::spec_split;
use crate::text::split_vec;
use std::cmp::Ordering;
use vstd::prelude::*;

verus! {

pub open spec fn is_digit_char(c: char) -> bool {
    '0' <= c && c <= '9'
}

pub open spec fn digit_val(c: char) -> nat {
    (c as u32 - '0' as u32) as nat
}

/// The number denoted by a sequence of decimal digits, most significant
/// first.
pub open spec fn digits_val(s: Seq<char>) -> nat
    decreases s.len(),
{
    if s.len() == 0 {
        0
    } else {
        digits_val(s.drop_last()) * 10 + digit_val(s.last())
    }
}

/// The digits of a component after the optional leading plus sign that
/// `u32::from_str` accepts.
pub open spec fn digits_body(s: Seq<char>) -> Seq<char> {
    if s.len() > 0 && s[0] == '+' {
        s.drop_first()
    } else {
        s
    }
}

/// The component parses as a `u32`: nonempty digits after an optional plus
/// sign, with a value in range.
pub open spec fn is_numeric_component(s: Seq<char>) -> bool {
    let d = digits_body(s);
    d.len() > 0 && (forall|i: int| 0 <= i < d.len() ==> is_digit_char(d[i])) && digits_val(d)
        <= u32::MAX
}

pub open spec fn component_val(s: Seq<char>) -> nat {
    digits_val(digits_body(s))
}

/// A whole version string is well formed when every dot-separated component
/// is numeric.
pub open spec fn is_valid_version(s: Seq<char>) -> bool {
    forall|i: int|
        0 <= i < spec_split(s, '.').len() ==> is_numeric_component(#[trigger] spec_split(s, '.')[i])
}

/// Growing a digit string can only grow its value.
proof fn lemma_digits_val_mono(s: Seq<char>, i: int)
    requires
        0 <= i <= s.len(),
    ensures
        digits_val(s.take(i)) <= digits_val(s),
    decreases s.len() - i,
{
    if i < s.len() {
        assert(s.take(i + 1).drop_last() =~= s.take(i));
        assert(digits_val(s.take(i + 1)) == digits_val(s.take(i)) * 10 + digit_val(s[i]));
        lemma_digits_val_mono(s, i + 1);
        assert(s.take(s.len() as int) =~= s);
    } else {
        assert(s.take(i) =~= s);
    }
}

/// Parses the decimal value of a component, as `str::parse::<u32>` does:
/// `Some` exactly on numeric components, with the denoted value.
pub fn parse_component(v: &[char]) -> (r: Option<u32>)
    ensures
        match r {
            Some(n) => is_numeric_component(v@) && n == component_val(v@),
            None => !is_numeric_component(v@),
        },
{
    let n: usize = v.len();
    let mut start: usize = 0;
    if n > 0 && v[0] == '+' {
        start = 1;
    }
    let ghost d = digits_body(v@);
    proof {
        assert(d =~= v@.skip(start as int));
    }
    if start == n {
        // empty digit part
        return None;
    }
    let mut acc: u32 = 0;
    let mut i: usize = start;
    while i < n
        invariant
            start <= i <= n,
            n == v@.len(),
            start < n,
            d == digits_body(v@),
            d == v@.skip(start as int),
            acc == digits_val(d.take(i - start)),
            forall|k: int| 0 <= k < i - start ==> is_digit_char(d[k]),
        decreases n - i,
    {
        let c = v[i];
        if !('0' <= c && c <= '9') {
            proof {
                assert(d[i - start] == c);
                assert(!is_digit_char(d[i - start]));
                assert(!is_numeric_component(v@));
            }
            return None;
        }
        let dv: u32 = (c as u32) - ('0' as u32);
        proof {
            assert(d.take(i - start + 1).drop_last() =~= d.take(i - start));
            assert(d.take(i - start + 1).last() == d[i - start]);
        }
        if acc > (u32::MAX - dv) / 10 {
            // the value no longer fits in a u32
            proof {
                assert(digits_val(d.take(i - start + 1)) == acc * 10 + dv);
                assert(acc * 10 + dv > u32::MAX) by (nonlinear_arith)
                    requires
                        acc > (u32::MAX - dv) / 10,
                        dv <= 9,
                ;
                lemma_digits_val_mono(d, i - start + 1);
            }
            return None;
        }
        proof {
            assert(acc * 10 + dv <= u32::MAX) by (nonlinear_arith)
                requires
                    acc <= (u32::MAX - dv) / 10,
                    dv <= 9,
            ;
        }
        acc = acc * 10 + dv;
        i += 1;
    }
    proof {
        assert(d.take(n - start) =~= d);
    }
    Some(acc)
}

/// Component-wise numeric comparison of two split version strings from
/// position `i` on; `None` as soon as a reached component is malformed.
pub open spec fn spec_cmp_components(a: Seq<Seq<char>>, b: Seq<Seq<char>>, i: int) -> Option<
    Ordering,
>
    decreases (if a.len() > b.len() {
        a.len()
    } else {
        b.len()
    }) - i,
    when 0 <= i
{
    if i >= a.len() && i >= b.len() {
        Some(Ordering::Equal)
    } else if i < a.len() && !is_numeric_component(a[i]) {
        None
    } else if i < b.len() && !is_numeric_component(b[i]) {
        None
    } else {
        let va: nat = if i < a.len() {
            component_val(a[i])
        } else {
            0
        };
        let vb: nat = if i < b.len() {
            component_val(b[i])
        } else {
            0
        };
        if va < vb {
            Some(Ordering::Less)
        } else if va > vb {
            Some(Ordering::Greater)
        } else {
            spec_cmp_components(a, b, i + 1)
        }
    }
}

/// What `compareVersion` returns: component-wise numeric comparison of the
/// two dot-split version strings, `None` when a component that the scan
/// reaches does not parse as a number.
pub open spec fn spec_compare_version(a: Seq<char>, b: Seq<char>) -> Option<Ordering> {
    spec_cmp_components(spec_split(a, '.'), spec_split(b, '.'), 0)
}

#[derive(Clone, Copy, Debug, PartialEq, Eq, Structural)]
pub struct VersionError;

/// Compares two version strings component by component, numerically; missing
/// trailing components read as zero, and a malformed component that the scan
/// reaches makes the pair incomparable.
#[allow(non_snake_case)]
pub fn compareVersion(version1: &str, version2: &str) -> (r: Result<Ordering, VersionError>)
    ensures
        match r {
            Ok(o) => spec_compare_version(version1@, version2@) == Some(o),
            Err(_) => spec_compare_version(version1@, version2@) is None,
        },
{
    let v1 = crate::text::chars_vec(version1);
    let v2 = crate::text::chars_vec(version2);
    let comps1 = split_vec(v1.as_slice(), '.');
    let comps2 = split_vec(v2.as_slice(), '.');
    let ghost av = spec_split(version1@, '.');
    let ghost bv = spec_split(version2@, '.');
    let n1: usize = comps1.len();
    let n2: usize = comps2.len();
    let max: usize = if n1 > n2 {
        n1
    } else {
        n2
    };
    let mut i: usize = 0;
    while i < max
        invariant
            av == spec_split(version1@, '.'),
            bv == spec_split(version2@, '.'),
            comps1.deep_view() == av,
            comps2.deep_view() == bv,
            n1 == av.len(),
            n2 == bv.len(),
            max == (if av.len() > bv.len() {
                av.len()
            } else {
                bv.len()
            }),
            i <= max,
            spec_cmp_components(av, bv, 0) == spec_cmp_components(av, bv, i as int),
        decreases max - i,
    {
        let va: u32 = if i < n1 {
            proof {
                assert(comps1.deep_view()[i as int] == comps1@[i as int]@);
            }
            match parse_component(comps1[i].as_slice()) {
                Some(x) => x,
                None => {
                    proof {
                        assert(!is_numeric_component(av[i as int]));
                        assert(spec_cmp_components(av, bv, i as int) is None);
                    }
                    return Err(VersionError);
                },
            }
        } else {
            0
        };
        let vb: u32 = if i < n2 {
            proof {
                assert(comps2.deep_view()[i as int] == comps2@[i as int]@);
            }
            match parse_component(comps2[i].as_slice()) {
                Some(x) => x,
                None => {
                    proof {
                        assert(!is_numeric_component(bv[i as int]));
                        assert(spec_cmp_components(av, bv, i as int) is None);
                    }
                    return Err(VersionError);
                },
            }
        } else {
            0
        };
        if va < vb {
            return Ok(Ordering::Less);
        }
        if va > vb {
            return Ok(Ordering::Greater);
        }
        i += 1;
    }
    Ok(Ordering::Equal)
}

/// The numeric value of component `i`, with missing components reading as
/// zero.
pub open spec fn padded_val(v: Seq<Seq<char>>, i: int) -> nat {
    if 0 <= i < v.len() {
        component_val(v[i])
    } else {
        0
    }
}

/// The components of a version string.
pub open spec fn version_comps(s: Seq<char>) -> Seq<Seq<char>> {
    spec_split(s, '.')
}

/// Component-wise comparison of well-formed splits is total, and agrees with
/// the numeric values of the components: equality means every padded
/// component value matches, and strict order means some position decides
/// while all earlier ones match.
pub proof fn lemma_cmp_components_numeric(a: Seq<Seq<char>>, b: Seq<Seq<char>>, i: int)
    requires
        0 <= i,
        forall|k: int| 0 <= k < a.len() ==> is_numeric_component(#[trigger] a[k]),
        forall|k: int| 0 <= k < b.len() ==> is_numeric_component(#[trigger] b[k]),
    ensures
        spec_cmp_components(a, b, i) is Some,
        (spec_cmp_components(a, b, i) == Some(Ordering::Equal) <==> (forall|k: int|
            i <= k ==> padded_val(a, k) == padded_val(b, k))),
        (spec_cmp_components(a, b, i) == Some(Ordering::Less) <==> (exists|k: int|
            i <= k && padded_val(a, k) < padded_val(b, k) && (forall|m: int|
                i <= m < k ==> padded_val(a, m) == padded_val(b, m)))),
        (spec_cmp_components(a, b, i) == Some(Ordering::Greater) <==> (exists|k: int|
            i <= k && padded_val(a, k) > padded_val(b, k) && (forall|m: int|
                i <= m < k ==> padded_val(a, m) == padded_val(b, m)))),
    decreases (if a.len() > b.len() {
        a.len()
    } else {
        b.len()
    }) - i,
{
    if i >= a.len() && i >= b.len() {
        assert forall|k: int| i <= k implies padded_val(a, k) == padded_val(b, k) by {}
        if exists|k: int|
            i <= k && padded_val(a, k) < padded_val(b, k) && (forall|m: int|
                i <= m < k ==> padded_val(a, m) == padded_val(b, m)) {
            let k = choose|k: int|
                i <= k && padded_val(a, k) < padded_val(b, k) && (forall|m: int|
                    i <= m < k ==> padded_val(a, m) == padded_val(b, m));
            assert(padded_val(b, k) == 0);
            assert(false);
        }
        if exists|k: int|
            i <= k && padded_val(a, k) > padded_val(b, k) && (forall|m: int|
                i <= m < k ==> padded_val(a, m) == padded_val(b, m)) {
            let k = choose|k: int|
                i <= k && padded_val(a, k) > padded_val(b, k) && (forall|m: int|
                    i <= m < k ==> padded_val(a, m) == padded_val(b, m));
            assert(padded_val(a, k) == 0);
            assert(false);
        }
    } else {
        let va = padded_val(a, i);
        let vb = padded_val(b, i);
        if va < vb {
            assert(spec_cmp_components(a, b, i) == Some(Ordering::Less));
            assert(i <= i && padded_val(a, i) < padded_val(b, i) && (forall|m: int|
                i <= m < i ==> padded_val(a, m) == padded_val(b, m)));
        } else if va > vb {
            assert(spec_cmp_components(a, b, i) == Some(Ordering::Greater));
            assert(i <= i && padded_val(a, i) > padded_val(b, i) && (forall|m: int|
                i <= m < i ==> padded_val(a, m) == padded_val(b, m)));
        } else {
            lemma_cmp_components_numeric(a, b, i + 1);
            assert(spec_cmp_components(a, b, i) == spec_cmp_components(a, b, i + 1));
            if spec_cmp_components(a, b, i + 1) == Some::<Ordering>(Ordering::Equal) {
                assert forall|k: int| i <= k implies padded_val(a, k) == padded_val(b, k) by {
                    if k > i {
                        assert(i + 1 <= k);
                    }
                }
            }
            if spec_cmp_components(a, b, i + 1) == Some::<Ordering>(Ordering::Less) {
                let k = choose|k: int|
                    i + 1 <= k && padded_val(a, k) < padded_val(b, k) && (forall|m: int|
                        i + 1 <= m < k ==> padded_val(a, m) == padded_val(b, m));
                assert(i <= k && padded_val(a, k) < padded_val(b, k) && (forall|m: int|
                    i <= m < k ==> padded_val(a, m) == padded_val(b, m)));
            }
            if spec_cmp_components(a, b, i + 1) == Some::<Ordering>(Ordering::Greater) {
                let k = choose|k: int|
                    i + 1 <= k && padded_val(a, k) > padded_val(b, k) && (forall|m: int|
                        i + 1 <= m < k ==> padded_val(a, m) == padded_val(b, m));
                assert(i <= k && padded_val(a, k) > padded_val(b, k) && (forall|m: int|
                    i <= m < k ==> padded_val(a, m) == padded_val(b, m)));
            }
            if exists|k: int|
                i <= k && padded_val(a, k) < padded_val(b, k) && (forall|m: int|
                    i <= m < k ==> padded_val(a, m) == padded_val(b, m)) {
                let k = choose|k: int|
                    i <= k && padded_val(a, k) < padded_val(b, k) && (forall|m: int|
                        i <= m < k ==> padded_val(a, m) == padded_val(b, m));
                assert(k != i);
                assert(i + 1 <= k && padded_val(a, k) < padded_val(b, k) && (forall|m: int|
                    i + 1 <= m < k ==> padded_val(a, m) == padded_val(b, m)));
            }
            if exists|k: int|
                i <= k && padded_val(a, k) > padded_val(b, k) && (forall|m: int|
                    i <= m < k ==> padded_val(a, m) == padded_val(b, m)) {
                let k = choose|k: int|
                    i <= k && padded_val(a, k) > padded_val(b, k) && (forall|m: int|
                        i <= m < k ==> padded_val(a, m) == padded_val(b, m));
                assert(k != i);
                assert(i + 1 <= k && padded_val(a, k) > padded_val(b, k) && (forall|m: int|
                    i + 1 <= m < k ==> padded_val(a, m) == padded_val(b, m)));
            }
        }
    }
}

/// Version comparison agrees with numeric component comparison: on
/// well-formed versions it always answers, equality means every padded
/// component value matches, and "less" means the first differing padded
/// component is smaller.
pub proof fn lemma_version_compare_numeric(a: Seq<char>, b: Seq<char>)
    requires
        is_valid_version(a),
        is_valid_version(b),
    ensures
        spec_compare_version(a, b) is Some,
        (spec_compare_version(a, b) == Some(Ordering::Equal) <==> (forall|k: int|
            0 <= k ==> padded_val(version_comps(a), k) == padded_val(version_comps(b), k))),
        (spec_compare_version(a, b) == Some(Ordering::Less) <==> (exists|k: int|
            0 <= k && padded_val(version_comps(a), k) < padded_val(version_comps(b), k) && (
            forall|m: int|
                0 <= m < k ==> padded_val(version_comps(a), m) == padded_val(
                    version_comps(b),
                    m,
                )))),
        (spec_compare_version(a, b) == Some(Ordering::Greater) <==> (exists|k: int|
            0 <= k && padded_val(version_comps(a), k) > padded_val(version_comps(b), k) && (
            forall|m: int|
                0 <= m < k ==> padded_val(version_comps(a), m) == padded_val(
                    version_comps(b),
                    m,
                )))),
{
    lemma_cmp_components_numeric(version_comps(a), version_comps(b), 0);
}

/// Comparing a well-formed version with itself gives `Equal`.
pub proof fn lemma_version_refl(a: Seq<char>)
    requires
        is_valid_version(a),
    ensures
        spec_compare_version(a, a) == Some(Ordering::Equal),
{
    lemma_version_compare_numeric(a, a);
}

/// On well-formed versions the comparison always answers.
pub proof fn lemma_version_total(a: Seq<char>, b: Seq<char>)
    requires
        is_valid_version(a),
        is_valid_version(b),
    ensures
        spec_compare_version(a, b) is Some,
{
    lemma_version_compare_numeric(a, b);
}

/// Swapping the arguments swaps `Less` and `Greater` and keeps `Equal`.
pub proof fn lemma_version_antisym(a: Seq<char>, b: Seq<char>)
    requires
        is_valid_version(a),
        is_valid_version(b),
    ensures
        (spec_compare_version(a, b) == Some(Ordering::Less) <==> spec_compare_version(b, a)
            == Some(Ordering::Greater)),
        (spec_compare_version(a, b) == Some(Ordering::Equal) <==> spec_compare_version(b, a)
            == Some(Ordering::Equal)),
{
    lemma_version_compare_numeric(a, b);
    lemma_version_compare_numeric(b, a);
}

/// A well-formed version is at most another: it compares `Less` or `Equal`.
pub open spec fn version_le(a: Seq<char>, b: Seq<char>) -> bool {
    spec_compare_version(a, b) == Some(Ordering::Less) || spec_compare_version(a, b) == Some(
        Ordering::Equal,
    )
}

/// `version_le` is transitive on well-formed versions, which together with
/// reflexivity and totality makes version comparison a total preorder.
pub proof fn lemma_version_trans(a: Seq<char>, b: Seq<char>, c: Seq<char>)
    requires
        is_valid_version(a),
        is_valid_version(b),
        is_valid_version(c),
        version_le(a, b),
        version_le(b, c),
    ensures
        version_le(a, c),
{
    lemma_version_compare_numeric(a, b);
    lemma_version_compare_numeric(b, c);
    lemma_version_compare_numeric(a, c);
    let av = version_comps(a);
    let bv = version_comps(b);
    let cv = version_comps(c);
    if spec_compare_version(a, b) == Some::<Ordering>(Ordering::Equal) {
        if spec_compare_version(b, c) == Some::<Ordering>(Ordering::Equal) {
            assert(forall|k: int| 0 <= k ==> padded_val(av, k) == padded_val(cv, k));
        } else {
            let k = choose|k: int|
                0 <= k && padded_val(bv, k) < padded_val(cv, k) && (forall|m: int|
                    0 <= m < k ==> padded_val(bv, m) == padded_val(cv, m));
            assert(0 <= k && padded_val(av, k) < padded_val(cv, k) && (forall|m: int|
                0 <= m < k ==> padded_val(av, m) == padded_val(cv, m)));
        }
    } else {
        let k1 = choose|k: int|
            0 <= k && padded_val(av, k) < padded_val(bv, k) && (forall|m: int|
                0 <= m < k ==> padded_val(av, m) == padded_val(bv, m));
        if spec_compare_version(b, c) == Some::<Ordering>(Ordering::Equal) {
            assert(0 <= k1 && padded_val(av, k1) < padded_val(cv, k1) && (forall|m: int|
                0 <= m < k1 ==> padded_val(av, m) == padded_val(cv, m)));
        } else {
            let k2 = choose|k: int|
                0 <= k && padded_val(bv, k) < padded_val(cv, k) && (forall|m: int|
                    0 <= m < k ==> padded_val(bv, m) == padded_val(cv, m));
            let k = if k1 < k2 {
                k1
            } else {
                k2
            };
            assert(padded_val(av, k) < padded_val(cv, k));
            assert(forall|m: int| 0 <= m < k ==> padded_val(av, m) == padded_val(cv, m));
            assert(0 <= k && padded_val(av, k) < padded_val(cv, k) && (forall|m: int|
                0 <= m < k ==> padded_val(av, m) == padded_val(cv, m)));
        }
    }
}

} // verus!
