//! Small utilities around the indexer: `%VAR%` extraction, archive-extension
//! tests, temporary names, UTF-16 buffers and PE machine codes.

use crate::text::chars_vec;
use crate::text::lower_seq;
use crate::text::lower_vec;
use crate::text::spec_split;
use crate::text::split_vec;
use crate::text::string_from_chars;
use vstd::prelude::*;
use vstd::string::StringExecFns;

verus! {

pub open spec fn is_ascii_alnum(c: char) -> bool {
    ('0' <= c && c <= '9') || ('a' <= c && c <= 'z') || ('A' <= c && c <= 'Z')
}

pub fn is_ascii_alnum_x(c: char) -> (r: bool)
    ensures
        r == is_ascii_alnum(c),
{
    ('0' <= c && c <= '9') || ('a' <= c && c <= 'z') || ('A' <= c && c <= 'Z')
}

/// A legal `%VAR%` variable name: nonempty, ASCII alphanumerics and
/// underscores only.
pub open spec fn is_valid_var(p: Seq<char>) -> bool {
    p.len() > 0 && forall|i: int| 0 <= i < p.len() ==> is_ascii_alnum(#[trigger] p[i]) || p[i]
        == '_'
}

/// The variable names among the percent-split parts of a string, scanning
/// from part `i` on: the parts at odd positions lie between two percent
/// signs, and only legal names count.
pub open spec fn vars_from_parts(parts: Seq<Seq<char>>, i: int) -> Seq<Seq<char>>
    decreases parts.len() - i,
    when 0 <= i
{
    if i >= parts.len() {
        Seq::<Seq<char>>::empty()
    } else {
        let rest = vars_from_parts(parts, i + 1);
        if i % 2 == 1 && is_valid_var(parts[i]) {
            seq![parts[i]] + rest
        } else {
            rest
        }
    }
}

/// The `%VAR%` variable names occurring in `s`, in order.
pub open spec fn spec_extract_vars(s: Seq<char>) -> Seq<Seq<char>> {
    vars_from_parts(spec_split(s, '%'), 0)
}

fn is_valid_var_x(p: &[char]) -> (r: bool)
    ensures
        r == is_valid_var(p@),
{
    if p.len() == 0 {
        return false;
    }
    let mut i: usize = 0;
    while i < p.len()
        invariant
            i <= p@.len(),
            forall|j: int| 0 <= j < i ==> is_ascii_alnum(#[trigger] p@[j]) || p@[j] == '_',
        decreases p@.len() - i,
    {
        let c = p[i];
        if !is_ascii_alnum_x(c) && c != '_' {
            return false;
        }
        i += 1;
    }
    true
}

/// Extracts every `%VAR%` variable name from `s`, in order of occurrence.
pub fn extract_vars(s: &str) -> (r: Vec<String>)
    ensures
        r.deep_view() == spec_extract_vars(s@),
{
    let sv = chars_vec(s);
    let raw = extract_vars_vec(sv.as_slice());
    let mut r: Vec<String> = Vec::new();
    let mut i: usize = 0;
    while i < raw.len()
        invariant
            raw.deep_view() == spec_extract_vars(s@),
            i <= raw@.len(),
            r.deep_view() == raw.deep_view().take(i as int),
        decreases raw@.len() - i,
    {
        let ghost prev = r.deep_view();
        r.push(string_from_chars(raw[i].as_slice()));
        proof {
            assert(raw.deep_view()[i as int] == raw@[i as int]@);
            assert(r.deep_view() =~~= prev.push(raw.deep_view()[i as int]));
            assert(r.deep_view() =~~= raw.deep_view().take(i + 1));
        }
        i += 1;
    }
    proof {
        assert(raw.deep_view().take(raw@.len() as int) =~= raw.deep_view());
    }
    r
}

/// Extracts every `%VAR%` variable name from the characters of `s`.
pub fn extract_vars_vec(s: &[char]) -> (r: Vec<Vec<char>>)
    ensures
        r.deep_view() == spec_extract_vars(s@),
{
    let parts = split_vec(s, '%');
    let ghost pdv = parts.deep_view();
    let mut r: Vec<Vec<char>> = Vec::new();
    let n: usize = parts.len();
    let mut i: usize = 0;
    while i < n
        invariant
            pdv == spec_split(s@, '%'),
            parts.deep_view() == pdv,
            n == pdv.len(),
            i <= n,
            r.deep_view() + vars_from_parts(pdv, i as int) == vars_from_parts(pdv, 0),
        decreases n - i,
    {
        proof {
            assert(parts.deep_view()[i as int] == parts@[i as int]@);
        }
        if i % 2 == 1 && is_valid_var_x(parts[i].as_slice()) {
            let ghost prev = r.deep_view();
            let part = crate::text::sub_vec(parts[i].as_slice(), 0, parts[i].len());
            proof {
                assert(part@ =~= pdv[i as int]);
            }
            r.push(part);
            proof {
                assert(r.deep_view() =~~= prev.push(pdv[i as int]));
                assert(prev.push(pdv[i as int]) + vars_from_parts(pdv, i + 1) =~= prev + (seq![
                    pdv[i as int],
                ] + vars_from_parts(pdv, i + 1)));
            }
        }
        i += 1;
    }
    proof {
        assert(r.deep_view() =~~= vars_from_parts(pdv, 0));
    }
    r
}

/// Index one past the last path separator in `p`, or 0 when `p` has none.
pub open spec fn last_sep_end(p: Seq<char>) -> int
    decreases p.len(),
{
    if p.len() == 0 {
        0
    } else if p.last() == '/' || p.last() == '\\' {
        p.len() as int
    } else {
        last_sep_end(p.drop_last())
    }
}

/// The file-name part of a path: everything after the last separator.
pub open spec fn spec_file_name(p: Seq<char>) -> Seq<char> {
    p.skip(last_sep_end(p))
}

/// Index of the last dot in a file name, or -1.
pub open spec fn last_dot(f: Seq<char>) -> int
    decreases f.len(),
{
    if f.len() == 0 {
        -1
    } else if f.last() == '.' {
        f.len() - 1
    } else {
        last_dot(f.drop_last())
    }
}

/// The extension of a path, as `Path::extension` sees it: the file name
/// after its last dot, absent when there is no dot or when the only dot
/// starts the name.
pub open spec fn spec_extension(p: Seq<char>) -> Option<Seq<char>> {
    let f = spec_file_name(p);
    let d = last_dot(f);
    if d <= 0 {
        None
    } else {
        Some(f.skip(d + 1))
    }
}

/// The extension of the path, lower-cased, when the path has one.
pub fn extension_of(path: &str) -> (r: Option<Vec<char>>)
    ensures
        match r {
            Some(e) => spec_extension(path@) is Some && e@ == spec_extension(path@)->0,
            None => spec_extension(path@) is None,
        },
{
    let pv = chars_vec(path);
    let n: usize = pv.len();
    let mut sep_end: usize = 0;
    let mut i: usize = 0;
    proof {
        assert(pv@.take(0) =~= Seq::<char>::empty());
    }
    while i < n
        invariant
            pv@ == path@,
            n == pv@.len(),
            i <= n,
            sep_end as int == last_sep_end(pv@.take(i as int)),
            sep_end <= i,
        decreases n - i,
    {
        proof {
            assert(pv@.take(i + 1).drop_last() =~= pv@.take(i as int));
        }
        let c = pv[i];
        if c == '/' || c == '\\' {
            sep_end = i + 1;
        }
        i += 1;
    }
    proof {
        assert(pv@.take(n as int) =~= pv@);
    }
    let ghost f = spec_file_name(path@);
    proof {
        assert(f =~= pv@.skip(sep_end as int));
    }
    // scan the file name for its last dot
    let mut dot: usize = 0;
    let mut found: bool = false;
    let mut j: usize = sep_end;
    proof {
        assert(f.take(0) =~= Seq::<char>::empty());
    }
    while j < n
        invariant
            pv@ == path@,
            n == pv@.len(),
            sep_end <= j <= n,
            f == pv@.skip(sep_end as int),
            f.len() == n - sep_end,
            forall|k: int| 0 <= k < j - sep_end ==> f[k] == pv@[sep_end + k],
            (if found {
                dot as int - sep_end as int
            } else {
                -1
            }) == last_dot(f.take(j - sep_end)),
            found ==> sep_end <= dot < j,
        decreases n - j,
    {
        proof {
            assert(f.take(j - sep_end + 1).drop_last() =~= f.take(j - sep_end));
            assert(f.take(j - sep_end + 1).last() == f[j - sep_end]);
            assert(f[j - sep_end] == pv@[j as int]);
        }
        let c = pv[j];
        if c == '.' {
            dot = j;
            found = true;
        }
        j += 1;
    }
    proof {
        assert(f.take(n - sep_end) =~= f);
    }
    if !found || dot == sep_end {
        return None;
    }
    proof {
        assert(last_dot(f) == dot - sep_end > 0);
        assert(f.skip(dot - sep_end + 1) =~= pv@.subrange(dot + 1, n as int));
    }
    Some(crate::text::sub_vec(pv.as_slice(), dot + 1, n))
}

/// Compares two character vectors for equality.
pub fn vec_eq_chars(a: &[char], b: &[char]) -> (r: bool)
    ensures
        r == (a@ == b@),
{
    if a.len() != b.len() {
        proof {
            assert(a@.len() != b@.len());
        }
        return false;
    }
    let mut i: usize = 0;
    while i < a.len()
        invariant
            a@.len() == b@.len(),
            i <= a@.len(),
            forall|j: int| 0 <= j < i ==> a@[j] == b@[j],
        decreases a@.len() - i,
    {
        if a[i] != b[i] {
            return false;
        }
        i += 1;
    }
    proof {
        assert(a@ =~= b@);
    }
    true
}

/// The archive extensions that the package container may carry.
pub open spec fn is_archive_extension(e: Seq<char>) -> bool {
    lower_seq(e) == "7z"@ || lower_seq(e) == "zip"@ || lower_seq(e) == "rar"@ || lower_seq(e)
        == "cab"@ || lower_seq(e) == "tar"@ || lower_seq(e) == "wim"@
}

/// Is the path a supported archive container, judged by its extension?
/// The path must have an extension.
#[allow(non_snake_case)]
pub fn isArchive(archivePath: &str) -> (r: bool)
    requires
        spec_extension(archivePath@) is Some,
    ensures
        r == is_archive_extension(spec_extension(archivePath@)->0),
{
    let ext = match extension_of(archivePath) {
        Some(e) => e,
        None => {
            proof {
                assert(false);
            }
            return false;
        },
    };
    let low = lower_vec(ext.as_slice());
    proof {
        reveal_strlit("7z");
        reveal_strlit("zip");
        reveal_strlit("rar");
        reveal_strlit("cab");
        reveal_strlit("tar");
        reveal_strlit("wim");
    }
    let c7z = chars_vec("7z");
    let czip = chars_vec("zip");
    let crar = chars_vec("rar");
    let ccab = chars_vec("cab");
    let ctar = chars_vec("tar");
    let cwim = chars_vec("wim");
    vec_eq_chars(low.as_slice(), c7z.as_slice()) || vec_eq_chars(low.as_slice(), czip.as_slice())
        || vec_eq_chars(low.as_slice(), crar.as_slice()) || vec_eq_chars(
        low.as_slice(),
        ccab.as_slice(),
    ) || vec_eq_chars(low.as_slice(), ctar.as_slice()) || vec_eq_chars(
        low.as_slice(),
        cwim.as_slice(),
    )
}

/// Relies on `fastrand::alphanumeric`: returns one of the characters
/// `A`..`Z`, `a`..`z`, `0`..`9`, chosen from the thread's generator.
#[verifier::external_body]
fn rand_alphanumeric() -> (c: char)
    ensures
        is_ascii_alnum(c),
{
    fastrand::alphanumeric()
}

/// A temporary file name: the prefix, `rand_len` random alphanumeric
/// characters, and the suffix.
#[allow(non_snake_case)]
pub fn getTmpName(prefix: &str, suffix: &str, rand_len: usize) -> (r: String)
    ensures
        r@.len() == prefix@.len() + rand_len + suffix@.len(),
        r@.take(prefix@.len() as int) == prefix@,
        r@.skip((prefix@.len() + rand_len) as int) == suffix@,
        forall|i: int|
            prefix@.len() <= i < prefix@.len() + rand_len ==> is_ascii_alnum(#[trigger] r@[i]),
{
    let mut r = String::new();
    r.append(prefix);
    let mut i: usize = 0;
    while i < rand_len
        invariant
            i <= rand_len,
            r@.len() == prefix@.len() + i,
            r@.take(prefix@.len() as int) == prefix@,
            forall|k: int|
                prefix@.len() <= k < prefix@.len() + i ==> is_ascii_alnum(#[trigger] r@[k]),
        decreases rand_len - i,
    {
        crate::text::push_char(&mut r, rand_alphanumeric());
        proof {
            assert(r@.take(prefix@.len() as int) =~= prefix@);
        }
        i += 1;
    }
    r.append(suffix);
    proof {
        assert(r@.take(prefix@.len() as int) =~= prefix@);
        assert(r@.skip((prefix@.len() + rand_len) as int) =~= suffix@);
    }
    r
}

/// The result of `String::from_utf16_lossy` on a sequence of UTF-16 code
/// units; it depends on the units alone.
pub uninterp spec fn utf16_lossy(units: Seq<u16>) -> Seq<char>;

/// Relies on `String::from_utf16_lossy`: decodes UTF-16, substituting the
/// replacement character for invalid data.
#[verifier::external_body]
fn from_utf16_lossy(units: &[u16]) -> (r: String)
    ensures
        r@ == utf16_lossy(units@),
{
    String::from_utf16_lossy(units)
}

/// The prefix of a UTF-16 buffer before its first NUL terminator, or the
/// whole buffer when none occurs.
pub open spec fn first_nul(s: Seq<u16>) -> int
    decreases s.len(),
{
    if s.len() == 0 {
        0
    } else if s[0] == 0 {
        0
    } else {
        1 + first_nul(s.drop_first())
    }
}

proof fn lemma_first_nul_at(s: Seq<u16>, i: int)
    requires
        0 <= i <= s.len(),
        forall|j: int| 0 <= j < i ==> s[j] != 0,
        i == s.len() || s[i] == 0,
    ensures
        first_nul(s) == i,
    decreases i,
{
    if s.len() == 0 {
    } else if i == 0 {
    } else {
        assert forall|j: int| 0 <= j < i - 1 implies s.drop_first()[j] != 0 by {
            assert(s.drop_first()[j] == s[j + 1]);
        }
        assert(i - 1 == s.drop_first().len() || s.drop_first()[i - 1] == 0);
        lemma_first_nul_at(s.drop_first(), i - 1);
    }
}

/// Decodes a NUL-terminated UTF-16 buffer: the code units before the first
/// NUL, decoded leniently.
pub fn utf16_array_to_string(buf: &[u16]) -> (r: String)
    ensures
        r@ == utf16_lossy(buf@.take(first_nul(buf@))),
{
    let n: usize = buf.len();
    let mut i: usize = 0;
    while i < n && buf[i] != 0
        invariant
            n == buf@.len(),
            i <= n,
            forall|j: int| 0 <= j < i ==> buf@[j] != 0,
        decreases n - i,
    {
        i += 1;
    }
    proof {
        lemma_first_nul_at(buf@, i as int);
    }
    let head = slice_u16_prefix(buf, i);
    from_utf16_lossy(head.as_slice())
}

/// The first `to` code units of the buffer.
fn slice_u16_prefix(s: &[u16], to: usize) -> (r: Vec<u16>)
    requires
        to <= s@.len(),
    ensures
        r@ == s@.take(to as int),
{
    let mut r: Vec<u16> = Vec::new();
    let mut i: usize = 0;
    while i < to
        invariant
            i <= to <= s@.len(),
            r@ == s@.take(i as int),
        decreases to - i,
    {
        r.push(s[i]);
        proof {
            assert(s@.take(i + 1) =~= s@.take(i as int).push(s@[i as int]));
        }
        i += 1;
    }
    r
}

/// The 16-bit little-endian value at offset `i`.
pub open spec fn le16_at(bytes: Seq<u8>, i: int) -> int {
    bytes[i] + 0x100 * bytes[i + 1]
}

/// The 32-bit little-endian value at offset `i`.
pub open spec fn le32_at(bytes: Seq<u8>, i: int) -> int {
    bytes[i] + 0x100 * bytes[i + 1] + 0x10000 * bytes[i + 2] + 0x1000000 * bytes[i + 3]
}

/// Where a portable-executable image keeps its COFF machine field: four
/// bytes past the header position named at offset 0x3C.
pub open spec fn pe_machine_offset(bytes: Seq<u8>) -> int {
    le32_at(bytes, 0x3C) + 4
}

/// Whether goblin accepts a byte sequence as a portable-executable image;
/// parsing is deterministic, so this depends on the bytes alone.
pub uninterp spec fn pe_parses(bytes: Seq<u8>) -> bool;

/// Relies on `goblin::pe::PE::parse`: parsing is deterministic in the
/// bytes, and on success the header's machine field is the little-endian
/// 16-bit value four bytes past the PE-header pointer that the DOS header
/// names at offset 0x3C, both read in bounds.
#[verifier::external_body]
fn parse_pe_machine(bytes: &[u8]) -> (r: Option<u16>)
    ensures
        r is Some <==> pe_parses(bytes@),
        r matches Some(m) ==> {
            &&& bytes@.len() >= 0x40
            &&& 0 <= pe_machine_offset(bytes@)
            &&& pe_machine_offset(bytes@) + 2 <= bytes@.len()
            &&& m as int == le16_at(bytes@, pe_machine_offset(bytes@))
        },
{
    match goblin::pe::PE::parse(bytes) {
        Ok(pe) => Some(pe.header.coff_header.machine),
        Err(_) => None,
    }
}

#[derive(Clone, Copy, Debug, PartialEq, Eq, Structural)]
pub struct ArchError;

/// The machine code of the system's kernel image, read from its bytes: the
/// COFF machine field of the image's portable-executable header. It
/// succeeds exactly when the bytes parse as a portable executable.
#[allow(non_snake_case)]
pub fn getArchCode(kernel_image: &[u8]) -> (r: Result<u16, ArchError>)
    ensures
        r is Ok <==> pe_parses(kernel_image@),
        r matches Ok(m) ==> {
            &&& 0 <= pe_machine_offset(kernel_image@)
            &&& pe_machine_offset(kernel_image@) + 2 <= kernel_image@.len()
            &&& m as int == le16_at(kernel_image@, pe_machine_offset(kernel_image@))
        },
{
    match parse_pe_machine(kernel_image) {
        Some(m) => Ok(m),
        None => Err(ArchError),
    }
}

/// The driver-store architecture code for a PE machine code: x86, x64 and
/// ARM64 machines map to the store's small integers, everything else is
/// unsupported.
pub open spec fn spec_arch_of_machine(m: u16) -> Option<u16> {
    if m == 0x014c {
        Some(0u16)
    } else if m == 0x8664 {
        Some(9u16)
    } else if m == 0xAA64 {
        Some(12u16)
    } else {
        None
    }
}

pub fn machine_to_arch(m: u16) -> (r: Option<u16>)
    ensures
        r == spec_arch_of_machine(m),
{
    if m == 0x014c {
        Some(0)
    } else if m == 0x8664 {
        Some(9)
    } else if m == 0xAA64 {
        Some(12)
    } else {
        None
    }
}

/// Whether a driver-store package passes the optional name and class
/// filters; both compare case-insensitively, as driver removal and export
/// apply them.
pub fn driver_matches_filter(
    inf_name: &str,
    class_name: &str,
    name_filter: &Option<String>,
    class_filter: &Option<String>,
) -> (r: bool)
    ensures
        r == ((match name_filter {
            Some(n) => crate::text::seq_eq_ci(inf_name@, n@),
            None => true,
        }) && (match class_filter {
            Some(c) => crate::text::seq_eq_ci(class_name@, c@),
            None => true,
        })),
{
    let name_ok = match name_filter {
        Some(n) => crate::text::str_eq_ci(inf_name, n.as_str()),
        None => true,
    };
    let class_ok = match class_filter {
        Some(c) => crate::text::str_eq_ci(class_name, c.as_str()),
        None => true,
    };
    name_ok && class_ok
}

/// The digit character for one decimal digit.
pub open spec fn digit_char_of(v: nat) -> char {
    if v == 0 {
        '0'
    } else if v == 1 {
        '1'
    } else if v == 2 {
        '2'
    } else if v == 3 {
        '3'
    } else if v == 4 {
        '4'
    } else if v == 5 {
        '5'
    } else if v == 6 {
        '6'
    } else if v == 7 {
        '7'
    } else if v == 8 {
        '8'
    } else {
        '9'
    }
}

/// The decimal digits of a number, most significant first, no leading
/// zeros.
pub open spec fn spec_decimal(v: nat) -> Seq<char>
    decreases v,
{
    if v < 10 {
        seq![digit_char_of(v)]
    } else {
        spec_decimal(v / 10) + seq![digit_char_of(v % 10)]
    }
}

fn digit_char_x(v: u64) -> (r: char)
    requires
        v < 10,
    ensures
        r == digit_char_of(v as nat),
{
    if v == 0 {
        '0'
    } else if v == 1 {
        '1'
    } else if v == 2 {
        '2'
    } else if v == 3 {
        '3'
    } else if v == 4 {
        '4'
    } else if v == 5 {
        '5'
    } else if v == 6 {
        '6'
    } else if v == 7 {
        '7'
    } else if v == 8 {
        '8'
    } else {
        '9'
    }
}

/// The decimal digits of a number.
pub fn decimal_digits(v: u64) -> (r: Vec<char>)
    ensures
        r@ == spec_decimal(v as nat),
    decreases v,
{
    if v < 10 {
        let mut r: Vec<char> = Vec::new();
        r.push(digit_char_x(v));
        proof {
            assert(r@ =~= spec_decimal(v as nat));
        }
        r
    } else {
        let mut r = decimal_digits(v / 10);
        r.push(digit_char_x(v % 10));
        proof {
            assert(r@ =~= spec_decimal(v as nat));
        }
        r
    }
}

/// The dotted form of a driver-store packed version: four 16-bit fields,
/// major to revision, most significant first.
pub open spec fn spec_packed_version(v: u64) -> Seq<char> {
    spec_decimal(((v >> 48) & 0xFFFF) as nat) + seq!['.'] + spec_decimal(
        ((v >> 32) & 0xFFFF) as nat,
    ) + seq!['.'] + spec_decimal(((v >> 16) & 0xFFFF) as nat) + seq!['.'] + spec_decimal(
        (v & 0xFFFF) as nat,
    )
}

/// Formats a packed 64-bit driver version as its four dotted components.
pub fn format_packed_version(v: u64) -> (r: String)
    ensures
        r@ == spec_packed_version(v),
{
    let mut out: Vec<char> = Vec::new();
    let major = decimal_digits((v >> 48) & 0xFFFF);
    let minor = decimal_digits((v >> 32) & 0xFFFF);
    let build = decimal_digits((v >> 16) & 0xFFFF);
    let revision = decimal_digits(v & 0xFFFF);
    crate::text::extend_vec(&mut out, major.as_slice());
    out.push('.');
    crate::text::extend_vec(&mut out, minor.as_slice());
    out.push('.');
    crate::text::extend_vec(&mut out, build.as_slice());
    out.push('.');
    crate::text::extend_vec(&mut out, revision.as_slice());
    proof {
        assert(out@ =~= spec_packed_version(v));
    }
    crate::text::string_from_chars(out.as_slice())
}

/// One imported driver package, as the driver store reports it: plain
/// values decoded from the store's fixed-size UTF-16 buffers.
pub struct DriverPackageInfo {
    /// Target processor architecture of the package.
    pub processor_architecture: u16,
    /// Locale this package was built for.
    pub locale_name: String,
    /// INF name the package was registered under.
    pub published_inf_name: String,
    /// Store flags.
    pub flags: u32,
}

impl DriverPackageInfo {
    /// Decodes the store's raw record: each text field is the UTF-16
    /// buffer's contents before its NUL terminator.
    pub fn from_raw_parts(
        processor_architecture: u16,
        locale_name: &[u16],
        published_inf_name: &[u16],
        flags: u32,
    ) -> (r: DriverPackageInfo)
        ensures
            r.processor_architecture == processor_architecture,
            r.locale_name@ == utf16_lossy(locale_name@.take(first_nul(locale_name@))),
            r.published_inf_name@ == utf16_lossy(
                published_inf_name@.take(first_nul(published_inf_name@)),
            ),
            r.flags == flags,
    {
        DriverPackageInfo {
            processor_architecture,
            locale_name: utf16_array_to_string(locale_name),
            published_inf_name: utf16_array_to_string(published_inf_name),
            flags,
        }
    }
}

/// Is a probed drive a driver CD: a CD-ROM drive on the USB bus, at most
/// 32 MiB large where the size is known, carrying an installer executable?
/// The caller probes the drive type, bus, size and directory listing; this
/// is the decision over those values.
#[allow(non_snake_case)]
pub fn isDriverCD(
    drive_type: u32,
    bus_type: Option<u32>,
    total_bytes: Option<u64>,
    has_installer_exe: bool,
) -> (r: bool)
    ensures
        r == (drive_type == 5 && bus_type == Some(7u32) && !(total_bytes matches Some(s) && s
            > 33554432) && has_installer_exe),
{
    if drive_type != 5 {
        return false;
    }
    let bus_ok = match bus_type {
        Some(b) => b == 7,
        None => false,
    };
    if !bus_ok {
        return false;
    }
    let too_large = match total_bytes {
        Some(s) => s > 32 * 1024 * 1024,
        None => false,
    };
    if too_large {
        return false;
    }
    has_installer_exe
}

/// Where a classified driver lands: the output root, the class description,
/// the trimmed provider name and the driver's directory name, joined with
/// the Windows separator.
pub fn classify_target_path(
    output_path: &str,
    class_description: &str,
    provider_name: &str,
    driver_name: &str,
) -> (r: String)
    ensures
        r@ == output_path@ + seq!['\\'] + class_description@ + seq!['\\'] + crate::text::spec_trim_ws(
            provider_name@,
        ) + seq!['\\'] + driver_name@,
{
    let mut out: Vec<char> = Vec::new();
    let op = chars_vec(output_path);
    let cd = chars_vec(class_description);
    let pv = chars_vec(provider_name);
    let pn = crate::text::trim_ws_vec(pv.as_slice());
    let dn = chars_vec(driver_name);
    crate::text::extend_vec(&mut out, op.as_slice());
    out.push('\\');
    crate::text::extend_vec(&mut out, cd.as_slice());
    out.push('\\');
    crate::text::extend_vec(&mut out, pn.as_slice());
    out.push('\\');
    crate::text::extend_vec(&mut out, dn.as_slice());
    proof {
        assert(out@ =~= output_path@ + seq!['\\'] + class_description@ + seq!['\\']
            + crate::text::spec_trim_ws(provider_name@) + seq!['\\'] + driver_name@);
    }
    string_from_chars(out.as_slice())
}

} // verus!

