//! The INF indexer: parses one decoded INF text into a structured entry
//! holding class, architectures, date, version and the hardware-ID list.
//!
//! The whole pass is modelled by spec functions over character sequences:
//! blanks are stripped from the text, each line loses its comment tail and
//! surrounding whitespace, and four independent extractions fold over the
//! lines.

use crate::text::find_idx;
use crate::text::spec_contains_sub;
use crate::text::spec_lines;
use crate::text::spec_replace;
use crate::text::spec_starts_with;
use crate::text::spec_strip_blanks;
use crate::text::spec_trim_quotes;
use crate::text::spec_trim_ws;
use crate::text::upper_seq;
use crate::text::find_sub;
use crate::text::lemma_find_idx_correct;
use crate::text::lemma_first_occurrence_unique;
use crate::text::occurs_at;
use crate::text::sub_vec;
use crate::util::is_ascii_alnum;
use crate::util::last_sep_end;
use crate::util::spec_file_name;
use vstd::prelude::*;

verus! {

/// The text between the first occurrence of `start` and the first occurrence
/// of `end` at or after it, as `String_utils::get_string_center` returns it.
pub open spec fn spec_center(s: Seq<char>, start: Seq<char>, end: Seq<char>) -> Option<Seq<char>> {
    let i = find_idx(s, start);
    if i < 0 {
        None
    } else {
        let j = find_idx(s.skip(i), end);
        if j < start.len() {
            None
        } else {
            Some(s.subrange(i + start.len() as int, i + j))
        }
    }
}

/// `Class=`
pub open spec fn class_marker() -> Seq<char> {
    seq!['C', 'l', 'a', 's', 's', '=']
}

/// `DriverVer=`
pub open spec fn driver_ver_marker() -> Seq<char> {
    seq!['D', 'r', 'i', 'v', 'e', 'r', 'V', 'e', 'r', '=']
}

/// The accumulator of the line fold: each directive keeps the value of the
/// first line that set it, architectures and hardware IDs accumulate as
/// ordered sets.
pub ghost struct InfFields {
    pub class: Seq<char>,
    pub class_set: bool,
    pub date: Seq<char>,
    pub version: Seq<char>,
    pub ver_set: bool,
    pub arch: Seq<Seq<char>>,
    pub ids: Seq<Seq<char>>,
}

pub open spec fn empty_fields() -> InfFields {
    InfFields {
        class: Seq::<char>::empty(),
        class_set: false,
        date: Seq::<char>::empty(),
        version: Seq::<char>::empty(),
        ver_set: false,
        arch: Seq::<Seq<char>>::empty(),
        ids: Seq::<Seq<char>>::empty(),
    }
}

/// A line with its inline comment removed: everything before the first
/// semicolon.
pub open spec fn cut_comment(l: Seq<char>) -> Seq<char> {
    let i = find_idx(l, seq![';']);
    if i < 0 {
        l
    } else {
        l.take(i)
    }
}

/// The effective text of a line: comment removed, whitespace trimmed.
pub open spec fn effective_line(l: Seq<char>) -> Seq<char> {
    spec_trim_ws(cut_comment(l))
}

/// A raw line is skipped when it is empty or opens with a semicolon.
pub open spec fn line_skipped(l: Seq<char>) -> bool {
    l.len() == 0 || l[0] == ';'
}

/// The class value a raw line contributes, if any.
pub open spec fn line_class_value(l: Seq<char>) -> Option<Seq<char>> {
    if line_skipped(l) {
        None
    } else {
        let line = effective_line(l);
        if spec_starts_with(line, class_marker()) {
            Some(line.skip(class_marker().len() as int))
        } else {
            None
        }
    }
}

pub open spec fn class_update(acc: InfFields, l: Seq<char>) -> InfFields {
    if acc.class_set {
        acc
    } else {
        match line_class_value(l) {
            Some(v) => InfFields { class: v, class_set: true, ..acc },
            None => acc,
        }
    }
}

/// One `%VAR%` expansion: the variable's assignment is looked up in the
/// whole text as `VAR=` up to a carriage-return line ending, its value loses
/// surrounding quotes, and every `%VAR%` in `s` is replaced by it.
pub open spec fn expand_one(content: Seq<char>, s: Seq<char>, var: Seq<char>) -> Seq<char> {
    match spec_center(content, var + seq!['='], seq!['\r', '\n']) {
        None => s,
        Some(v) => spec_replace(s, seq!['%'] + var + seq!['%'], spec_trim_quotes(v)),
    }
}

pub open spec fn expand_from(
    content: Seq<char>,
    s: Seq<char>,
    vars: Seq<Seq<char>>,
    i: int,
) -> Seq<char>
    decreases vars.len() - i,
    when 0 <= i
{
    if i >= vars.len() {
        s
    } else {
        expand_from(content, expand_one(content, s, vars[i]), vars, i + 1)
    }
}

/// `s` with every `%VAR%` placeholder expanded from assignments found in the
/// whole text.
pub open spec fn spec_expand_vars(content: Seq<char>, s: Seq<char>) -> Seq<char> {
    expand_from(content, s, crate::util::spec_extract_vars(s), 0)
}

/// The date and version a raw line contributes, if any: the text after
/// `DriverVer=`, expanded, split at its first comma.
pub open spec fn line_ver_value(content: Seq<char>, l: Seq<char>) -> Option<(Seq<char>, Seq<char>)> {
    if line_skipped(l) {
        None
    } else {
        let line = effective_line(l);
        if spec_starts_with(line, driver_ver_marker()) {
            let expanded = spec_expand_vars(content, line.skip(driver_ver_marker().len() as int));
            let ci = find_idx(expanded, seq![',']);
            if ci < 0 {
                Some((expanded, Seq::<char>::empty()))
            } else {
                Some((spec_trim_ws(expanded.take(ci)), spec_trim_ws(expanded.skip(ci + 1))))
            }
        } else {
            None
        }
    }
}

pub open spec fn ver_update(content: Seq<char>, acc: InfFields, l: Seq<char>) -> InfFields {
    if acc.ver_set {
        acc
    } else {
        match line_ver_value(content, l) {
            Some(dv) => InfFields { date: dv.0, version: dv.1, ver_set: true, ..acc },
            None => acc,
        }
    }
}

/// The five architecture tags an INF section name may carry, with the
/// upper-cased `.TAG` patterns looked for in a line.
pub open spec fn tag_x86() -> Seq<char> {
    seq!['N', 'T', 'x', '8', '6']
}

pub open spec fn pat_x86() -> Seq<char> {
    seq!['.', 'N', 'T', 'X', '8', '6']
}

pub open spec fn tag_ia64() -> Seq<char> {
    seq!['N', 'T', 'i', 'a', '6', '4']
}

pub open spec fn pat_ia64() -> Seq<char> {
    seq!['.', 'N', 'T', 'I', 'A', '6', '4']
}

pub open spec fn tag_amd64() -> Seq<char> {
    seq!['N', 'T', 'a', 'm', 'd', '6', '4']
}

pub open spec fn pat_amd64() -> Seq<char> {
    seq!['.', 'N', 'T', 'A', 'M', 'D', '6', '4']
}

pub open spec fn tag_arm() -> Seq<char> {
    seq!['N', 'T', 'a', 'r', 'm']
}

pub open spec fn pat_arm() -> Seq<char> {
    seq!['.', 'N', 'T', 'A', 'R', 'M']
}

pub open spec fn tag_arm64() -> Seq<char> {
    seq!['N', 'T', 'a', 'r', 'm', '6', '4']
}

pub open spec fn pat_arm64() -> Seq<char> {
    seq!['.', 'N', 'T', 'A', 'R', 'M', '6', '4']
}

/// Adds one architecture tag when the upper-cased line mentions its dotted
/// form and the tag is not recorded yet.
pub open spec fn arch_tag_update(
    arch: Seq<Seq<char>>,
    line_up: Seq<char>,
    pat: Seq<char>,
    tag: Seq<char>,
) -> Seq<Seq<char>> {
    if spec_contains_sub(line_up, pat) && !arch.contains(tag) {
        arch.push(tag)
    } else {
        arch
    }
}

pub open spec fn arch_update(acc: InfFields, l: Seq<char>) -> InfFields {
    if line_skipped(l) {
        acc
    } else {
        let lu = upper_seq(effective_line(l));
        let a1 = arch_tag_update(acc.arch, lu, pat_x86(), tag_x86());
        let a2 = arch_tag_update(a1, lu, pat_ia64(), tag_ia64());
        let a3 = arch_tag_update(a2, lu, pat_amd64(), tag_amd64());
        let a4 = arch_tag_update(a3, lu, pat_arm(), tag_arm());
        let a5 = arch_tag_update(a4, lu, pat_arm64(), tag_arm64());
        InfFields { arch: a5, ..acc }
    }
}

/// A character a hardware ID may contain.
pub open spec fn is_id_char(c: char) -> bool {
    is_ascii_alnum(c) || c == '\\' || c == '&' || c == '_' || c == '.' || c == '-' || c == '*'
}

/// A token is accepted as a hardware ID when it is not the bare backslash,
/// carries a backslash or opens with a star, and uses only ID characters.
pub open spec fn accepts_hw_id(tok: Seq<char>) -> bool {
    tok != seq!['\\'] && (tok.contains('\\') || (tok.len() > 0 && tok[0] == '*')) && (forall|
        i: int,
    |
        0 <= i < tok.len() ==> is_id_char(#[trigger] tok[i]))
}

/// Adds one candidate token: accepted tokens are upper-cased and recorded
/// once.
pub open spec fn add_id_token(ids: Seq<Seq<char>>, tok: Seq<char>) -> Seq<Seq<char>> {
    if accepts_hw_id(tok) {
        let up = upper_seq(tok);
        if ids.contains(up) {
            ids
        } else {
            ids.push(up)
        }
    } else {
        ids
    }
}

pub open spec fn add_id_tokens(ids: Seq<Seq<char>>, toks: Seq<Seq<char>>, i: int) -> Seq<Seq<char>>
    decreases toks.len() - i,
    when 0 <= i
{
    if i >= toks.len() {
        ids
    } else {
        add_id_tokens(add_id_token(ids, toks[i]), toks, i + 1)
    }
}

/// The hardware-ID candidates a raw line offers: the comma-separated tokens
/// after the first comma that follows the first equals sign.
pub open spec fn line_id_tokens(l: Seq<char>) -> Option<Seq<Seq<char>>> {
    if line_skipped(l) {
        None
    } else {
        let line = effective_line(l);
        let ei = find_idx(line, seq!['=']);
        if ei < 0 {
            None
        } else {
            let rel = find_idx(line.skip(ei), seq![',']);
            if rel < 0 {
                None
            } else {
                let potential = spec_trim_ws(line.skip(ei + rel + 1));
                Some(crate::text::spec_split(potential, ','))
            }
        }
    }
}

pub open spec fn ids_update(acc: InfFields, l: Seq<char>) -> InfFields {
    match line_id_tokens(l) {
        Some(toks) => InfFields { ids: add_id_tokens(acc.ids, toks, 0), ..acc },
        None => acc,
    }
}

/// One raw line's full effect on the accumulator.
pub open spec fn process_line(content: Seq<char>, acc: InfFields, l: Seq<char>) -> InfFields {
    if line_skipped(l) {
        acc
    } else {
        ids_update(arch_update(ver_update(content, class_update(acc, l), l), l), l)
    }
}

pub open spec fn parse_all(
    content: Seq<char>,
    lines: Seq<Seq<char>>,
    i: int,
    acc: InfFields,
) -> InfFields
    decreases lines.len() - i,
    when 0 <= i
{
    if i >= lines.len() {
        acc
    } else {
        parse_all(content, lines, i + 1, process_line(content, acc, lines[i]))
    }
}

/// What parsing one decoded INF text yields: blanks stripped everywhere,
/// then every line folded through the four extractions.
pub open spec fn spec_parse_inf_text(decoded: Seq<char>) -> InfFields {
    let content = spec_strip_blanks(decoded);
    parse_all(content, spec_lines(content), 0, empty_fields())
}

/// A path separator.
pub open spec fn is_sep(c: char) -> bool {
    c == '/' || c == '\\'
}

/// The parent directory of a path: everything before the last separator, or
/// the empty path.
pub open spec fn spec_parent(p: Seq<char>) -> Seq<char> {
    if last_sep_end(p) == 0 {
        Seq::<char>::empty()
    } else {
        p.take(last_sep_end(p) - 1)
    }
}

/// `parent` relative to `base`: the remainder after the base prefix, with
/// one leading separator dropped; absent when `parent` does not lie under
/// `base`.
pub open spec fn spec_rel_path(base: Seq<char>, parent: Seq<char>) -> Option<Seq<char>> {
    if !spec_starts_with(parent, base) {
        None
    } else {
        let rest = parent.skip(base.len() as int);
        if rest.len() == 0 {
            Some(rest)
        } else if is_sep(rest[0]) {
            Some(rest.drop_first())
        } else if base.len() == 0 || is_sep(base.last()) {
            Some(rest)
        } else {
            None
        }
    }
}

/// One INF file's extracted metadata: location, class, architectures,
/// date/version and the hardware IDs it declares.
#[allow(non_snake_case)]
#[derive(Debug, Clone, PartialEq)]
pub struct InfInfo {
    /// Directory of the INF relative to the package root.
    pub Path: String,
    /// File name of the INF.
    pub Inf: String,
    /// Device class name.
    pub Class: String,
    /// Supported architecture tags.
    pub Arch: Vec<String>,
    /// Driver date.
    pub Date: String,
    /// Driver version, dot-separated numeric components.
    pub Version: String,
    /// Upper-cased hardware IDs, without duplicates.
    pub DriverList: Vec<String>,
}

pub ghost struct InfInfoView {
    pub path: Seq<char>,
    pub inf: Seq<char>,
    pub class: Seq<char>,
    pub arch: Seq<Seq<char>>,
    pub date: Seq<char>,
    pub version: Seq<char>,
    pub driver_list: Seq<Seq<char>>,
}

impl View for InfInfo {
    type V = InfInfoView;

    open spec fn view(&self) -> InfInfoView {
        InfInfoView {
            path: self.Path@,
            inf: self.Inf@,
            class: self.Class@,
            arch: self.Arch.deep_view(),
            date: self.Date@,
            version: self.Version@,
            driver_list: self.DriverList.deep_view(),
        }
    }
}

impl DeepView for InfInfo {
    type V = InfInfoView;

    open spec fn deep_view(&self) -> InfInfoView {
        self.view()
    }
}

/// Copies a list of strings.
pub fn copy_strings(v: &Vec<String>) -> (r: Vec<String>)
    ensures
        r.deep_view() == v.deep_view(),
{
    let mut r: Vec<String> = Vec::new();
    let mut i: usize = 0;
    while i < v.len()
        invariant
            i <= v@.len(),
            r.deep_view() == v.deep_view().take(i as int),
        decreases v@.len() - i,
    {
        let ghost prev = r.deep_view();
        r.push(v[i].clone());
        proof {
            assert(r.deep_view() =~~= prev.push(v.deep_view()[i as int]));
            assert(r.deep_view() =~~= v.deep_view().take(i + 1));
        }
        i += 1;
    }
    proof {
        assert(v.deep_view().take(v@.len() as int) =~= v.deep_view());
    }
    r
}

impl InfInfo {
    /// A copy of this entry whose view is the same.
    pub fn duplicate(&self) -> (r: InfInfo)
        ensures
            r@ == self@,
    {
        let r = InfInfo {
            Path: self.Path.clone(),
            Inf: self.Inf.clone(),
            Class: self.Class.clone(),
            Arch: copy_strings(&self.Arch),
            Date: self.Date.clone(),
            Version: self.Version.clone(),
            DriverList: copy_strings(&self.DriverList),
        };
        r
    }
}

#[derive(Clone, Copy, Debug, PartialEq, Eq, Structural)]
pub enum ParseError {
    /// No decoder could be found for the raw bytes.
    Undecodable,
    /// The INF file's directory does not lie under the package root.
    PathNotUnderBase,
}

/// The running state of the exec parser; its view is the model accumulator.
struct ParseAcc {
    class: String,
    class_set: bool,
    date: String,
    version: String,
    ver_set: bool,
    arch: Vec<String>,
    ids: Vec<String>,
}

impl View for ParseAcc {
    type V = InfFields;

    closed spec fn view(&self) -> InfFields {
        InfFields {
            class: self.class@,
            class_set: self.class_set,
            date: self.date@,
            version: self.version@,
            ver_set: self.ver_set,
            arch: self.arch.deep_view(),
            ids: self.ids.deep_view(),
        }
    }
}

/// Does the list contain the given characters as one of its strings?
pub(crate) fn contains_string(list: &Vec<String>, s: &[char]) -> (r: bool)
    ensures
        r == list.deep_view().contains(s@),
{
    let mut i: usize = 0;
    while i < list.len()
        invariant
            i <= list@.len(),
            forall|j: int| 0 <= j < i ==> list.deep_view()[j] != s@,
        decreases list@.len() - i,
    {
        let lv = crate::text::chars_vec(list[i].as_str());
        if crate::util::vec_eq_chars(lv.as_slice(), s) {
            proof {
                assert(list.deep_view()[i as int] == s@);
            }
            return true;
        }
        i += 1;
    }
    proof {
        if list.deep_view().contains(s@) {
            let k = choose|k: int| 0 <= k < list.deep_view().len() && list.deep_view()[k] == s@;
            assert(false);
        }
    }
    false
}

/// The text between `start` and the next `end` in `s`, as `spec_center`
/// defines it.
fn center_vec(s: &[char], start: &[char], end: &[char]) -> (r: Option<Vec<char>>)
    ensures
        match r {
            Some(v) => spec_center(s@, start@, end@) == Some(v@),
            None => spec_center(s@, start@, end@) is None,
        },
{
    proof {
        lemma_find_idx_correct(s@, start@);
    }
    let i = match find_sub(s, start) {
        None => {
            proof {
                if find_idx(s@, start@) >= 0 {
                    assert(occurs_at(s@, start@, find_idx(s@, start@)));
                }
            }
            return None;
        },
        Some(i) => {
            proof {
                lemma_first_occurrence_unique(s@, start@, i as int, find_idx(s@, start@));
            }
            i
        },
    };
    let n: usize = s.len();
    let tail = sub_vec(s, i, n);
    proof {
        assert(tail@ =~= s@.skip(i as int));
        lemma_find_idx_correct(tail@, end@);
    }
    let j = match find_sub(tail.as_slice(), end) {
        None => {
            proof {
                if find_idx(s@.skip(i as int), end@) >= 0 {
                    assert(occurs_at(
                        s@.skip(i as int),
                        end@,
                        find_idx(s@.skip(i as int), end@),
                    ));
                }
            }
            return None;
        },
        Some(j) => {
            proof {
                lemma_first_occurrence_unique(
                    tail@,
                    end@,
                    j as int,
                    find_idx(s@.skip(i as int), end@),
                );
            }
            j
        },
    };
    if j < start.len() {
        return None;
    }
    proof {
        assert(i + j <= n);
    }
    Some(sub_vec(s, i + start.len(), i + j))
}

/// Expands one `%VAR%` placeholder from an assignment in the whole text.
fn expand_one_x(content: &[char], s: &[char], var: &[char]) -> (r: Vec<char>)
    ensures
        r@ == expand_one(content@, s@, var@),
{
    let mut start_pat = crate::text::sub_vec(var, 0, var.len());
    start_pat.push('=');
    proof {
        assert(start_pat@ =~= var@ + seq!['=']);
    }
    let mut crlf: Vec<char> = Vec::new();
    crlf.push('\r');
    crlf.push('\n');
    proof {
        assert(crlf@ =~= seq!['\r', '\n']);
    }
    match center_vec(content, start_pat.as_slice(), crlf.as_slice()) {
        None => crate::text::sub_vec(s, 0, s.len()),
        Some(v) => {
            let vq = crate::text::trim_quotes_vec(v.as_slice());
            let mut pat: Vec<char> = Vec::new();
            pat.push('%');
            crate::text::extend_vec(&mut pat, var);
            pat.push('%');
            proof {
                assert(pat@ =~= seq!['%'] + var@ + seq!['%']);
            }
            crate::text::replace_vec(s, pat.as_slice(), vq.as_slice())
        },
    }
}

/// Expands every `%VAR%` placeholder in `s`.
fn expand_vars_x(content: &[char], s: &[char]) -> (r: Vec<char>)
    ensures
        r@ == spec_expand_vars(content@, s@),
{
    let vars = crate::util::extract_vars_vec(s);
    let ghost vdv = vars.deep_view();
    let mut cur = crate::text::sub_vec(s, 0, s.len());
    let n: usize = vars.len();
    let mut i: usize = 0;
    proof {
        assert(cur@ =~= s@);
    }
    while i < n
        invariant
            vdv == crate::util::spec_extract_vars(s@),
            vars.deep_view() == vdv,
            n == vdv.len(),
            i <= n,
            expand_from(content@, s@, vdv, 0) == expand_from(content@, cur@, vdv, i as int),
        decreases n - i,
    {
        proof {
            assert(vars.deep_view()[i as int] == vars@[i as int]@);
        }
        let next = expand_one_x(content, cur.as_slice(), vars[i].as_slice());
        cur = next;
        i += 1;
    }
    cur
}

/// Is this token accepted as a hardware ID?
pub fn accepts_hardware_id(tok: &[char]) -> (r: bool)
    ensures
        r == accepts_hw_id(tok@),
{
    let n: usize = tok.len();
    if n == 1 && tok[0] == '\\' {
        proof {
            assert(tok@ =~= seq!['\\']);
        }
        return false;
    }
    proof {
        if tok@ == seq!['\\'] {
            assert(tok@.len() == 1 && tok@[0] == '\\');
        }
    }
    let has_backslash = crate::text::find_char(tok, '\\').is_some();
    proof {
        if has_backslash {
        } else {
            if tok@.contains('\\') {
                let k = choose|k: int| 0 <= k < tok@.len() && tok@[k] == '\\';
                assert(false);
            }
        }
    }
    if !has_backslash && !(n > 0 && tok[0] == '*') {
        return false;
    }
    let mut i: usize = 0;
    while i < n
        invariant
            n == tok@.len(),
            i <= n,
            forall|j: int| 0 <= j < i ==> is_id_char(#[trigger] tok@[j]),
        decreases n - i,
    {
        let c = tok[i];
        if !(crate::util::is_ascii_alnum_x(c) || c == '\\' || c == '&' || c == '_' || c == '.'
            || c == '-' || c == '*') {
            return false;
        }
        i += 1;
    }
    proof {
        if has_backslash {
            assert(tok@.contains('\\'));
        }
    }
    true
}

/// Records one candidate token into the ID list.
fn add_id_token_x(ids: &mut Vec<String>, tok: &[char])
    ensures
        final(ids).deep_view() == add_id_token(old(ids).deep_view(), tok@),
{
    if accepts_hardware_id(tok) {
        let up = crate::text::upper_vec(tok);
        if !contains_string(ids, up.as_slice()) {
            let ghost prev = ids.deep_view();
            ids.push(crate::text::string_from_chars(up.as_slice()));
            proof {
                assert(ids.deep_view() =~~= prev.push(upper_seq(tok@)));
            }
        }
    }
}

/// Applies one raw line to the accumulator.
fn process_line_x(content: &[char], l: &[char], acc: &mut ParseAcc)
    ensures
        final(acc)@ == process_line(content@, old(acc)@, l@),
{
    let n: usize = l.len();
    if n == 0 {
        return ;
    }
    if l[0] == ';' {
        return ;
    }
    // comment tail off, whitespace trimmed
    proof {
        crate::text::lemma_find_char_idx(l@, ';');
    }
    let cut = match crate::text::find_char(l, ';') {
        Some(ci) => {
            proof {
                if find_idx(l@, seq![';']) < 0 {
                    assert(l@[ci as int] != ';');
                }
                assert(l@.subrange(0, ci as int) =~= l@.take(find_idx(l@, seq![';'])));
            }
            crate::text::sub_vec(l, 0, ci)
        },
        None => {
            proof {
                if find_idx(l@, seq![';']) >= 0 {
                    assert(l@[find_idx(l@, seq![';'])] == ';');
                }
                assert(l@.subrange(0, n as int) =~= l@);
            }
            crate::text::sub_vec(l, 0, n)
        },
    };
    proof {
        assert(cut@ == cut_comment(l@));
    }
    let line = crate::text::trim_ws_vec(cut.as_slice());
    proof {
        assert(line@ == effective_line(l@));
    }
    let ghost acc0 = acc@;
    // class
    let mut class_pat: Vec<char> = Vec::new();
    class_pat.push('C');
    class_pat.push('l');
    class_pat.push('a');
    class_pat.push('s');
    class_pat.push('s');
    class_pat.push('=');
    proof {
        assert(class_pat@ =~= class_marker());
    }
    if !acc.class_set {
        match crate::text::strip_prefix_vec(line.as_slice(), class_pat.as_slice()) {
            Some(rest) => {
                acc.class = crate::text::string_from_chars(rest.as_slice());
                acc.class_set = true;
            },
            None => {},
        }
    }
    proof {
        assert(acc@ == class_update(acc0, l@));
    }
    let ghost acc1 = acc@;
    // date and version
    let mut ver_pat: Vec<char> = Vec::new();
    ver_pat.push('D');
    ver_pat.push('r');
    ver_pat.push('i');
    ver_pat.push('v');
    ver_pat.push('e');
    ver_pat.push('r');
    ver_pat.push('V');
    ver_pat.push('e');
    ver_pat.push('r');
    ver_pat.push('=');
    proof {
        assert(ver_pat@ =~= driver_ver_marker());
    }
    if !acc.ver_set {
        match crate::text::strip_prefix_vec(line.as_slice(), ver_pat.as_slice()) {
            Some(rest) => {
                let expanded = expand_vars_x(content, rest.as_slice());
                proof {
                    crate::text::lemma_find_char_idx(expanded@, ',');
                }
                match crate::text::find_char(expanded.as_slice(), ',') {
                    Some(ci) => {
                        proof {
                            if find_idx(expanded@, seq![',']) < 0 {
                                assert(expanded@[ci as int] != ',');
                            }
                            assert(expanded@.subrange(0, ci as int) =~= expanded@.take(
                                find_idx(expanded@, seq![',']),
                            ));
                            assert(expanded@.subrange(ci + 1, expanded@.len() as int)
                                =~= expanded@.skip(find_idx(expanded@, seq![',']) + 1));
                        }
                        let el: usize = expanded.len();
                        let head = crate::text::sub_vec(expanded.as_slice(), 0, ci);
                        let tail = crate::text::sub_vec(expanded.as_slice(), ci + 1, el);
                        let dt = crate::text::trim_ws_vec(head.as_slice());
                        let vt = crate::text::trim_ws_vec(tail.as_slice());
                        acc.date = crate::text::string_from_chars(dt.as_slice());
                        acc.version = crate::text::string_from_chars(vt.as_slice());
                    },
                    None => {
                        proof {
                            if find_idx(expanded@, seq![',']) >= 0 {
                                assert(expanded@[find_idx(expanded@, seq![','])] == ',');
                            }
                        }
                        acc.date = crate::text::string_from_chars(expanded.as_slice());
                        acc.version = String::new();
                    },
                }
                acc.ver_set = true;
            },
            None => {},
        }
    }
    proof {
        assert(acc@ == ver_update(content@, acc1, l@));
    }
    let ghost acc2 = acc@;
    // architecture tags
    let lu = crate::text::upper_vec(line.as_slice());
    arch_tag_x(&mut acc.arch, lu.as_slice(), 0);
    arch_tag_x(&mut acc.arch, lu.as_slice(), 1);
    arch_tag_x(&mut acc.arch, lu.as_slice(), 2);
    arch_tag_x(&mut acc.arch, lu.as_slice(), 3);
    arch_tag_x(&mut acc.arch, lu.as_slice(), 4);
    proof {
        assert(acc@ == arch_update(acc2, l@));
    }
    let ghost acc3 = acc@;
    // hardware IDs
    proof {
        crate::text::lemma_find_char_idx(line@, '=');
    }
    match crate::text::find_char(line.as_slice(), '=') {
        None => {
            proof {
                if find_idx(line@, seq!['=']) >= 0 {
                    assert(line@[find_idx(line@, seq!['='])] == '=');
                }
                assert(acc@ == ids_update(acc3, l@));
            }
        },
        Some(ei) => {
            proof {
                if find_idx(line@, seq!['=']) < 0 {
                    assert(line@[ei as int] != '=');
                }
                assert(ei as int == find_idx(line@, seq!['=']));
                crate::text::lemma_find_char_idx(line@.skip(ei as int), ',');
            }
            let ghost lskip = line@.skip(ei as int);
            match crate::text::find_char_from(line.as_slice(), ',', ei) {
                None => {
                    proof {
                        assert forall|j: int| 0 <= j < lskip.len() implies lskip[j] != ',' by {
                            assert(lskip[j] == line@[ei + j]);
                        }
                        if find_idx(lskip, seq![',']) >= 0 {
                            assert(lskip[find_idx(lskip, seq![','])] == ',');
                        }
                        assert(acc@ == ids_update(acc3, l@));
                    }
                },
                Some(a) => {
                    proof {
                        assert(lskip[a - ei] == line@[a as int]);
                        assert forall|j: int| 0 <= j < a - ei implies lskip[j] != ',' by {
                            assert(lskip[j] == line@[ei + j]);
                        }
                        if find_idx(lskip, seq![',']) < 0 {
                            assert(lskip[a - ei] != ',');
                        }
                        crate::text::lemma_find_idx_correct(lskip, seq![',']);
                        assert(crate::text::occurs_at(lskip, seq![','], a - ei)) by {
                            assert(lskip.subrange(a - ei, a - ei + 1) =~= seq![',']);
                        }
                        if find_idx(lskip, seq![',']) != a - ei {
                            crate::text::lemma_find_char_idx(lskip, ',');
                            assert(lskip[find_idx(lskip, seq![','])] == ',');
                        }
                        assert(a - ei == find_idx(lskip, seq![',']));
                    }
                    let after = crate::text::sub_vec(line.as_slice(), a + 1, line.len());
                    proof {
                        assert(after@ =~= line@.skip(
                            find_idx(line@, seq!['=']) + find_idx(lskip, seq![',']) + 1,
                        ));
                    }
                    let potential = crate::text::trim_ws_vec(after.as_slice());
                    let toks = crate::text::split_vec(potential.as_slice(), ',');
                    let ghost tdv = toks.deep_view();
                    let ghost ids0 = acc.ids.deep_view();
                    let tn: usize = toks.len();
                    let mut ti: usize = 0;
                    while ti < tn
                        invariant
                            toks.deep_view() == tdv,
                            tn == tdv.len(),
                            ti <= tn,
                            acc@.class == acc3.class,
                            acc@.class_set == acc3.class_set,
                            acc@.date == acc3.date,
                            acc@.version == acc3.version,
                            acc@.ver_set == acc3.ver_set,
                            acc@.arch == acc3.arch,
                            ids0 == acc3.ids,
                            add_id_tokens(ids0, tdv, 0) == add_id_tokens(
                                acc.ids.deep_view(),
                                tdv,
                                ti as int,
                            ),
                        decreases tn - ti,
                    {
                        proof {
                            assert(toks.deep_view()[ti as int] == toks@[ti as int]@);
                        }
                        add_id_token_x(&mut acc.ids, toks[ti].as_slice());
                        ti += 1;
                    }
                    proof {
                        assert(acc.ids.deep_view() == add_id_tokens(ids0, tdv, 0));
                        assert(acc@ == ids_update(acc3, l@));
                    }
                },
            }
        },
    }
}

/// Records one architecture tag (by its index in the recognized list) when
/// the upper-cased line mentions it.
fn arch_tag_x(arch: &mut Vec<String>, lu: &[char], which: u8)
    requires
        which < 5,
    ensures
        final(arch).deep_view() == arch_tag_update(
            old(arch).deep_view(),
            lu@,
            arch_pat_of(which as int),
            arch_tag_of(which as int),
        ),
{
    let (pat, tag): (Vec<char>, Vec<char>) = arch_pattern(which);
    if crate::text::contains_sub(lu, pat.as_slice()) && !contains_string(arch, tag.as_slice()) {
        let ghost prev = arch.deep_view();
        arch.push(crate::text::string_from_chars(tag.as_slice()));
        proof {
            assert(arch.deep_view() =~~= prev.push(arch_tag_of(which as int)));
        }
    }
}

/// The recognized tag at an index of the fixed list.
pub open spec fn arch_tag_of(which: int) -> Seq<char> {
    if which == 0 {
        tag_x86()
    } else if which == 1 {
        tag_ia64()
    } else if which == 2 {
        tag_amd64()
    } else if which == 3 {
        tag_arm()
    } else {
        tag_arm64()
    }
}

pub open spec fn arch_pat_of(which: int) -> Seq<char> {
    if which == 0 {
        pat_x86()
    } else if which == 1 {
        pat_ia64()
    } else if which == 2 {
        pat_amd64()
    } else if which == 3 {
        pat_arm()
    } else {
        pat_arm64()
    }
}

/// The dotted upper-case pattern and canonical tag for one architecture.
fn arch_pattern(which: u8) -> (r: (Vec<char>, Vec<char>))
    requires
        which < 5,
    ensures
        r.0@ == arch_pat_of(which as int),
        r.1@ == arch_tag_of(which as int),
{
    let mut pat: Vec<char> = Vec::new();
    let mut tag: Vec<char> = Vec::new();
    pat.push('.');
    pat.push('N');
    pat.push('T');
    tag.push('N');
    tag.push('T');
    if which == 0 {
        pat.push('X');
        pat.push('8');
        pat.push('6');
        tag.push('x');
        tag.push('8');
        tag.push('6');
        proof {
            assert(pat@ =~= pat_x86());
            assert(tag@ =~= tag_x86());
        }
    } else if which == 1 {
        pat.push('I');
        pat.push('A');
        pat.push('6');
        pat.push('4');
        tag.push('i');
        tag.push('a');
        tag.push('6');
        tag.push('4');
        proof {
            assert(pat@ =~= pat_ia64());
            assert(tag@ =~= tag_ia64());
        }
    } else if which == 2 {
        pat.push('A');
        pat.push('M');
        pat.push('D');
        pat.push('6');
        pat.push('4');
        tag.push('a');
        tag.push('m');
        tag.push('d');
        tag.push('6');
        tag.push('4');
        proof {
            assert(pat@ =~= pat_amd64());
            assert(tag@ =~= tag_amd64());
        }
    } else if which == 3 {
        pat.push('A');
        pat.push('R');
        pat.push('M');
        tag.push('a');
        tag.push('r');
        tag.push('m');
        proof {
            assert(pat@ =~= pat_arm());
            assert(tag@ =~= tag_arm());
        }
    } else {
        pat.push('A');
        pat.push('R');
        pat.push('M');
        pat.push('6');
        pat.push('4');
        tag.push('a');
        tag.push('r');
        tag.push('m');
        tag.push('6');
        tag.push('4');
        proof {
            assert(pat@ =~= pat_arm64());
            assert(tag@ =~= tag_arm64());
        }
    }
    (pat, tag)
}

/// Parses one decoded INF text into the accumulated fields.
fn parse_text_x(decoded: &[char]) -> (acc: ParseAcc)
    ensures
        acc@ == spec_parse_inf_text(decoded@),
{
    let content = crate::text::strip_blanks(decoded);
    let lines = crate::text::lines_vec(content.as_slice());
    let ghost ldv = lines.deep_view();
    let mut acc = ParseAcc {
        class: String::new(),
        class_set: false,
        date: String::new(),
        version: String::new(),
        ver_set: false,
        arch: Vec::new(),
        ids: Vec::new(),
    };
    proof {
        assert(acc@.arch =~~= empty_fields().arch);
        assert(acc@.ids =~~= empty_fields().ids);
        assert(acc@ == empty_fields());
    }
    let n: usize = lines.len();
    let mut i: usize = 0;
    while i < n
        invariant
            content@ == spec_strip_blanks(decoded@),
            ldv == spec_lines(content@),
            lines.deep_view() == ldv,
            n == ldv.len(),
            i <= n,
            parse_all(content@, ldv, 0, empty_fields()) == parse_all(
                content@,
                ldv,
                i as int,
                acc@,
            ),
        decreases n - i,
    {
        proof {
            assert(lines.deep_view()[i as int] == lines@[i as int]@);
        }
        process_line_x(content.as_slice(), lines[i].as_slice(), &mut acc);
        i += 1;
    }
    acc
}

/// The parent directory of a path string.
fn parent_of(pv: &[char]) -> (r: Vec<char>)
    ensures
        r@ == spec_parent(pv@),
{
    let n: usize = pv.len();
    let mut sep_end: usize = 0;
    let mut i: usize = 0;
    proof {
        assert(pv@.take(0) =~= Seq::<char>::empty());
    }
    while i < n
        invariant
            n == pv@.len(),
            i <= n,
            sep_end as int == last_sep_end(pv@.take(i as int)),
            sep_end <= i,
        decreases n - i,
    {
        proof {
            assert(pv@.take(i + 1).drop_last() =~= pv@.take(i as int));
        }
        let c = pv[i];
        if c == '/' || c == '\\' {
            sep_end = i + 1;
        }
        i += 1;
    }
    proof {
        assert(pv@.take(n as int) =~= pv@);
    }
    if sep_end == 0 {
        Vec::new()
    } else {
        sub_vec(pv, 0, sep_end - 1)
    }
}

/// The file-name part of a path string.
fn file_name_of(pv: &[char]) -> (r: Vec<char>)
    ensures
        r@ == spec_file_name(pv@),
{
    let n: usize = pv.len();
    let mut sep_end: usize = 0;
    let mut i: usize = 0;
    proof {
        assert(pv@.take(0) =~= Seq::<char>::empty());
    }
    while i < n
        invariant
            n == pv@.len(),
            i <= n,
            sep_end as int == last_sep_end(pv@.take(i as int)),
            sep_end <= i,
        decreases n - i,
    {
        proof {
            assert(pv@.take(i + 1).drop_last() =~= pv@.take(i as int));
        }
        let c = pv[i];
        if c == '/' || c == '\\' {
            sep_end = i + 1;
        }
        i += 1;
    }
    proof {
        assert(pv@.take(n as int) =~= pv@);
    }
    sub_vec(pv, sep_end, n)
}

/// The directory `parent` relative to `base`, when it lies under `base`.
fn rel_path_of(base: &[char], parent: &[char]) -> (r: Option<Vec<char>>)
    ensures
        match r {
            Some(v) => spec_rel_path(base@, parent@) == Some(v@),
            None => spec_rel_path(base@, parent@) is None,
        },
{
    if !crate::text::starts_with_vec(parent, base) {
        return None;
    }
    let bl: usize = base.len();
    let pl: usize = parent.len();
    let ghost rest = parent@.skip(bl as int);
    if pl == bl {
        proof {
            assert(rest.len() == 0);
        }
        return Some(Vec::new());
    }
    proof {
        assert(rest[0] == parent@[bl as int]);
    }
    let c = parent[bl];
    if c == '/' || c == '\\' {
        proof {
            assert(parent@.subrange(bl + 1, pl as int) =~= rest.drop_first());
        }
        return Some(sub_vec(parent, bl + 1, pl));
    }
    if bl == 0 || {
        let b = base[bl - 1];
        b == '/' || b == '\\'
    } {
        proof {
            assert(parent@.subrange(bl as int, pl as int) =~= rest);
        }
        return Some(sub_vec(parent, bl, pl));
    }
    None
}

/// The entry `e` is what parsing `decoded` yields for an INF at `inf_path`
/// under `base`.
pub open spec fn entry_matches(
    e: InfInfoView,
    base: Seq<char>,
    inf_path: Seq<char>,
    decoded: Seq<char>,
) -> bool {
    let f = spec_parse_inf_text(decoded);
    &&& e.class == f.class
    &&& e.date == f.date
    &&& e.version == f.version
    &&& e.arch == f.arch
    &&& e.driver_list == f.ids
    &&& e.inf == spec_file_name(inf_path)
    &&& Some(e.path) == spec_rel_path(base, spec_parent(inf_path))
}

/// The text that charset sniffing and decoding make of a byte sequence; it
/// is a function of the bytes alone.
pub uninterp spec fn decoded_text(bytes: Seq<u8>) -> Seq<char>;

/// Whether charset sniffing finds a decoder for a byte sequence; like the
/// decoded text itself, it depends on the bytes alone.
pub uninterp spec fn decodable(bytes: Seq<u8>) -> bool;

/// The bytes hold the escape control character that switches charset
/// detection into its escape-sequence path.
pub open spec fn has_escape_byte(bytes: Seq<u8>) -> bool {
    exists|i: int| 0 <= i < bytes.len() && bytes[i] == 0x1B
}

fn contains_escape_byte(data: &[u8]) -> (r: bool)
    ensures
        r == has_escape_byte(data@),
{
    let n: usize = data.len();
    let mut i: usize = 0;
    while i < n
        invariant
            n == data@.len(),
            i <= n,
            forall|j: int| 0 <= j < i ==> data@[j] != 0x1B,
        decreases n - i,
    {
        if data[i] == 0x1B {
            return true;
        }
        i += 1;
    }
    proof {
        if has_escape_byte(data@) {
            let k = choose|k: int| 0 <= k < data@.len() && data@[k] == 0x1B;
            assert(false);
        }
    }
    false
}

/// Relies on `chardet::detect` and `encoding::label::encoding_from_whatwg_label`
/// with `Encoding::decode`: the charset guess and the decoding are
/// deterministic in the bytes, and undecodable sequences are dropped rather
/// than failing; `None` exactly when no decoder matches the guessed label.
/// Input holding the 0x1B escape byte is kept out: the detector's close has
/// no verdict for an unresolved escape-sequence state and panics on it, so
/// the caller turns such bytes away beforehand.
#[verifier::external_body]
fn decode_auto(bytes: &[u8]) -> (r: Option<String>)
    requires
        !has_escape_byte(bytes@),
    ensures
        r is Some <==> decodable(bytes@),
        r matches Some(s) ==> s@ == decoded_text(bytes@),
{
    let guess = chardet::detect(bytes);
    let coder = encoding::label::encoding_from_whatwg_label(chardet::charset2encoding(&guess.0))?;
    coder.decode(bytes, encoding::DecoderTrap::Ignore).ok()
}

impl InfInfo {
    /// Parses one already-decoded INF text into an entry for the file at
    /// `infFile` under the package root `basePath`: succeeds exactly when
    /// the file's directory lies under the root, and then carries the
    /// parsed class, architectures, date, version and hardware IDs.
    #[allow(non_snake_case)]
    pub fn parse_decoded(basePath: &str, infFile: &str, content: &str) -> (r: Result<
        InfInfo,
        ParseError,
    >)
        ensures
            r is Ok <==> spec_rel_path(basePath@, spec_parent(infFile@)) is Some,
            r matches Ok(e) ==> entry_matches(e@, basePath@, infFile@, content@),
            r matches Err(p) ==> p == ParseError::PathNotUnderBase,
    {
        let basev = crate::text::chars_vec(basePath);
        let infv = crate::text::chars_vec(infFile);
        let parent = parent_of(infv.as_slice());
        let rel = match rel_path_of(basev.as_slice(), parent.as_slice()) {
            Some(v) => v,
            None => {
                return Err(ParseError::PathNotUnderBase);
            },
        };
        let name = file_name_of(infv.as_slice());
        let cv = crate::text::chars_vec(content);
        let acc = parse_text_x(cv.as_slice());
        let entry = InfInfo {
            Path: crate::text::string_from_chars(rel.as_slice()),
            Inf: crate::text::string_from_chars(name.as_slice()),
            Class: acc.class,
            Arch: acc.arch,
            Date: acc.date,
            Version: acc.version,
            DriverList: acc.ids,
        };
        Ok(entry)
    }

    /// Parses one INF file's raw bytes: detects the text encoding, decodes,
    /// and parses the decoded text. It succeeds exactly when the bytes are
    /// free of the escape control byte, a decoder is found, and the file's
    /// directory lies under the root; an entry that comes back describes
    /// exactly the decoded text, and each error names the condition that
    /// failed. Bytes holding 0x1B are rejected as undecodable up front,
    /// per-file as every encoding failure is, because charset detection
    /// cannot settle an unresolved escape sequence.
    #[allow(non_snake_case)]
    pub fn parsingInfFile(basePath: &str, infFile: &str, data: &[u8]) -> (r: Result<
        InfInfo,
        ParseError,
    >)
        ensures
            r is Ok <==> (!has_escape_byte(data@) && decodable(data@) && spec_rel_path(
                basePath@,
                spec_parent(infFile@),
            ) is Some),
            r matches Ok(e) ==> entry_matches(e@, basePath@, infFile@, decoded_text(data@)),
            r matches Err(p) ==> (p == ParseError::Undecodable <==> (has_escape_byte(data@)
                || !decodable(data@))),
            r matches Err(p) ==> (p == ParseError::PathNotUnderBase ==> spec_rel_path(
                basePath@,
                spec_parent(infFile@),
            ) is None),
    {
        if contains_escape_byte(data) {
            return Err(ParseError::Undecodable);
        }
        let decoded = match decode_auto(data) {
            Some(s) => s,
            None => {
                return Err(ParseError::Undecodable);
            },
        };
        InfInfo::parse_decoded(basePath, infFile, decoded.as_str())
    }
}

/// Once a line has set the class, later lines leave it alone.
proof fn lemma_parse_keeps_class(content: Seq<char>, lines: Seq<Seq<char>>, i: int, acc: InfFields)
    requires
        0 <= i,
        acc.class_set,
    ensures
        parse_all(content, lines, i, acc).class == acc.class,
    decreases lines.len() - i,
{
    if i < lines.len() {
        let acc1 = process_line(content, acc, lines[i]);
        assert(acc1.class == acc.class && acc1.class_set);
        lemma_parse_keeps_class(content, lines, i + 1, acc1);
    }
}

/// The first class-bearing line decides the class.
proof fn lemma_class_first_from(
    content: Seq<char>,
    lines: Seq<Seq<char>>,
    i: int,
    k: int,
    acc: InfFields,
)
    requires
        0 <= i <= k < lines.len(),
        !acc.class_set,
        forall|j: int| i <= j < k ==> line_class_value(#[trigger] lines[j]) is None,
        line_class_value(lines[k]) is Some,
    ensures
        parse_all(content, lines, i, acc).class == line_class_value(lines[k])->0,
    decreases k - i,
{
    let acc1 = process_line(content, acc, lines[i]);
    if i == k {
        assert(acc1.class == line_class_value(lines[i])->0 && acc1.class_set);
        lemma_parse_keeps_class(content, lines, i + 1, acc1);
    } else {
        assert(acc1.class == acc.class && !acc1.class_set);
        lemma_class_first_from(content, lines, i + 1, k, acc1);
    }
}

/// The class of a parsed INF text is the value of its first `Class=` line:
/// for the first line whose effective text opens with the class marker, the
/// parsed class is exactly the text after the marker, case preserved.
pub proof fn lemma_class_of_first_class_line(decoded: Seq<char>, k: int)
    requires
        ({
            let ls = spec_lines(spec_strip_blanks(decoded));
            &&& 0 <= k < ls.len()
            &&& line_class_value(ls[k]) is Some
            &&& forall|j: int| 0 <= j < k ==> line_class_value(#[trigger] ls[j]) is None
        }),
    ensures
        spec_parse_inf_text(decoded).class == line_class_value(
            spec_lines(spec_strip_blanks(decoded))[k],
        )->0,
{
    let content = spec_strip_blanks(decoded);
    lemma_class_first_from(content, spec_lines(content), 0, k, empty_fields());
}

/// Once a line has set date and version, later lines leave them alone.
proof fn lemma_parse_keeps_ver(content: Seq<char>, lines: Seq<Seq<char>>, i: int, acc: InfFields)
    requires
        0 <= i,
        acc.ver_set,
    ensures
        parse_all(content, lines, i, acc).date == acc.date,
        parse_all(content, lines, i, acc).version == acc.version,
    decreases lines.len() - i,
{
    if i < lines.len() {
        let acc1 = process_line(content, acc, lines[i]);
        assert(acc1.date == acc.date && acc1.version == acc.version && acc1.ver_set);
        lemma_parse_keeps_ver(content, lines, i + 1, acc1);
    }
}

/// The first `DriverVer=` line decides date and version.
proof fn lemma_ver_first_from(
    content: Seq<char>,
    lines: Seq<Seq<char>>,
    i: int,
    k: int,
    acc: InfFields,
)
    requires
        0 <= i <= k < lines.len(),
        !acc.ver_set,
        forall|j: int| i <= j < k ==> line_ver_value(content, #[trigger] lines[j]) is None,
        line_ver_value(content, lines[k]) is Some,
    ensures
        ({
            let dv = line_ver_value(content, lines[k])->0;
            &&& parse_all(content, lines, i, acc).date == dv.0
            &&& parse_all(content, lines, i, acc).version == dv.1
        }),
    decreases k - i,
{
    let acc1 = process_line(content, acc, lines[i]);
    if i == k {
        let dvi = line_ver_value(content, lines[i])->0;
        assert(acc1.date == dvi.0 && acc1.ver_set);
        assert(acc1.version == dvi.1);
        lemma_parse_keeps_ver(content, lines, i + 1, acc1);
    } else {
        assert(acc1.date == acc.date && acc1.version == acc.version && !acc1.ver_set);
        lemma_ver_first_from(content, lines, i + 1, k, acc1);
    }
}

/// The date and version of a parsed INF text come from its first
/// `DriverVer=` line: the text after the marker, placeholders expanded, is
/// split at its first comma into the date and the version.
pub proof fn lemma_ver_of_first_driver_ver_line(decoded: Seq<char>, k: int)
    requires
        ({
            let content = spec_strip_blanks(decoded);
            let ls = spec_lines(content);
            &&& 0 <= k < ls.len()
            &&& line_ver_value(content, ls[k]) is Some
            &&& forall|j: int|
                0 <= j < k ==> line_ver_value(content, #[trigger] ls[j]) is None
        }),
    ensures
        ({
            let content = spec_strip_blanks(decoded);
            let dv = line_ver_value(content, spec_lines(content)[k])->0;
            &&& spec_parse_inf_text(decoded).date == dv.0
            &&& spec_parse_inf_text(decoded).version == dv.1
        }),
{
    let content = spec_strip_blanks(decoded);
    lemma_ver_first_from(content, spec_lines(content), 0, k, empty_fields());
}

/// Adding tokens never removes a recorded ID.
proof fn lemma_add_id_tokens_mono(ids: Seq<Seq<char>>, toks: Seq<Seq<char>>, i: int, id: Seq<char>)
    requires
        0 <= i,
        ids.contains(id),
    ensures
        add_id_tokens(ids, toks, i).contains(id),
    decreases toks.len() - i,
{
    if i < toks.len() {
        let ids1 = add_id_token(ids, toks[i]);
        let w = choose|w: int| 0 <= w < ids.len() && ids[w] == id;
        assert(ids1[w] == id);
        lemma_add_id_tokens_mono(ids1, toks, i + 1, id);
    }
}

/// Adding an accepted token records its upper-cased form.
proof fn lemma_add_id_token_member(ids: Seq<Seq<char>>, tok: Seq<char>)
    requires
        accepts_hw_id(tok),
    ensures
        add_id_token(ids, tok).contains(upper_seq(tok)),
{
    let up = upper_seq(tok);
    if !ids.contains(up) {
        assert(add_id_token(ids, tok)[ids.len() as int] == up);
    }
}

/// An accepted token anywhere in the list ends up recorded.
proof fn lemma_add_id_tokens_member(ids: Seq<Seq<char>>, toks: Seq<Seq<char>>, i: int, t: int)
    requires
        0 <= i <= t < toks.len(),
        accepts_hw_id(toks[t]),
    ensures
        add_id_tokens(ids, toks, i).contains(upper_seq(toks[t])),
    decreases t - i,
{
    let ids1 = add_id_token(ids, toks[i]);
    if i == t {
        lemma_add_id_token_member(ids, toks[i]);
        lemma_add_id_tokens_mono(ids1, toks, i + 1, upper_seq(toks[t]));
    } else {
        lemma_add_id_tokens_member(ids1, toks, i + 1, t);
    }
}

/// Processing a line never removes a recorded ID.
proof fn lemma_process_line_ids_mono(content: Seq<char>, acc: InfFields, l: Seq<char>, id: Seq<char>)
    requires
        acc.ids.contains(id),
    ensures
        process_line(content, acc, l).ids.contains(id),
{
    if !line_skipped(l) {
        let a3 = arch_update(ver_update(content, class_update(acc, l), l), l);
        assert(a3.ids == acc.ids);
        match line_id_tokens(l) {
            Some(toks) => {
                lemma_add_id_tokens_mono(a3.ids, toks, 0, id);
            },
            None => {},
        }
    }
}

/// A line's accepted token is recorded by processing that line.
proof fn lemma_process_line_records(content: Seq<char>, acc: InfFields, l: Seq<char>, t: int)
    requires
        line_id_tokens(l) is Some,
        0 <= t < line_id_tokens(l)->0.len(),
        accepts_hw_id(line_id_tokens(l)->0[t]),
    ensures
        process_line(content, acc, l).ids.contains(upper_seq(line_id_tokens(l)->0[t])),
{
    let a3 = arch_update(ver_update(content, class_update(acc, l), l), l);
    assert(a3.ids == acc.ids);
    lemma_add_id_tokens_member(a3.ids, line_id_tokens(l)->0, 0, t);
}

/// The line fold never removes a recorded ID.
proof fn lemma_parse_all_ids_mono(
    content: Seq<char>,
    lines: Seq<Seq<char>>,
    i: int,
    acc: InfFields,
    id: Seq<char>,
)
    requires
        0 <= i,
        acc.ids.contains(id),
    ensures
        parse_all(content, lines, i, acc).ids.contains(id),
    decreases lines.len() - i,
{
    if i < lines.len() {
        lemma_process_line_ids_mono(content, acc, lines[i], id);
        lemma_parse_all_ids_mono(content, lines, i + 1, process_line(content, acc, lines[i]), id);
    }
}

/// The fold from line `i` records line `k`'s accepted token.
proof fn lemma_parse_all_records(
    content: Seq<char>,
    lines: Seq<Seq<char>>,
    i: int,
    k: int,
    acc: InfFields,
    t: int,
)
    requires
        0 <= i <= k < lines.len(),
        line_id_tokens(lines[k]) is Some,
        0 <= t < line_id_tokens(lines[k])->0.len(),
        accepts_hw_id(line_id_tokens(lines[k])->0[t]),
    ensures
        parse_all(content, lines, i, acc).ids.contains(
            upper_seq(line_id_tokens(lines[k])->0[t]),
        ),
    decreases k - i,
{
    let acc1 = process_line(content, acc, lines[i]);
    if i == k {
        lemma_process_line_records(content, acc, lines[i], t);
        lemma_parse_all_ids_mono(
            content,
            lines,
            i + 1,
            acc1,
            upper_seq(line_id_tokens(lines[k])->0[t]),
        );
    } else {
        lemma_parse_all_records(content, lines, i + 1, k, acc1, t);
    }
}

/// Hardware-ID extraction, the membership half: when a line of the
/// stripped text offers a candidate token that the acceptance predicate
/// admits, its upper-cased form stands in the parsed ID list.
pub proof fn lemma_accepted_token_recorded(decoded: Seq<char>, k: int, t: int)
    requires
        ({
            let ls = spec_lines(spec_strip_blanks(decoded));
            &&& 0 <= k < ls.len()
            &&& line_id_tokens(ls[k]) is Some
            &&& 0 <= t < line_id_tokens(ls[k])->0.len()
            &&& accepts_hw_id(line_id_tokens(ls[k])->0[t])
        }),
    ensures
        ({
            let ls = spec_lines(spec_strip_blanks(decoded));
            spec_parse_inf_text(decoded).ids.contains(
                upper_seq(line_id_tokens(ls[k])->0[t]),
            )
        }),
{
    let content = spec_strip_blanks(decoded);
    lemma_parse_all_records(content, spec_lines(content), 0, k, empty_fields(), t);
}

/// What holds of every recorded hardware ID: not the bare backslash, and
/// made of ID characters only.
pub open spec fn is_clean_id(id: Seq<char>) -> bool {
    id != seq!['\\'] && forall|i: int| 0 <= i < id.len() ==> is_id_char(#[trigger] id[i])
}

pub open spec fn all_clean(ids: Seq<Seq<char>>) -> bool {
    forall|j: int| 0 <= j < ids.len() ==> is_clean_id(#[trigger] ids[j])
}

/// Upper-casing an accepted token yields a clean ID.
proof fn lemma_upper_id_clean(tok: Seq<char>)
    requires
        accepts_hw_id(tok),
    ensures
        is_clean_id(upper_seq(tok)),
{
    let up = upper_seq(tok);
    assert forall|i: int| 0 <= i < up.len() implies is_id_char(#[trigger] up[i]) by {
        assert(up[i] == crate::text::upper_char(tok[i]));
        assert(is_id_char(tok[i]));
    }
    if up == seq!['\\'] {
        assert(up.len() == 1);
        assert(up[0] == '\\');
        assert(up[0] == crate::text::upper_char(tok[0]));
        assert(tok[0] == '\\');
        assert(tok =~= seq!['\\']);
        assert(false);
    }
}

/// Adding a token keeps the ID list clean.
proof fn lemma_add_id_token_clean(ids: Seq<Seq<char>>, tok: Seq<char>)
    requires
        all_clean(ids),
    ensures
        all_clean(add_id_token(ids, tok)),
{
    if accepts_hw_id(tok) && !ids.contains(upper_seq(tok)) {
        lemma_upper_id_clean(tok);
        let r = add_id_token(ids, tok);
        assert forall|j: int| 0 <= j < r.len() implies is_clean_id(#[trigger] r[j]) by {
            if j < ids.len() {
                assert(r[j] == ids[j]);
            } else {
                assert(r[j] == upper_seq(tok));
            }
        }
    }
}

proof fn lemma_add_id_tokens_clean(ids: Seq<Seq<char>>, toks: Seq<Seq<char>>, i: int)
    requires
        0 <= i,
        all_clean(ids),
    ensures
        all_clean(add_id_tokens(ids, toks, i)),
    decreases toks.len() - i,
{
    if i < toks.len() {
        lemma_add_id_token_clean(ids, toks[i]);
        lemma_add_id_tokens_clean(add_id_token(ids, toks[i]), toks, i + 1);
    }
}

proof fn lemma_process_line_clean(content: Seq<char>, acc: InfFields, l: Seq<char>)
    requires
        all_clean(acc.ids),
    ensures
        all_clean(process_line(content, acc, l).ids),
{
    if !line_skipped(l) {
        let a3 = arch_update(ver_update(content, class_update(acc, l), l), l);
        assert(a3.ids == acc.ids);
        match line_id_tokens(l) {
            Some(toks) => {
                lemma_add_id_tokens_clean(a3.ids, toks, 0);
            },
            None => {},
        }
    }
}

proof fn lemma_parse_all_clean(content: Seq<char>, lines: Seq<Seq<char>>, i: int, acc: InfFields)
    requires
        0 <= i,
        all_clean(acc.ids),
    ensures
        all_clean(parse_all(content, lines, i, acc).ids),
    decreases lines.len() - i,
{
    if i < lines.len() {
        lemma_process_line_clean(content, acc, lines[i]);
        lemma_parse_all_clean(content, lines, i + 1, process_line(content, acc, lines[i]));
    }
}

/// Hardware-ID extraction, the soundness half: every ID a parse records is
/// clean — never the bare backslash, every character an ID character, so in
/// particular no space and no solidus occurs in any recorded ID.
pub proof fn lemma_recorded_ids_clean(decoded: Seq<char>, j: int)
    requires
        0 <= j < spec_parse_inf_text(decoded).ids.len(),
    ensures
        ({
            let id = spec_parse_inf_text(decoded).ids[j];
            &&& id != seq!['\\']
            &&& forall|i: int| 0 <= i < id.len() ==> is_id_char(#[trigger] id[i])
            &&& forall|i: int| 0 <= i < id.len() ==> #[trigger] id[i] != ' ' && id[i] != '/'
        }),
{
    let content = spec_strip_blanks(decoded);
    lemma_parse_all_clean(content, spec_lines(content), 0, empty_fields());
    let id = spec_parse_inf_text(decoded).ids[j];
    assert(is_clean_id(id));
    assert forall|i: int| 0 <= i < id.len() implies #[trigger] id[i] != ' ' && id[i] != '/' by {
        assert(is_id_char(id[i]));
    }
}

} // verus!
