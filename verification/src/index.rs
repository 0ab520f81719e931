//! The persisted index: a flat serialized list of entries in a
//! JSON-compatible shape, `{Path, Inf, Class, Arch, Date, Version,
//! DriverList}` per entry. The writer and the reader are both verified, and
//! reading back what was written returns the original entries.

use crate::inf::InfInfo;
use crate::inf::InfInfoView;
use crate::inf::ParseError;
use vstd::prelude::*;

verus! {

/// The lower-case hexadecimal digit for a value below sixteen.
pub open spec fn hex_digit(v: nat) -> char {
    if v == 0 {
        '0'
    } else if v == 1 {
        '1'
    } else if v == 2 {
        '2'
    } else if v == 3 {
        '3'
    } else if v == 4 {
        '4'
    } else if v == 5 {
        '5'
    } else if v == 6 {
        '6'
    } else if v == 7 {
        '7'
    } else if v == 8 {
        '8'
    } else if v == 9 {
        '9'
    } else if v == 10 {
        'a'
    } else if v == 11 {
        'b'
    } else if v == 12 {
        'c'
    } else if v == 13 {
        'd'
    } else if v == 14 {
        'e'
    } else {
        'f'
    }
}

/// The value of a hexadecimal digit character, either case; negative for
/// anything else.
pub open spec fn hex_val(c: char) -> int {
    if '0' <= c && c <= '9' {
        c as u32 - '0' as u32
    } else if 'a' <= c && c <= 'f' {
        10 + c as u32 - 'a' as u32
    } else if 'A' <= c && c <= 'F' {
        10 + c as u32 - 'A' as u32
    } else {
        -1
    }
}

/// How one character is written inside a serialized string: backslashes and
/// quotes get a backslash, the common control characters their short
/// escapes, any other control character the four-digit hexadecimal form,
/// and everything else stands for itself.
pub open spec fn esc_char(c: char) -> Seq<char> {
    if c == '\\' || c == '"' {
        seq!['\\', c]
    } else if c == '\u{8}' {
        seq!['\\', 'b']
    } else if c == '\t' {
        seq!['\\', 't']
    } else if c == '\n' {
        seq!['\\', 'n']
    } else if c == '\u{c}' {
        seq!['\\', 'f']
    } else if c == '\r' {
        seq!['\\', 'r']
    } else if (c as u32) < 0x20 {
        seq![
            '\\',
            'u',
            '0',
            '0',
            hex_digit(((c as u32) / 16) as nat),
            hex_digit(((c as u32) % 16) as nat),
        ]
    } else {
        seq![c]
    }
}

#[verifier::opaque]
pub open spec fn esc(s: Seq<char>) -> Seq<char>
    decreases s.len(),
{
    if s.len() == 0 {
        Seq::<char>::empty()
    } else {
        esc_char(s[0]) + esc(s.drop_first())
    }
}

/// A serialized string: the escaped text in double quotes.
pub open spec fn emit_string(s: Seq<char>) -> Seq<char> {
    seq!['"'] + esc(s) + seq!['"']
}

/// The items of a serialized string array, comma-separated.
pub open spec fn emit_items(v: Seq<Seq<char>>, i: int) -> Seq<char>
    decreases v.len() - i,
    when 0 <= i
{
    if i >= v.len() {
        Seq::<char>::empty()
    } else if i == v.len() - 1 {
        emit_string(v[i])
    } else {
        emit_string(v[i]) + seq![','] + emit_items(v, i + 1)
    }
}

/// A serialized string array.
pub open spec fn emit_array(v: Seq<Seq<char>>) -> Seq<char> {
    seq!['['] + emit_items(v, 0) + seq![']']
}

pub open spec fn key_path() -> Seq<char> {
    seq!['P', 'a', 't', 'h']
}

pub open spec fn key_inf() -> Seq<char> {
    seq!['I', 'n', 'f']
}

pub open spec fn key_class() -> Seq<char> {
    seq!['C', 'l', 'a', 's', 's']
}

pub open spec fn key_arch() -> Seq<char> {
    seq!['A', 'r', 'c', 'h']
}

pub open spec fn key_date() -> Seq<char> {
    seq!['D', 'a', 't', 'e']
}

pub open spec fn key_version() -> Seq<char> {
    seq!['V', 'e', 'r', 's', 'i', 'o', 'n']
}

pub open spec fn key_driver_list() -> Seq<char> {
    seq!['D', 'r', 'i', 'v', 'e', 'r', 'L', 'i', 's', 't']
}

/// One field: the quoted key, a colon, and the value.
pub open spec fn emit_str_field(key: Seq<char>, v: Seq<char>) -> Seq<char> {
    seq!['"'] + key + seq!['"', ':'] + emit_string(v)
}

pub open spec fn emit_arr_field(key: Seq<char>, v: Seq<Seq<char>>) -> Seq<char> {
    seq!['"'] + key + seq!['"', ':'] + emit_array(v)
}

/// One serialized entry, fields in a fixed order.
pub open spec fn emit_entry(e: InfInfoView) -> Seq<char> {
    seq!['{'] + emit_str_field(key_path(), e.path) + seq![','] + emit_str_field(
        key_inf(),
        e.inf,
    ) + seq![','] + emit_str_field(key_class(), e.class) + seq![','] + emit_arr_field(
        key_arch(),
        e.arch,
    ) + seq![','] + emit_str_field(key_date(), e.date) + seq![','] + emit_str_field(
        key_version(),
        e.version,
    ) + seq![','] + emit_arr_field(key_driver_list(), e.driver_list) + seq!['}']
}

pub open spec fn emit_entries(v: Seq<InfInfoView>, i: int) -> Seq<char>
    decreases v.len() - i,
    when 0 <= i
{
    if i >= v.len() {
        Seq::<char>::empty()
    } else if i == v.len() - 1 {
        emit_entry(v[i])
    } else {
        emit_entry(v[i]) + seq![','] + emit_entries(v, i + 1)
    }
}

/// The whole serialized index: the entries in an array.
pub open spec fn spec_emit_index(v: Seq<InfInfoView>) -> Seq<char> {
    seq!['['] + emit_entries(v, 0) + seq![']']
}

/// What a short escape letter stands for, if anything: the two quoting
/// characters and the solidus stand for themselves, the five letter escapes
/// for their control characters.
pub open spec fn short_escape(e: char) -> Option<char> {
    if e == '\\' || e == '"' || e == '/' {
        Some(e)
    } else if e == 'b' {
        Some('\u{8}')
    } else if e == 't' {
        Some('\t')
    } else if e == 'n' {
        Some('\n')
    } else if e == 'f' {
        Some('\u{c}')
    } else if e == 'r' {
        Some('\r')
    } else {
        None
    }
}

/// Parses the body of a serialized string from just after the opening
/// quote: the decoded characters and the position after the closing quote.
/// Escapes cover what the writer emits: the short forms, and `\u00XY` for
/// a control character.
pub open spec fn p_chars(s: Seq<char>, i: int) -> Option<(Seq<char>, int)>
    decreases s.len() - i,
    when 0 <= i
{
    if i >= s.len() {
        None
    } else if s[i] == '"' {
        Some((Seq::<char>::empty(), i + 1))
    } else if s[i] == '\\' {
        if i + 1 >= s.len() {
            None
        } else if short_escape(s[i + 1]) is Some {
            match p_chars(s, i + 2) {
                Some(t) => Some((seq![short_escape(s[i + 1])->0] + t.0, t.1)),
                None => None,
            }
        } else if s[i + 1] == 'u' {
            if i + 6 <= s.len() && s[i + 2] == '0' && s[i + 3] == '0' && hex_val(s[i + 4]) >= 0
                && hex_val(s[i + 5]) >= 0 {
                match p_chars(s, i + 6) {
                    Some(t) => Some(
                        (
                            seq![
                                (((16 * hex_val(s[i + 4]) + hex_val(s[i + 5])) as u32) as char),
                            ] + t.0,
                            t.1,
                        ),
                    ),
                    None => None,
                }
            } else {
                None
            }
        } else {
            None
        }
    } else {
        match p_chars(s, i + 1) {
            Some(t) => Some((seq![s[i]] + t.0, t.1)),
            None => None,
        }
    }
}

/// `p_chars` moves forward and stays in bounds.
pub proof fn lemma_p_chars_advances(s: Seq<char>, i: int)
    requires
        0 <= i,
        p_chars(s, i) is Some,
    ensures
        ({
            let t = p_chars(s, i)->0;
            i < t.1 <= s.len()
        }),
    decreases s.len() - i,
{
    if i >= s.len() {
    } else if s[i] == '"' {
    } else if s[i] == '\\' {
        if i + 1 < s.len() && short_escape(s[i + 1]) is Some {
            lemma_p_chars_advances(s, i + 2);
        } else if i + 1 < s.len() && s[i + 1] == 'u' {
            if i + 6 <= s.len() {
                lemma_p_chars_advances(s, i + 6);
            }
        }
    } else {
        lemma_p_chars_advances(s, i + 1);
    }
}

/// Parses a serialized string at `i`, opening quote included.
pub open spec fn p_string(s: Seq<char>, i: int) -> Option<(Seq<char>, int)> {
    if 0 <= i < s.len() && s[i] == '"' {
        p_chars(s, i + 1)
    } else {
        None
    }
}

pub proof fn lemma_p_string_advances(s: Seq<char>, i: int)
    requires
        0 <= i,
        p_string(s, i) is Some,
    ensures
        ({
            let t = p_string(s, i)->0;
            i < t.1 <= s.len()
        }),
{
    lemma_p_chars_advances(s, i + 1);
}

/// Parses the items of a nonempty serialized string array, from the start
/// of its first item.
pub open spec fn p_items(s: Seq<char>, i: int) -> Option<(Seq<Seq<char>>, int)>
    decreases s.len() - i,
    when 0 <= i
    via p_items_decreases
{
    match p_string(s, i) {
        None => None,
        Some(t) => {
            let j = t.1;
            if j >= s.len() {
                None
            } else if s[j] == ',' {
                match p_items(s, j + 1) {
                    Some(u) => Some((seq![t.0] + u.0, u.1)),
                    None => None,
                }
            } else if s[j] == ']' {
                Some((seq![t.0], j + 1))
            } else {
                None
            }
        },
    }
}

#[via_fn]
proof fn p_items_decreases(s: Seq<char>, i: int) {
    if p_string(s, i) is Some {
        lemma_p_string_advances(s, i);
    }
}

pub proof fn lemma_p_items_advances(s: Seq<char>, i: int)
    requires
        0 <= i,
        p_items(s, i) is Some,
    ensures
        ({
            let t = p_items(s, i)->0;
            i < t.1 <= s.len()
        }),
    decreases s.len() - i,
{
    lemma_p_string_advances(s, i);
    let st = p_string(s, i)->0;
    let j = st.1;
    if j < s.len() && s[j] == ',' {
        lemma_p_items_advances(s, j + 1);
    }
}

/// Parses a serialized string array at `i`, brackets included.
pub open spec fn p_array(s: Seq<char>, i: int) -> Option<(Seq<Seq<char>>, int)> {
    if 0 <= i < s.len() && s[i] == '[' {
        if i + 1 < s.len() && s[i + 1] == ']' {
            Some((Seq::<Seq<char>>::empty(), i + 2))
        } else {
            p_items(s, i + 1)
        }
    } else {
        None
    }
}

pub proof fn lemma_p_array_advances(s: Seq<char>, i: int)
    requires
        0 <= i,
        p_array(s, i) is Some,
    ensures
        ({
            let t = p_array(s, i)->0;
            i < t.1 <= s.len()
        }),
{
    if !(i + 1 < s.len() && s[i + 1] == ']') {
        lemma_p_items_advances(s, i + 1);
    }
}

/// An entry with every field empty: what absent fields leave behind.
pub open spec fn empty_entry() -> InfInfoView {
    InfInfoView {
        path: Seq::<char>::empty(),
        inf: Seq::<char>::empty(),
        class: Seq::<char>::empty(),
        arch: Seq::<Seq<char>>::empty(),
        date: Seq::<char>::empty(),
        version: Seq::<char>::empty(),
        driver_list: Seq::<Seq<char>>::empty(),
    }
}

/// Stores a string value under a known key; unknown keys are tolerated and
/// ignored.
pub open spec fn set_str_field(e: InfInfoView, key: Seq<char>, v: Seq<char>) -> InfInfoView {
    if key == key_path() {
        InfInfoView { path: v, ..e }
    } else if key == key_inf() {
        InfInfoView { inf: v, ..e }
    } else if key == key_class() {
        InfInfoView { class: v, ..e }
    } else if key == key_date() {
        InfInfoView { date: v, ..e }
    } else if key == key_version() {
        InfInfoView { version: v, ..e }
    } else {
        e
    }
}

/// Stores an array value under a known key; unknown keys are tolerated and
/// ignored.
pub open spec fn set_arr_field(e: InfInfoView, key: Seq<char>, v: Seq<Seq<char>>) -> InfInfoView {
    if key == key_arch() {
        InfInfoView { arch: v, ..e }
    } else if key == key_driver_list() {
        InfInfoView { driver_list: v, ..e }
    } else {
        e
    }
}

/// Parses an entry's fields from the start of a key, in any order, unknown
/// fields skipped, until the closing brace.
pub open spec fn p_fields(s: Seq<char>, i: int, e: InfInfoView) -> Option<(InfInfoView, int)>
    decreases s.len() - i,
    when 0 <= i
    via p_fields_decreases
{
    match p_string(s, i) {
        None => None,
        Some(kt) => {
            let j = kt.1;
            if j >= s.len() || s[j] != ':' {
                None
            } else if j + 1 < s.len() && s[j + 1] == '"' {
                match p_string(s, j + 1) {
                    None => None,
                    Some(vt) => {
                        let e1 = set_str_field(e, kt.0, vt.0);
                        let k = vt.1;
                        if k >= s.len() {
                            None
                        } else if s[k] == ',' {
                            p_fields(s, k + 1, e1)
                        } else if s[k] == '}' {
                            Some((e1, k + 1))
                        } else {
                            None
                        }
                    },
                }
            } else if j + 1 < s.len() && s[j + 1] == '[' {
                match p_array(s, j + 1) {
                    None => None,
                    Some(vt) => {
                        let e1 = set_arr_field(e, kt.0, vt.0);
                        let k = vt.1;
                        if k >= s.len() {
                            None
                        } else if s[k] == ',' {
                            p_fields(s, k + 1, e1)
                        } else if s[k] == '}' {
                            Some((e1, k + 1))
                        } else {
                            None
                        }
                    },
                }
            } else {
                None
            }
        },
    }
}

#[via_fn]
proof fn p_fields_decreases(s: Seq<char>, i: int, e: InfInfoView) {
    if p_string(s, i) is Some {
        lemma_p_string_advances(s, i);
        let st = p_string(s, i)->0;
        let j = st.1;
        if j < s.len() && s[j] == ':' {
            if j + 1 < s.len() && s[j + 1] == '"' {
                if p_string(s, j + 1) is Some {
                    lemma_p_string_advances(s, j + 1);
                }
            } else if j + 1 < s.len() && s[j + 1] == '[' {
                if p_array(s, j + 1) is Some {
                    lemma_p_array_advances(s, j + 1);
                }
            }
        }
    }
}

pub proof fn lemma_p_fields_advances(s: Seq<char>, i: int, e: InfInfoView)
    requires
        0 <= i,
        p_fields(s, i, e) is Some,
    ensures
        ({
            let t = p_fields(s, i, e)->0;
            i < t.1 <= s.len()
        }),
    decreases s.len() - i,
{
    lemma_p_string_advances(s, i);
    let kt = p_string(s, i)->0;
    let j = kt.1;
    if j < s.len() && s[j] == ':' {
        if j + 1 < s.len() && s[j + 1] == '"' {
            lemma_p_string_advances(s, j + 1);
            let vt = p_string(s, j + 1)->0;
            let e1 = set_str_field(e, kt.0, vt.0);
            if vt.1 < s.len() && s[vt.1] == ',' {
                lemma_p_fields_advances(s, vt.1 + 1, e1);
            }
        } else if j + 1 < s.len() && s[j + 1] == '[' {
            lemma_p_array_advances(s, j + 1);
            let vt = p_array(s, j + 1)->0;
            let e1 = set_arr_field(e, kt.0, vt.0);
            if vt.1 < s.len() && s[vt.1] == ',' {
                lemma_p_fields_advances(s, vt.1 + 1, e1);
            }
        }
    }
}

/// Parses one serialized entry at `i`, braces included.
pub open spec fn p_object(s: Seq<char>, i: int) -> Option<(InfInfoView, int)> {
    if 0 <= i < s.len() && s[i] == '{' {
        if i + 1 < s.len() && s[i + 1] == '}' {
            Some((empty_entry(), i + 2))
        } else {
            p_fields(s, i + 1, empty_entry())
        }
    } else {
        None
    }
}

pub proof fn lemma_p_object_advances(s: Seq<char>, i: int)
    requires
        0 <= i,
        p_object(s, i) is Some,
    ensures
        ({
            let t = p_object(s, i)->0;
            i < t.1 <= s.len()
        }),
{
    if !(i + 1 < s.len() && s[i + 1] == '}') {
        lemma_p_fields_advances(s, i + 1, empty_entry());
    }
}

/// Parses the entries of a nonempty serialized index, from the start of
/// the first entry.
pub open spec fn p_entries(s: Seq<char>, i: int) -> Option<(Seq<InfInfoView>, int)>
    decreases s.len() - i,
    when 0 <= i
    via p_entries_decreases
{
    match p_object(s, i) {
        None => None,
        Some(t) => {
            let j = t.1;
            if j >= s.len() {
                None
            } else if s[j] == ',' {
                match p_entries(s, j + 1) {
                    Some(u) => Some((seq![t.0] + u.0, u.1)),
                    None => None,
                }
            } else if s[j] == ']' {
                Some((seq![t.0], j + 1))
            } else {
                None
            }
        },
    }
}

#[via_fn]
proof fn p_entries_decreases(s: Seq<char>, i: int) {
    if p_object(s, i) is Some {
        lemma_p_object_advances(s, i);
    }
}

/// What parsing a serialized index yields: the entry list, when the text
/// is an array of entries and nothing follows it.
pub open spec fn spec_parse_index(s: Seq<char>) -> Option<Seq<InfInfoView>> {
    if s.len() >= 2 && s[0] == '[' {
        if s[1] == ']' && s.len() == 2 {
            Some(Seq::<InfInfoView>::empty())
        } else {
            match p_entries(s, 1) {
                Some(t) => {
                    if t.1 == s.len() {
                        Some(t.0)
                    } else {
                        None
                    }
                },
                None => None,
            }
        }
    } else {
        None
    }
}

/// Escaping appends: escaping a string with one more character escapes the
/// prefix and then that character.
proof fn lemma_esc_snoc(t: Seq<char>, c: char)
    ensures
        esc(t.push(c)) == esc(t) + esc_char(c),
    decreases t.len(),
{
    reveal(esc);
    if t.len() == 0 {
        assert(t.push(c).drop_first() =~= Seq::<char>::empty());
        assert(t.push(c)[0] == c);
        assert(esc(t.push(c)) == esc_char(c) + esc(Seq::<char>::empty()));
        assert(esc(t.push(c)) =~= esc(t) + esc_char(c));
    } else {
        assert(t.push(c).drop_first() =~= t.drop_first().push(c));
        assert(t.push(c)[0] == t[0]);
        lemma_esc_snoc(t.drop_first(), c);
        assert(esc(t.push(c)) == esc_char(t[0]) + esc(t.drop_first().push(c)));
        assert(esc(t) == esc_char(t[0]) + esc(t.drop_first()));
        assert(esc(t.push(c)) =~= esc(t) + esc_char(c));
    }
}

/// A string without backslashes, quotes or control characters escapes to
/// itself.
proof fn lemma_esc_clean(s: Seq<char>)
    requires
        forall|i: int|
            0 <= i < s.len() ==> s[i] != '\\' && s[i] != '"' && (s[i] as u32) >= 0x20,
    ensures
        esc(s) == s,
    decreases s.len(),
{
    reveal(esc);
    if s.len() > 0 {
        lemma_esc_clean(s.drop_first());
        assert(esc(s) =~= s);
    }
}

/// The hexadecimal digit characters read back as their values.
proof fn lemma_hex_digit_val(x: nat)
    requires
        x < 16,
    ensures
        hex_val(hex_digit(x)) == x,
{
}

/// Parsing a string body right after what escaping wrote returns the
/// original characters and stops after the closing quote.
proof fn lemma_p_chars_inverts(pre: Seq<char>, v: Seq<char>, post: Seq<char>)
    ensures
        ({
            let s = pre + esc(v) + seq!['"'] + post;
            p_chars(s, pre.len() as int) == Some((v, pre.len() as int + esc(v).len() as int + 1))
        }),
    decreases v.len(),
{
    reveal(esc);
    let s = pre + esc(v) + seq!['"'] + post;
    if v.len() == 0 {
        assert(s[pre.len() as int] == '"');
    } else {
        let c = v[0];
        let rest = v.drop_first();
        assert(esc(v) == esc_char(c) + esc(rest));
        let pre2 = pre + esc_char(c);
        assert(s =~= pre2 + esc(rest) + seq!['"'] + post);
        lemma_p_chars_inverts(pre2, rest, post);
        assert(seq![c] + rest =~= v);
        let i = pre.len() as int;
        if c == '\\' || c == '"' {
            assert(s[i] == '\\');
            assert(s[i + 1] == c);
            assert(short_escape(c) == Some(c));
        } else if c == '\u{8}' || c == '\t' || c == '\n' || c == '\u{c}' || c == '\r' {
            assert(s[i] == '\\');
            assert(s[i + 1] == esc_char(c)[1]);
            assert(short_escape(s[i + 1]) == Some(c));
        } else if (c as u32) < 0x20 {
            let hi = ((c as u32) / 16) as nat;
            let lo = ((c as u32) % 16) as nat;
            assert(s[i] == '\\');
            assert(s[i + 1] == 'u');
            assert(s[i + 2] == '0');
            assert(s[i + 3] == '0');
            assert(s[i + 4] == hex_digit(hi));
            assert(s[i + 5] == hex_digit(lo));
            lemma_hex_digit_val(hi);
            lemma_hex_digit_val(lo);
            assert(short_escape('u') is None);
            assert(16 * hex_val(s[i + 4]) + hex_val(s[i + 5]) == c as u32);
            vstd::utf8::char_u32_cast(c, c as u32);
            assert((((16 * hex_val(s[i + 4]) + hex_val(s[i + 5])) as u32) as char) == c);
        } else {
            assert(s[i] == c);
            assert(c != '"' && c != '\\');
        }
        assert(p_chars(s, pre.len() as int) == Some(
            (v, pre.len() as int + esc(v).len() as int + 1),
        ));
    }
}

/// Parsing a serialized string where one was written returns it.
proof fn lemma_p_string_inverts(pre: Seq<char>, v: Seq<char>, post: Seq<char>)
    ensures
        ({
            let s = pre + emit_string(v) + post;
            p_string(s, pre.len() as int) == Some((v, pre.len() as int + emit_string(v).len() as int))
        }),
{
    let s = pre + emit_string(v) + post;
    let pre2 = pre + seq!['"'];
    assert(s =~= pre2 + esc(v) + seq!['"'] + post);
    assert(s[pre.len() as int] == '"');
    lemma_p_chars_inverts(pre2, v, post);
}

/// Emitting from position `i + 1` is emitting the tail from position `i`.
proof fn lemma_emit_items_tail(v: Seq<Seq<char>>, i: int)
    requires
        0 <= i,
        v.len() >= 1,
    ensures
        emit_items(v, i + 1) == emit_items(v.drop_first(), i),
    decreases v.len() - i,
{
    let d = v.drop_first();
    if i + 1 >= v.len() {
    } else if i + 1 == v.len() - 1 {
        assert(d[i] == v[i + 1]);
    } else {
        lemma_emit_items_tail(v, i + 1);
        assert(d[i] == v[i + 1]);
    }
}

/// Parsing array items where they were written returns them.
proof fn lemma_p_items_inverts(pre: Seq<char>, vs: Seq<Seq<char>>, post: Seq<char>)
    requires
        vs.len() >= 1,
    ensures
        ({
            let s = pre + emit_items(vs, 0) + seq![']'] + post;
            p_items(s, pre.len() as int) == Some((vs, pre.len() as int + emit_items(vs, 0).len() as int + 1))
        }),
    decreases vs.len(),
{
    let s = pre + emit_items(vs, 0) + seq![']'] + post;
    if vs.len() == 1 {
        assert(emit_items(vs, 0) == emit_string(vs[0]));
        assert(s =~= pre + emit_string(vs[0]) + (seq![']'] + post));
        lemma_p_string_inverts(pre, vs[0], seq![']'] + post);
        let j = pre.len() + emit_string(vs[0]).len();
        assert(s[j as int] == ']');
        assert(seq![vs[0]] =~= vs);
    } else {
        let head = emit_string(vs[0]);
        let tail = emit_items(vs, 1);
        assert(emit_items(vs, 0) == head + seq![','] + tail);
        assert(s =~= pre + head + (seq![','] + tail + seq![']'] + post));
        lemma_p_string_inverts(pre, vs[0], seq![','] + tail + seq![']'] + post);
        let j = pre.len() + head.len();
        assert(s[j as int] == ',');
        let pre2 = pre + head + seq![','];
        lemma_emit_items_tail(vs, 0);
        assert(s =~= pre2 + emit_items(vs.drop_first(), 0) + seq![']'] + post);
        lemma_p_items_inverts(pre2, vs.drop_first(), post);
        assert(seq![vs[0]] + vs.drop_first() =~= vs);
        assert(p_items(s, pre.len() as int) == Some((vs, pre.len() as int + emit_items(vs, 0).len() as int + 1)));
    }
}

/// Parsing a serialized array where one was written returns it.
proof fn lemma_p_array_inverts(pre: Seq<char>, vs: Seq<Seq<char>>, post: Seq<char>)
    ensures
        ({
            let s = pre + emit_array(vs) + post;
            p_array(s, pre.len() as int) == Some((vs, pre.len() as int + emit_array(vs).len() as int))
        }),
{
    let s = pre + emit_array(vs) + post;
    assert(s[pre.len() as int] == '[');
    if vs.len() == 0 {
        assert(emit_items(vs, 0) =~= Seq::<char>::empty());
        assert(s[pre.len() as int + 1] == ']');
        assert(p_array(s, pre.len() as int) == Some((vs, pre.len() as int + emit_array(vs).len() as int)));
    } else {
        let pre2 = pre + seq!['['];
        assert(emit_items(vs, 0)[0] == '"');
        assert(s[pre.len() as int + 1] == '"');
        assert(s =~= pre2 + emit_items(vs, 0) + seq![']'] + post);
        lemma_p_items_inverts(pre2, vs, post);
        assert(p_array(s, pre.len() as int) == Some((vs, pre.len() as int + emit_array(vs).len() as int)));
    }
}

/// No key holds a character that escaping would change.
proof fn lemma_keys_clean()
    ensures
        esc(key_path()) == key_path(),
        esc(key_inf()) == key_inf(),
        esc(key_class()) == key_class(),
        esc(key_arch()) == key_arch(),
        esc(key_date()) == key_date(),
        esc(key_version()) == key_version(),
        esc(key_driver_list()) == key_driver_list(),
{
    lemma_esc_clean(key_path());
    lemma_esc_clean(key_inf());
    lemma_esc_clean(key_class());
    lemma_esc_clean(key_arch());
    lemma_esc_clean(key_date());
    lemma_esc_clean(key_version());
    lemma_esc_clean(key_driver_list());
}

/// After a written string field at `i`, `p_fields` reads exactly that key
/// and value and goes on after the separator.
proof fn lemma_field_str_shape(pre: Seq<char>, key: Seq<char>, v: Seq<char>, post: Seq<char>)
    requires
        forall|i: int|
            0 <= i < key.len() ==> key[i] != '\\' && key[i] != '"' && (key[i] as u32) >= 0x20,
    ensures
        ({
            let s = pre + emit_str_field(key, v) + post;
            &&& p_string(s, pre.len() as int) == Some(
                (key, pre.len() as int + key.len() as int + 2),
            )
            &&& s[pre.len() as int + key.len() as int + 2] == ':'
            &&& p_string(s, pre.len() as int + key.len() as int + 3) == Some(
                (v, pre.len() as int + emit_str_field(key, v).len() as int),
            )
        }),
{
    let s = pre + emit_str_field(key, v) + post;
    lemma_esc_clean(key);
    assert(emit_str_field(key, v) == emit_string(key) + seq![':'] + emit_string(v));
    assert(s =~= pre + emit_string(key) + (seq![':'] + emit_string(v) + post));
    lemma_p_string_inverts(pre, key, seq![':'] + emit_string(v) + post);
    let jk = pre.len() + emit_string(key).len();
    assert(s[jk as int] == ':');
    let pre2 = pre + emit_string(key) + seq![':'];
    assert(s =~= pre2 + emit_string(v) + post);
    lemma_p_string_inverts(pre2, v, post);
}

/// After a written array field at `i`, `p_fields` reads exactly that key
/// and value and goes on after the separator.
proof fn lemma_field_arr_shape(pre: Seq<char>, key: Seq<char>, vs: Seq<Seq<char>>, post: Seq<char>)
    requires
        forall|i: int|
            0 <= i < key.len() ==> key[i] != '\\' && key[i] != '"' && (key[i] as u32) >= 0x20,
    ensures
        ({
            let s = pre + emit_arr_field(key, vs) + post;
            &&& p_string(s, pre.len() as int) == Some(
                (key, pre.len() as int + key.len() as int + 2),
            )
            &&& s[pre.len() as int + key.len() as int + 2] == ':'
            &&& s[pre.len() as int + key.len() as int + 3] == '['
            &&& p_array(s, pre.len() as int + key.len() as int + 3) == Some(
                (vs, pre.len() as int + emit_arr_field(key, vs).len() as int),
            )
        }),
{
    let s = pre + emit_arr_field(key, vs) + post;
    lemma_esc_clean(key);
    assert(emit_arr_field(key, vs) == emit_string(key) + seq![':'] + emit_array(vs));
    assert(s =~= pre + emit_string(key) + (seq![':'] + emit_array(vs) + post));
    lemma_p_string_inverts(pre, key, seq![':'] + emit_array(vs) + post);
    let jk = pre.len() + emit_string(key).len();
    assert(s[jk as int] == ':');
    let pre2 = pre + emit_string(key) + seq![':'];
    assert(s =~= pre2 + emit_array(vs) + post);
    lemma_p_array_inverts(pre2, vs, post);
    assert(s[pre.len() as int + key.len() as int + 3] == '[');
}

/// One field step of the entry parse.
#[verifier::rlimit(100)]
proof fn lemma_obj_step1(pre: Seq<char>, e: InfInfoView, post: Seq<char>)
    ensures
        ({
            let s = pre + emit_entry(e) + post;
    let f1 = emit_str_field(key_path(), e.path);
    let f2 = emit_str_field(key_inf(), e.inf);
    let f3 = emit_str_field(key_class(), e.class);
    let f4 = emit_arr_field(key_arch(), e.arch);
    let f5 = emit_str_field(key_date(), e.date);
    let f6 = emit_str_field(key_version(), e.version);
    let f7 = emit_arr_field(key_driver_list(), e.driver_list);
            p_fields(s, (pre + seq!['{']).len() as int, empty_entry()) == p_fields(
            s,
            (pre + seq!['{']).len() as int + f1.len() as int + 1,
            set_str_field(empty_entry(), key_path(), e.path),
        )
        }),
{
    let s = pre + emit_entry(e) + post;
    let f1 = emit_str_field(key_path(), e.path);
    let f2 = emit_str_field(key_inf(), e.inf);
    let f3 = emit_str_field(key_class(), e.class);
    let f4 = emit_arr_field(key_arch(), e.arch);
    let f5 = emit_str_field(key_date(), e.date);
    let f6 = emit_str_field(key_version(), e.version);
    let f7 = emit_arr_field(key_driver_list(), e.driver_list);
    let prek = pre + seq!['{'];
    let rest = seq![','] + f2 + seq![','] + f3 + seq![','] + f4 + seq![','] + f5 + seq![','] + f6 + seq![','] + f7 + seq!['}'] + post;
    assert(s =~= prek + f1 + rest);
    lemma_field_str_shape(prek, key_path(), e.path, rest);
    assert(s[prek.len() as int + f1.len() as int] == ',');
}

/// One field step of the entry parse.
#[verifier::rlimit(100)]
proof fn lemma_obj_step2(pre: Seq<char>, e: InfInfoView, post: Seq<char>)
    ensures
        ({
            let s = pre + emit_entry(e) + post;
    let f1 = emit_str_field(key_path(), e.path);
    let f2 = emit_str_field(key_inf(), e.inf);
    let f3 = emit_str_field(key_class(), e.class);
    let f4 = emit_arr_field(key_arch(), e.arch);
    let f5 = emit_str_field(key_date(), e.date);
    let f6 = emit_str_field(key_version(), e.version);
    let f7 = emit_arr_field(key_driver_list(), e.driver_list);
            p_fields(s, (pre + seq!['{'] + f1 + seq![',']).len() as int, set_str_field(empty_entry(), key_path(), e.path)) == p_fields(
            s,
            (pre + seq!['{'] + f1 + seq![',']).len() as int + f2.len() as int + 1,
            set_str_field(set_str_field(empty_entry(), key_path(), e.path), key_inf(), e.inf),
        )
        }),
{
    let s = pre + emit_entry(e) + post;
    let f1 = emit_str_field(key_path(), e.path);
    let f2 = emit_str_field(key_inf(), e.inf);
    let f3 = emit_str_field(key_class(), e.class);
    let f4 = emit_arr_field(key_arch(), e.arch);
    let f5 = emit_str_field(key_date(), e.date);
    let f6 = emit_str_field(key_version(), e.version);
    let f7 = emit_arr_field(key_driver_list(), e.driver_list);
    let prek = pre + seq!['{'] + f1 + seq![','];
    let rest = seq![','] + f3 + seq![','] + f4 + seq![','] + f5 + seq![','] + f6 + seq![','] + f7 + seq!['}'] + post;
    assert(s =~= prek + f2 + rest);
    lemma_field_str_shape(prek, key_inf(), e.inf, rest);
    assert(s[prek.len() as int + f2.len() as int] == ',');
}

/// One field step of the entry parse.
#[verifier::rlimit(100)]
proof fn lemma_obj_step3(pre: Seq<char>, e: InfInfoView, post: Seq<char>)
    ensures
        ({
            let s = pre + emit_entry(e) + post;
    let f1 = emit_str_field(key_path(), e.path);
    let f2 = emit_str_field(key_inf(), e.inf);
    let f3 = emit_str_field(key_class(), e.class);
    let f4 = emit_arr_field(key_arch(), e.arch);
    let f5 = emit_str_field(key_date(), e.date);
    let f6 = emit_str_field(key_version(), e.version);
    let f7 = emit_arr_field(key_driver_list(), e.driver_list);
            p_fields(s, (pre + seq!['{'] + f1 + seq![','] + f2 + seq![',']).len() as int, set_str_field(set_str_field(empty_entry(), key_path(), e.path), key_inf(), e.inf)) == p_fields(
            s,
            (pre + seq!['{'] + f1 + seq![','] + f2 + seq![',']).len() as int + f3.len() as int + 1,
            set_str_field(set_str_field(set_str_field(empty_entry(), key_path(), e.path), key_inf(), e.inf), key_class(), e.class),
        )
        }),
{
    let s = pre + emit_entry(e) + post;
    let f1 = emit_str_field(key_path(), e.path);
    let f2 = emit_str_field(key_inf(), e.inf);
    let f3 = emit_str_field(key_class(), e.class);
    let f4 = emit_arr_field(key_arch(), e.arch);
    let f5 = emit_str_field(key_date(), e.date);
    let f6 = emit_str_field(key_version(), e.version);
    let f7 = emit_arr_field(key_driver_list(), e.driver_list);
    let prek = pre + seq!['{'] + f1 + seq![','] + f2 + seq![','];
    let rest = seq![','] + f4 + seq![','] + f5 + seq![','] + f6 + seq![','] + f7 + seq!['}'] + post;
    assert(s =~= prek + f3 + rest);
    lemma_field_str_shape(prek, key_class(), e.class, rest);
    assert(s[prek.len() as int + f3.len() as int] == ',');
}

/// One field step of the entry parse.
#[verifier::rlimit(100)]
proof fn lemma_obj_step4(pre: Seq<char>, e: InfInfoView, post: Seq<char>)
    ensures
        ({
            let s = pre + emit_entry(e) + post;
    let f1 = emit_str_field(key_path(), e.path);
    let f2 = emit_str_field(key_inf(), e.inf);
    let f3 = emit_str_field(key_class(), e.class);
    let f4 = emit_arr_field(key_arch(), e.arch);
    let f5 = emit_str_field(key_date(), e.date);
    let f6 = emit_str_field(key_version(), e.version);
    let f7 = emit_arr_field(key_driver_list(), e.driver_list);
            p_fields(s, (pre + seq!['{'] + f1 + seq![','] + f2 + seq![','] + f3 + seq![',']).len() as int, set_str_field(set_str_field(set_str_field(empty_entry(), key_path(), e.path), key_inf(), e.inf), key_class(), e.class)) == p_fields(
            s,
            (pre + seq!['{'] + f1 + seq![','] + f2 + seq![','] + f3 + seq![',']).len() as int + f4.len() as int + 1,
            set_arr_field(set_str_field(set_str_field(set_str_field(empty_entry(), key_path(), e.path), key_inf(), e.inf), key_class(), e.class), key_arch(), e.arch),
        )
        }),
{
    let s = pre + emit_entry(e) + post;
    let f1 = emit_str_field(key_path(), e.path);
    let f2 = emit_str_field(key_inf(), e.inf);
    let f3 = emit_str_field(key_class(), e.class);
    let f4 = emit_arr_field(key_arch(), e.arch);
    let f5 = emit_str_field(key_date(), e.date);
    let f6 = emit_str_field(key_version(), e.version);
    let f7 = emit_arr_field(key_driver_list(), e.driver_list);
    let prek = pre + seq!['{'] + f1 + seq![','] + f2 + seq![','] + f3 + seq![','];
    let rest = seq![','] + f5 + seq![','] + f6 + seq![','] + f7 + seq!['}'] + post;
    assert(s =~= prek + f4 + rest);
    lemma_field_arr_shape(prek, key_arch(), e.arch, rest);
    assert(s[prek.len() as int + f4.len() as int] == ',');
}

/// One field step of the entry parse.
#[verifier::rlimit(100)]
proof fn lemma_obj_step5(pre: Seq<char>, e: InfInfoView, post: Seq<char>)
    ensures
        ({
            let s = pre + emit_entry(e) + post;
    let f1 = emit_str_field(key_path(), e.path);
    let f2 = emit_str_field(key_inf(), e.inf);
    let f3 = emit_str_field(key_class(), e.class);
    let f4 = emit_arr_field(key_arch(), e.arch);
    let f5 = emit_str_field(key_date(), e.date);
    let f6 = emit_str_field(key_version(), e.version);
    let f7 = emit_arr_field(key_driver_list(), e.driver_list);
            p_fields(s, (pre + seq!['{'] + f1 + seq![','] + f2 + seq![','] + f3 + seq![','] + f4 + seq![',']).len() as int, set_arr_field(set_str_field(set_str_field(set_str_field(empty_entry(), key_path(), e.path), key_inf(), e.inf), key_class(), e.class), key_arch(), e.arch)) == p_fields(
            s,
            (pre + seq!['{'] + f1 + seq![','] + f2 + seq![','] + f3 + seq![','] + f4 + seq![',']).len() as int + f5.len() as int + 1,
            set_str_field(set_arr_field(set_str_field(set_str_field(set_str_field(empty_entry(), key_path(), e.path), key_inf(), e.inf), key_class(), e.class), key_arch(), e.arch), key_date(), e.date),
        )
        }),
{
    let s = pre + emit_entry(e) + post;
    let f1 = emit_str_field(key_path(), e.path);
    let f2 = emit_str_field(key_inf(), e.inf);
    let f3 = emit_str_field(key_class(), e.class);
    let f4 = emit_arr_field(key_arch(), e.arch);
    let f5 = emit_str_field(key_date(), e.date);
    let f6 = emit_str_field(key_version(), e.version);
    let f7 = emit_arr_field(key_driver_list(), e.driver_list);
    let prek = pre + seq!['{'] + f1 + seq![','] + f2 + seq![','] + f3 + seq![','] + f4 + seq![','];
    let rest = seq![','] + f6 + seq![','] + f7 + seq!['}'] + post;
    assert(s =~= prek + f5 + rest);
    lemma_field_str_shape(prek, key_date(), e.date, rest);
    assert(s[prek.len() as int + f5.len() as int] == ',');
}

/// One field step of the entry parse.
#[verifier::rlimit(100)]
proof fn lemma_obj_step6(pre: Seq<char>, e: InfInfoView, post: Seq<char>)
    ensures
        ({
            let s = pre + emit_entry(e) + post;
    let f1 = emit_str_field(key_path(), e.path);
    let f2 = emit_str_field(key_inf(), e.inf);
    let f3 = emit_str_field(key_class(), e.class);
    let f4 = emit_arr_field(key_arch(), e.arch);
    let f5 = emit_str_field(key_date(), e.date);
    let f6 = emit_str_field(key_version(), e.version);
    let f7 = emit_arr_field(key_driver_list(), e.driver_list);
            p_fields(s, (pre + seq!['{'] + f1 + seq![','] + f2 + seq![','] + f3 + seq![','] + f4 + seq![','] + f5 + seq![',']).len() as int, set_str_field(set_arr_field(set_str_field(set_str_field(set_str_field(empty_entry(), key_path(), e.path), key_inf(), e.inf), key_class(), e.class), key_arch(), e.arch), key_date(), e.date)) == p_fields(
            s,
            (pre + seq!['{'] + f1 + seq![','] + f2 + seq![','] + f3 + seq![','] + f4 + seq![','] + f5 + seq![',']).len() as int + f6.len() as int + 1,
            set_str_field(set_str_field(set_arr_field(set_str_field(set_str_field(set_str_field(empty_entry(), key_path(), e.path), key_inf(), e.inf), key_class(), e.class), key_arch(), e.arch), key_date(), e.date), key_version(), e.version),
        )
        }),
{
    let s = pre + emit_entry(e) + post;
    let f1 = emit_str_field(key_path(), e.path);
    let f2 = emit_str_field(key_inf(), e.inf);
    let f3 = emit_str_field(key_class(), e.class);
    let f4 = emit_arr_field(key_arch(), e.arch);
    let f5 = emit_str_field(key_date(), e.date);
    let f6 = emit_str_field(key_version(), e.version);
    let f7 = emit_arr_field(key_driver_list(), e.driver_list);
    let prek = pre + seq!['{'] + f1 + seq![','] + f2 + seq![','] + f3 + seq![','] + f4 + seq![','] + f5 + seq![','];
    let rest = seq![','] + f7 + seq!['}'] + post;
    assert(s =~= prek + f6 + rest);
    lemma_field_str_shape(prek, key_version(), e.version, rest);
    assert(s[prek.len() as int + f6.len() as int] == ',');
}

/// One field step of the entry parse.
#[verifier::rlimit(100)]
proof fn lemma_obj_step7(pre: Seq<char>, e: InfInfoView, post: Seq<char>)
    ensures
        ({
            let s = pre + emit_entry(e) + post;
    let f1 = emit_str_field(key_path(), e.path);
    let f2 = emit_str_field(key_inf(), e.inf);
    let f3 = emit_str_field(key_class(), e.class);
    let f4 = emit_arr_field(key_arch(), e.arch);
    let f5 = emit_str_field(key_date(), e.date);
    let f6 = emit_str_field(key_version(), e.version);
    let f7 = emit_arr_field(key_driver_list(), e.driver_list);
            p_fields(s, (pre + seq!['{'] + f1 + seq![','] + f2 + seq![','] + f3 + seq![','] + f4 + seq![','] + f5 + seq![','] + f6 + seq![',']).len() as int, set_str_field(set_str_field(set_arr_field(set_str_field(set_str_field(set_str_field(empty_entry(), key_path(), e.path), key_inf(), e.inf), key_class(), e.class), key_arch(), e.arch), key_date(), e.date), key_version(), e.version)) == Some(
            (set_arr_field(set_str_field(set_str_field(set_arr_field(set_str_field(set_str_field(set_str_field(empty_entry(), key_path(), e.path), key_inf(), e.inf), key_class(), e.class), key_arch(), e.arch), key_date(), e.date), key_version(), e.version), key_driver_list(), e.driver_list), (pre + seq!['{'] + f1 + seq![','] + f2 + seq![','] + f3 + seq![','] + f4 + seq![','] + f5 + seq![','] + f6 + seq![',']).len() as int + f7.len() as int + 1),
        )
        }),
{
    let s = pre + emit_entry(e) + post;
    let f1 = emit_str_field(key_path(), e.path);
    let f2 = emit_str_field(key_inf(), e.inf);
    let f3 = emit_str_field(key_class(), e.class);
    let f4 = emit_arr_field(key_arch(), e.arch);
    let f5 = emit_str_field(key_date(), e.date);
    let f6 = emit_str_field(key_version(), e.version);
    let f7 = emit_arr_field(key_driver_list(), e.driver_list);
    let prek = pre + seq!['{'] + f1 + seq![','] + f2 + seq![','] + f3 + seq![','] + f4 + seq![','] + f5 + seq![','] + f6 + seq![','];
    let rest = seq!['}'] + post;
    assert(s =~= prek + f7 + rest);
    lemma_field_arr_shape(prek, key_driver_list(), e.driver_list, rest);
    assert(s[prek.len() as int + f7.len() as int] == '}');
}

/// Parsing an entry where one was written returns exactly that entry.
#[verifier::rlimit(100)]
proof fn lemma_p_object_inverts(pre: Seq<char>, e: InfInfoView, post: Seq<char>)
    ensures
        ({
            let s = pre + emit_entry(e) + post;
            p_object(s, pre.len() as int) == Some(
                (e, pre.len() as int + emit_entry(e).len() as int),
            )
        }),
{
    let s = pre + emit_entry(e) + post;
    let f1 = emit_str_field(key_path(), e.path);
    let f2 = emit_str_field(key_inf(), e.inf);
    let f3 = emit_str_field(key_class(), e.class);
    let f4 = emit_arr_field(key_arch(), e.arch);
    let f5 = emit_str_field(key_date(), e.date);
    let f6 = emit_str_field(key_version(), e.version);
    let f7 = emit_arr_field(key_driver_list(), e.driver_list);
    lemma_obj_step1(pre, e, post);
    lemma_obj_step2(pre, e, post);
    lemma_obj_step3(pre, e, post);
    lemma_obj_step4(pre, e, post);
    lemma_obj_step5(pre, e, post);
    lemma_obj_step6(pre, e, post);
    lemma_obj_step7(pre, e, post);
    let e0 = empty_entry();
    let e1 = set_str_field(e0, key_path(), e.path);
    let e2 = set_str_field(e1, key_inf(), e.inf);
    let e3 = set_str_field(e2, key_class(), e.class);
    let e4 = set_arr_field(e3, key_arch(), e.arch);
    let e5 = set_str_field(e4, key_date(), e.date);
    let e6 = set_str_field(e5, key_version(), e.version);
    let e7 = set_arr_field(e6, key_driver_list(), e.driver_list);
    assert(e7 == e);
    assert(s[pre.len() as int] == '{');
    assert(s[pre.len() as int + 1] == '"');
    assert(p_object(s, pre.len() as int) == Some(
        (e, pre.len() as int + emit_entry(e).len() as int),
    ));
}

/// Emitting entries from position `i + 1` is emitting the tail from `i`.
proof fn lemma_emit_entries_tail(v: Seq<InfInfoView>, i: int)
    requires
        0 <= i,
        v.len() >= 1,
    ensures
        emit_entries(v, i + 1) == emit_entries(v.drop_first(), i),
    decreases v.len() - i,
{
    let d = v.drop_first();
    if i + 1 >= v.len() {
    } else if i + 1 == v.len() - 1 {
        assert(d[i] == v[i + 1]);
    } else {
        lemma_emit_entries_tail(v, i + 1);
        assert(d[i] == v[i + 1]);
    }
}

/// Parsing the entry list: the single-entry case.
#[verifier::rlimit(100)]
proof fn lemma_p_entries_single(pre: Seq<char>, v0: InfInfoView, post: Seq<char>)
    ensures
        ({
            let s = pre + emit_entry(v0) + seq![']'] + post;
            p_entries(s, pre.len() as int) == Some(
                (seq![v0], pre.len() as int + emit_entry(v0).len() as int + 1),
            )
        }),
{
    let s = pre + emit_entry(v0) + seq![']'] + post;
    assert(s =~= pre + emit_entry(v0) + (seq![']'] + post));
    lemma_p_object_inverts(pre, v0, seq![']'] + post);
    let j = pre.len() as int + emit_entry(v0).len() as int;
    assert(s[j] == ']');
}

/// Parsing the entry list: the first of several entries.
#[verifier::rlimit(100)]
proof fn lemma_p_entries_head(pre: Seq<char>, v0: InfInfoView, mid: Seq<char>, post: Seq<char>)
    ensures
        ({
            let s = pre + emit_entry(v0) + seq![','] + mid + seq![']'] + post;
            &&& p_object(s, pre.len() as int) == Some(
                (v0, pre.len() as int + emit_entry(v0).len() as int),
            )
            &&& s[pre.len() as int + emit_entry(v0).len() as int] == ','
        }),
{
    let s = pre + emit_entry(v0) + seq![','] + mid + seq![']'] + post;
    assert(s =~= pre + emit_entry(v0) + (seq![','] + mid + seq![']'] + post));
    lemma_p_object_inverts(pre, v0, seq![','] + mid + seq![']'] + post);
    let j = pre.len() as int + emit_entry(v0).len() as int;
    assert(s[j] == ',');
}

/// Parsing the entry list where one was written returns it.
#[verifier::rlimit(100)]
proof fn lemma_p_entries_inverts(pre: Seq<char>, vs: Seq<InfInfoView>, post: Seq<char>)
    requires
        vs.len() >= 1,
    ensures
        ({
            let s = pre + emit_entries(vs, 0) + seq![']'] + post;
            p_entries(s, pre.len() as int) == Some(
                (vs, pre.len() as int + emit_entries(vs, 0).len() as int + 1),
            )
        }),
    decreases vs.len(),
{
    let s = pre + emit_entries(vs, 0) + seq![']'] + post;
    if vs.len() == 1 {
        assert(emit_entries(vs, 0) == emit_entry(vs[0]));
        lemma_p_entries_single(pre, vs[0], post);
        assert(seq![vs[0]] =~= vs);
    } else {
        let head = emit_entry(vs[0]);
        let tail = emit_entries(vs, 1);
        assert(emit_entries(vs, 0) == head + seq![','] + tail);
        assert(s =~= pre + head + seq![','] + tail + seq![']'] + post);
        lemma_p_entries_head(pre, vs[0], tail, post);
        let j = pre.len() as int + head.len() as int;
        let pre2 = pre + head + seq![','];
        lemma_emit_entries_tail(vs, 0);
        assert(s =~= pre2 + emit_entries(vs.drop_first(), 0) + seq![']'] + post);
        lemma_p_entries_inverts(pre2, vs.drop_first(), post);
        assert(seq![vs[0]] + vs.drop_first() =~= vs);
        assert(p_entries(s, pre.len() as int) == Some(
            (vs, pre.len() as int + emit_entries(vs, 0).len() as int + 1),
        ));
    }
}

/// Round trip: reading a written index back returns the original entries,
/// whatever characters their fields hold.
pub proof fn lemma_index_round_trip(entries: Seq<InfInfoView>)
    ensures
        spec_parse_index(spec_emit_index(entries)) == Some(entries),
{
    let s = spec_emit_index(entries);
    assert(s[0] == '[');
    if entries.len() == 0 {
        assert(emit_entries(entries, 0) =~= Seq::<char>::empty());
        assert(s.len() == 2);
        assert(s[1] == ']');
        assert(entries =~= Seq::<InfInfoView>::empty());
    } else {
        assert(emit_entries(entries, 0)[0] == '{');
        assert(s[1] == '{');
        let pre = seq!['['];
        assert(s =~= pre + emit_entries(entries, 0) + seq![']'] + Seq::<char>::empty());
        lemma_p_entries_inverts(pre, entries, Seq::<char>::empty());
        assert(p_entries(s, 1) == Some((entries, s.len() as int)));
    }
}

/// The lower-case hexadecimal digit character for a value below sixteen.
fn hex_digit_x(v: u8) -> (r: char)
    requires
        v < 16,
    ensures
        r == hex_digit(v as nat),
{
    if v == 0 {
        '0'
    } else if v == 1 {
        '1'
    } else if v == 2 {
        '2'
    } else if v == 3 {
        '3'
    } else if v == 4 {
        '4'
    } else if v == 5 {
        '5'
    } else if v == 6 {
        '6'
    } else if v == 7 {
        '7'
    } else if v == 8 {
        '8'
    } else if v == 9 {
        '9'
    } else if v == 10 {
        'a'
    } else if v == 11 {
        'b'
    } else if v == 12 {
        'c'
    } else if v == 13 {
        'd'
    } else if v == 14 {
        'e'
    } else {
        'f'
    }
}

/// Appends the escaped characters of `v`.
fn emit_esc_x(out: &mut Vec<char>, v: &[char])
    ensures
        final(out)@ == old(out)@ + esc(v@),
{
    let n: usize = v.len();
    let mut i: usize = 0;
    proof {
        reveal(esc);
        assert(v@.take(0) =~= Seq::<char>::empty());
        assert(out@ =~= old(out)@ + esc(v@.take(0)));
    }
    while i < n
        invariant
            n == v@.len(),
            i <= n,
            out@ == old(out)@ + esc(v@.take(i as int)),
        decreases n - i,
    {
        let c = v[i];
        proof {
            assert(v@.take(i + 1) =~= v@.take(i as int).push(v@[i as int]));
            lemma_esc_snoc(v@.take(i as int), v@[i as int]);
        }
        if c == '\\' || c == '"' {
            out.push('\\');
            out.push(c);
        } else if c == '\u{8}' {
            out.push('\\');
            out.push('b');
        } else if c == '\t' {
            out.push('\\');
            out.push('t');
        } else if c == '\n' {
            out.push('\\');
            out.push('n');
        } else if c == '\u{c}' {
            out.push('\\');
            out.push('f');
        } else if c == '\r' {
            out.push('\\');
            out.push('r');
        } else if (c as u32) < 0x20 {
            out.push('\\');
            out.push('u');
            out.push('0');
            out.push('0');
            out.push(hex_digit_x(((c as u32) / 16) as u8));
            out.push(hex_digit_x(((c as u32) % 16) as u8));
        } else {
            out.push(c);
        }
        proof {
            assert(out@ =~= old(out)@ + esc(v@.take(i + 1)));
        }
        i += 1;
    }
    proof {
        assert(v@.take(n as int) =~= v@);
    }
}

/// Appends one serialized string.
fn emit_string_x(out: &mut Vec<char>, s: &str)
    ensures
        final(out)@ == old(out)@ + emit_string(s@),
{
    let v = crate::text::chars_vec(s);
    out.push('"');
    emit_esc_x(out, v.as_slice());
    out.push('"');
    proof {
        assert(out@ =~= old(out)@ + emit_string(s@));
    }
}

/// Appends the items of a nonempty serialized array, from item `i`.
fn emit_items_x(out: &mut Vec<char>, v: &Vec<String>, i: usize)
    requires
        i < v@.len(),
    ensures
        final(out)@ == old(out)@ + emit_items(v.deep_view(), i as int),
    decreases v@.len() - i,
{
    proof {
        assert(v.deep_view()[i as int] == v@[i as int]@);
    }
    emit_string_x(out, v[i].as_str());
    if v.len() - i > 1 {
        out.push(',');
        emit_items_x(out, v, i + 1);
        proof {
            assert(out@ =~= old(out)@ + emit_items(v.deep_view(), i as int));
        }
    } else {
        proof {
            assert(i as int == v.deep_view().len() - 1);
        }
    }
}

/// Appends one serialized string array.
fn emit_array_x(out: &mut Vec<char>, v: &Vec<String>)
    ensures
        final(out)@ == old(out)@ + emit_array(v.deep_view()),
{
    out.push('[');
    if v.len() > 0 {
        emit_items_x(out, v, 0);
    } else {
        proof {
            assert(emit_items(v.deep_view(), 0) =~= Seq::<char>::empty());
        }
    }
    out.push(']');
    proof {
        assert(out@ =~= old(out)@ + emit_array(v.deep_view()));
    }
}

/// Appends a quoted key and its colon.
fn emit_key_x(out: &mut Vec<char>, key: &[char])
    ensures
        final(out)@ == old(out)@ + seq!['"'] + key@ + seq!['"', ':'],
{
    out.push('"');
    crate::text::extend_vec(out, key);
    out.push('"');
    out.push(':');
    proof {
        assert(out@ =~= old(out)@ + seq!['"'] + key@ + seq!['"', ':']);
    }
}

/// Appends one serialized entry.
#[verifier::rlimit(50)]
fn emit_entry_x(out: &mut Vec<char>, e: &InfInfo)
    ensures
        final(out)@ == old(out)@ + emit_entry(e@),
{
    let kpath: Vec<char> = vec!['P', 'a', 't', 'h'];
    let kinf: Vec<char> = vec!['I', 'n', 'f'];
    let kclass: Vec<char> = vec!['C', 'l', 'a', 's', 's'];
    let karch: Vec<char> = vec!['A', 'r', 'c', 'h'];
    let kdate: Vec<char> = vec!['D', 'a', 't', 'e'];
    let kversion: Vec<char> = vec!['V', 'e', 'r', 's', 'i', 'o', 'n'];
    let kdriver: Vec<char> = vec!['D', 'r', 'i', 'v', 'e', 'r', 'L', 'i', 's', 't'];
    proof {
        assert(kpath@ =~= key_path());
        assert(kinf@ =~= key_inf());
        assert(kclass@ =~= key_class());
        assert(karch@ =~= key_arch());
        assert(kdate@ =~= key_date());
        assert(kversion@ =~= key_version());
        assert(kdriver@ =~= key_driver_list());
    }
    out.push('{');
    emit_key_x(out, kpath.as_slice());
    emit_string_x(out, e.Path.as_str());
    out.push(',');
    emit_key_x(out, kinf.as_slice());
    emit_string_x(out, e.Inf.as_str());
    out.push(',');
    emit_key_x(out, kclass.as_slice());
    emit_string_x(out, e.Class.as_str());
    out.push(',');
    emit_key_x(out, karch.as_slice());
    emit_array_x(out, &e.Arch);
    out.push(',');
    emit_key_x(out, kdate.as_slice());
    emit_string_x(out, e.Date.as_str());
    out.push(',');
    emit_key_x(out, kversion.as_slice());
    emit_string_x(out, e.Version.as_str());
    out.push(',');
    emit_key_x(out, kdriver.as_slice());
    emit_array_x(out, &e.DriverList);
    out.push('}');
    proof {
        assert(out@ =~= old(out)@ + emit_entry(e@));
    }
}

/// Appends the serialized entries from entry `i`.
fn emit_entries_x(out: &mut Vec<char>, v: &Vec<InfInfo>, i: usize)
    requires
        i < v@.len(),
    ensures
        final(out)@ == old(out)@ + emit_entries(v.deep_view(), i as int),
    decreases v@.len() - i,
{
    proof {
        assert(v.deep_view()[i as int] == v@[i as int]@);
    }
    emit_entry_x(out, &v[i]);
    if v.len() - i > 1 {
        out.push(',');
        emit_entries_x(out, v, i + 1);
        proof {
            assert(out@ =~= old(out)@ + emit_entries(v.deep_view(), i as int));
        }
    } else {
        proof {
            assert(i as int == v.deep_view().len() - 1);
        }
    }
}

/// Reading a corrupt index file fails with this error.
#[derive(Clone, Copy, Debug, PartialEq, Eq, Structural)]
pub struct IndexCorrupt;

impl InfInfo {
    /// Serializes an index: the entries as a flat list in the persisted
    /// shape. Writing the result to disk is the caller's business.
    #[allow(non_snake_case)]
    pub fn saveIndexFromJson(Data: &Vec<InfInfo>) -> (r: String)
        ensures
            r@ == spec_emit_index(Data.deep_view()),
    {
        let mut out: Vec<char> = Vec::new();
        out.push('[');
        if Data.len() > 0 {
            emit_entries_x(&mut out, Data, 0);
        } else {
            proof {
                assert(emit_entries(Data.deep_view(), 0) =~= Seq::<char>::empty());
            }
        }
        out.push(']');
        proof {
            assert(out@ =~= spec_emit_index(Data.deep_view()));
        }
        crate::text::string_from_chars(out.as_slice())
    }
}

/// The value of a hexadecimal digit character.
fn hex_val_x(c: char) -> (r: Option<u8>)
    ensures
        match r {
            Some(v) => hex_val(c) == v as int,
            None => hex_val(c) < 0,
        },
{
    if '0' <= c && c <= '9' {
        Some(((c as u32) - ('0' as u32)) as u8)
    } else if 'a' <= c && c <= 'f' {
        Some((10 + (c as u32) - ('a' as u32)) as u8)
    } else if 'A' <= c && c <= 'F' {
        Some((10 + (c as u32) - ('A' as u32)) as u8)
    } else {
        None
    }
}

/// The parsed tail with one decoded character put back on its front.
fn cons_char(c: char, t: (Vec<char>, usize)) -> (r: (Vec<char>, usize))
    ensures
        r.0@ == seq![c] + t.0@,
        r.1 == t.1,
{
    let mut v: Vec<char> = Vec::new();
    v.push(c);
    crate::text::extend_vec(&mut v, t.0.as_slice());
    proof {
        assert(v@ =~= seq![c] + t.0@);
    }
    (v, t.1)
}

/// Parses a string body from just after its opening quote.
fn px_chars(s: &[char], i: usize) -> (r: Option<(Vec<char>, usize)>)
    ensures
        match r {
            Some(t) => p_chars(s@, i as int) == Some((t.0@, t.1 as int)),
            None => p_chars(s@, i as int) is None,
        },
    decreases s@.len() - i,
{
    let n: usize = s.len();
    if i >= n {
        return None;
    }
    let c = s[i];
    if c == '"' {
        return Some((Vec::new(), i + 1));
    }
    if c == '\\' {
        if i + 1 >= n {
            return None;
        }
        let e = s[i + 1];
        let short: Option<char> = if e == '\\' || e == '"' || e == '/' {
            Some(e)
        } else if e == 'b' {
            Some('\u{8}')
        } else if e == 't' {
            Some('\t')
        } else if e == 'n' {
            Some('\n')
        } else if e == 'f' {
            Some('\u{c}')
        } else if e == 'r' {
            Some('\r')
        } else {
            None
        };
        proof {
            assert(short == short_escape(s@[i as int + 1]));
        }
        match short {
            Some(u) => {
                match px_chars(s, i + 2) {
                    Some(t) => {
                        return Some(cons_char(u, t));
                    },
                    None => {
                        return None;
                    },
                }
            },
            None => {},
        }
        if e == 'u' {
            if n - i >= 6 && s[i + 2] == '0' && s[i + 3] == '0' {
                let hi = hex_val_x(s[i + 4]);
                let lo = hex_val_x(s[i + 5]);
                match (hi, lo) {
                    (Some(h), Some(l)) => {
                        let code: u8 = 16 * h + l;
                        let ch: char = code as char;
                        proof {
                            assert(code as int == 16 * hex_val(s@[i as int + 4]) + hex_val(
                                s@[i as int + 5],
                            ));
                        }
                        match px_chars(s, i + 6) {
                            Some(t) => {
                                return Some(cons_char(ch, t));
                            },
                            None => {
                                return None;
                            },
                        }
                    },
                    _ => {
                        return None;
                    },
                }
            }
            return None;
        }
        return None;
    }
    match px_chars(s, i + 1) {
        Some(t) => Some(cons_char(c, t)),
        None => None,
    }
}

/// Parses a serialized string at `i`.
fn px_string(s: &[char], i: usize) -> (r: Option<(Vec<char>, usize)>)
    ensures
        match r {
            Some(t) => p_string(s@, i as int) == Some((t.0@, t.1 as int)),
            None => p_string(s@, i as int) is None,
        },
{
    if i < s.len() && s[i] == '"' {
        px_chars(s, i + 1)
    } else {
        None
    }
}

/// Parses the items of a nonempty serialized array.
fn px_items(s: &[char], i: usize) -> (r: Option<(Vec<Vec<char>>, usize)>)
    ensures
        match r {
            Some(t) => p_items(s@, i as int) == Some((t.0.deep_view(), t.1 as int)),
            None => p_items(s@, i as int) is None,
        },
    decreases s@.len() - i,
{
    let first = match px_string(s, i) {
        Some(t) => t,
        None => {
            return None;
        },
    };
    proof {
        lemma_p_string_advances(s@, i as int);
    }
    let j = first.1;
    if j >= s.len() {
        return None;
    }
    if s[j] == ',' {
        match px_items(s, j + 1) {
            Some(u) => {
                let mut v: Vec<Vec<char>> = Vec::new();
                v.push(first.0);
                let ghost prev = v.deep_view();
                let mut rest = u.0;
                let rn: usize = rest.len();
                let mut k: usize = 0;
                let ghost rdv = rest.deep_view();
                while k < rn
                    invariant
                        rest.deep_view() == rdv,
                        rn == rest@.len(),
                        rn == rdv.len(),
                        k <= rn,
                        v.deep_view() == prev + rdv.take(k as int),
                    decreases rn - k,
                {
                    proof {
                        assert(rest.deep_view()[k as int] == rest@[k as int]@);
                    }
                    let ghost pv = v.deep_view();
                    let item = crate::text::sub_vec(rest[k].as_slice(), 0, rest[k].len());
                    proof {
                        assert(item@ =~= rdv[k as int]);
                    }
                    v.push(item);
                    proof {
                        assert(v.deep_view() =~~= pv.push(rdv[k as int]));
                        assert(v.deep_view() =~~= prev + rdv.take(k + 1));
                    }
                    k += 1;
                }
                proof {
                    assert(prev + rdv.take(rn as int) =~= prev + rdv);
                    assert(v.deep_view() =~~= seq![first.0@] + rdv);
                }
                Some((v, u.1))
            },
            None => None,
        }
    } else if s[j] == ']' {
        let mut v: Vec<Vec<char>> = Vec::new();
        v.push(first.0);
        proof {
            assert(v.deep_view() =~~= seq![first.0@]);
        }
        Some((v, j + 1))
    } else {
        None
    }
}

/// Parses a serialized string array at `i`.
fn px_array(s: &[char], i: usize) -> (r: Option<(Vec<Vec<char>>, usize)>)
    ensures
        match r {
            Some(t) => p_array(s@, i as int) == Some((t.0.deep_view(), t.1 as int)),
            None => p_array(s@, i as int) is None,
        },
{
    if i < s.len() && s[i] == '[' {
        if i + 1 < s.len() && s[i + 1] == ']' {
            let v: Vec<Vec<char>> = Vec::new();
            proof {
                assert(v.deep_view() =~~= Seq::<Seq<char>>::empty());
            }
            Some((v, i + 2))
        } else {
            px_items(s, i + 1)
        }
    } else {
        None
    }
}

/// An entry with every field empty.
fn empty_entry_x() -> (r: InfInfo)
    ensures
        r@ == empty_entry(),
{
    let r = InfInfo {
        Path: String::new(),
        Inf: String::new(),
        Class: String::new(),
        Arch: Vec::new(),
        Date: String::new(),
        Version: String::new(),
        DriverList: Vec::new(),
    };
    proof {
        assert(r@.arch =~~= empty_entry().arch);
        assert(r@.driver_list =~~= empty_entry().driver_list);
    }
    r
}

/// Stores a parsed string value under its key.
fn set_str_field_x(e: InfInfo, key: &[char], v: Vec<char>) -> (r: InfInfo)
    ensures
        r@ == set_str_field(e@, key@, v@),
{
    let kpath: Vec<char> = vec!['P', 'a', 't', 'h'];
    let kinf: Vec<char> = vec!['I', 'n', 'f'];
    let kclass: Vec<char> = vec!['C', 'l', 'a', 's', 's'];
    let kdate: Vec<char> = vec!['D', 'a', 't', 'e'];
    let kversion: Vec<char> = vec!['V', 'e', 'r', 's', 'i', 'o', 'n'];
    proof {
        assert(kpath@ =~= key_path());
        assert(kinf@ =~= key_inf());
        assert(kclass@ =~= key_class());
        assert(kdate@ =~= key_date());
        assert(kversion@ =~= key_version());
    }
    let sv = crate::text::string_from_chars(v.as_slice());
    let mut e = e;
    if crate::util::vec_eq_chars(key, kpath.as_slice()) {
        e.Path = sv;
    } else if crate::util::vec_eq_chars(key, kinf.as_slice()) {
        e.Inf = sv;
    } else if crate::util::vec_eq_chars(key, kclass.as_slice()) {
        e.Class = sv;
    } else if crate::util::vec_eq_chars(key, kdate.as_slice()) {
        e.Date = sv;
    } else if crate::util::vec_eq_chars(key, kversion.as_slice()) {
        e.Version = sv;
    }
    e
}

/// Stores a parsed array value under its key.
fn set_arr_field_x(e: InfInfo, key: &[char], v: Vec<Vec<char>>) -> (r: InfInfo)
    ensures
        r@ == set_arr_field(e@, key@, v.deep_view()),
{
    let karch: Vec<char> = vec!['A', 'r', 'c', 'h'];
    let kdriver: Vec<char> = vec!['D', 'r', 'i', 'v', 'e', 'r', 'L', 'i', 's', 't'];
    proof {
        assert(karch@ =~= key_arch());
        assert(kdriver@ =~= key_driver_list());
    }
    let is_arch = crate::util::vec_eq_chars(key, karch.as_slice());
    let is_driver = crate::util::vec_eq_chars(key, kdriver.as_slice());
    if !is_arch && !is_driver {
        return e;
    }
    let ghost vdv = v.deep_view();
    let mut strings: Vec<String> = Vec::new();
    let n: usize = v.len();
    let mut i: usize = 0;
    while i < n
        invariant
            v.deep_view() == vdv,
            n == v@.len(),
            n == vdv.len(),
            i <= n,
            strings.deep_view() == vdv.take(i as int),
        decreases n - i,
    {
        proof {
            assert(v.deep_view()[i as int] == v@[i as int]@);
        }
        let ghost prev = strings.deep_view();
        strings.push(crate::text::string_from_chars(v[i].as_slice()));
        proof {
            assert(strings.deep_view() =~~= prev.push(vdv[i as int]));
            assert(strings.deep_view() =~~= vdv.take(i + 1));
        }
        i += 1;
    }
    proof {
        assert(vdv.take(n as int) =~= vdv);
    }
    let mut e = e;
    if is_arch {
        e.Arch = strings;
    } else {
        e.DriverList = strings;
    }
    e
}

/// Parses an entry's fields from the start of a key.
fn px_fields(s: &[char], i: usize, acc: InfInfo) -> (r: Option<(InfInfo, usize)>)
    ensures
        match r {
            Some(t) => p_fields(s@, i as int, acc@) == Some((t.0@, t.1 as int)),
            None => p_fields(s@, i as int, acc@) is None,
        },
    decreases s@.len() - i,
{
    let key = match px_string(s, i) {
        Some(t) => t,
        None => {
            return None;
        },
    };
    proof {
        lemma_p_string_advances(s@, i as int);
    }
    let j = key.1;
    if j >= s.len() || s[j] != ':' {
        return None;
    }
    if j + 1 < s.len() && s[j + 1] == '"' {
        let vt = match px_string(s, j + 1) {
            Some(t) => t,
            None => {
                return None;
            },
        };
        proof {
            lemma_p_string_advances(s@, j + 1);
        }
        let e1 = set_str_field_x(acc, key.0.as_slice(), vt.0);
        let k = vt.1;
        if k >= s.len() {
            return None;
        }
        if s[k] == ',' {
            return px_fields(s, k + 1, e1);
        }
        if s[k] == '}' {
            return Some((e1, k + 1));
        }
        return None;
    }
    if j + 1 < s.len() && s[j + 1] == '[' {
        let vt = match px_array(s, j + 1) {
            Some(t) => t,
            None => {
                return None;
            },
        };
        proof {
            lemma_p_array_advances(s@, j + 1);
        }
        let e1 = set_arr_field_x(acc, key.0.as_slice(), vt.0);
        let k = vt.1;
        if k >= s.len() {
            return None;
        }
        if s[k] == ',' {
            return px_fields(s, k + 1, e1);
        }
        if s[k] == '}' {
            return Some((e1, k + 1));
        }
        return None;
    }
    None
}

/// Parses one serialized entry at `i`.
fn px_object(s: &[char], i: usize) -> (r: Option<(InfInfo, usize)>)
    ensures
        match r {
            Some(t) => p_object(s@, i as int) == Some((t.0@, t.1 as int)),
            None => p_object(s@, i as int) is None,
        },
{
    if i < s.len() && s[i] == '{' {
        if i + 1 < s.len() && s[i + 1] == '}' {
            Some((empty_entry_x(), i + 2))
        } else {
            px_fields(s, i + 1, empty_entry_x())
        }
    } else {
        None
    }
}

/// Parses the entries of a nonempty serialized index.
fn px_entries(s: &[char], i: usize) -> (r: Option<(Vec<InfInfo>, usize)>)
    ensures
        match r {
            Some(t) => p_entries(s@, i as int) == Some((t.0.deep_view(), t.1 as int)),
            None => p_entries(s@, i as int) is None,
        },
    decreases s@.len() - i,
{
    let first = match px_object(s, i) {
        Some(t) => t,
        None => {
            return None;
        },
    };
    proof {
        lemma_p_object_advances(s@, i as int);
    }
    let j = first.1;
    if j >= s.len() {
        return None;
    }
    if s[j] == ',' {
        match px_entries(s, j + 1) {
            Some(u) => {
                let mut v: Vec<InfInfo> = Vec::new();
                v.push(first.0);
                let ghost prev = v.deep_view();
                let rest = u.0;
                let rn: usize = rest.len();
                let mut k: usize = 0;
                let ghost rdv = rest.deep_view();
                while k < rn
                    invariant
                        rest.deep_view() == rdv,
                        rn == rest@.len(),
                        rn == rdv.len(),
                        k <= rn,
                        v.deep_view() == prev + rdv.take(k as int),
                    decreases rn - k,
                {
                    proof {
                        assert(rest.deep_view()[k as int] == rest@[k as int]@);
                    }
                    let ghost pv = v.deep_view();
                    v.push(rest[k].duplicate());
                    proof {
                        assert(v.deep_view() =~~= pv.push(rdv[k as int]));
                        assert(v.deep_view() =~~= prev + rdv.take(k + 1));
                    }
                    k += 1;
                }
                proof {
                    assert(prev + rdv.take(rn as int) =~= prev + rdv);
                    assert(v.deep_view() =~~= seq![first.0@] + rdv);
                }
                Some((v, u.1))
            },
            None => None,
        }
    } else if s[j] == ']' {
        let mut v: Vec<InfInfo> = Vec::new();
        v.push(first.0);
        proof {
            assert(v.deep_view() =~~= seq![first.0@]);
        }
        Some((v, j + 1))
    } else {
        None
    }
}

impl InfInfo {
    /// Deserializes an index: succeeds exactly when the text is a
    /// well-formed serialized entry list, and then returns those entries.
    #[allow(non_snake_case)]
    pub fn parsingIndex(content: &str) -> (r: Result<Vec<InfInfo>, IndexCorrupt>)
        ensures
            match r {
                Ok(es) => spec_parse_index(content@) == Some(es.deep_view()),
                Err(_) => spec_parse_index(content@) is None,
            },
    {
        let s = crate::text::chars_vec(content);
        let n: usize = s.len();
        if n < 2 || s[0] != '[' {
            return Err(IndexCorrupt);
        }
        if s[1] == ']' && n == 2 {
            let v: Vec<InfInfo> = Vec::new();
            proof {
                assert(v.deep_view() =~~= Seq::<InfInfoView>::empty());
            }
            return Ok(v);
        }
        match px_entries(s.as_slice(), 1) {
            Some(t) => {
                if t.1 == n {
                    Ok(t.0)
                } else {
                    Err(IndexCorrupt)
                }
            },
            None => Err(IndexCorrupt),
        }
    }
}

/// What indexing keeps: every successfully parsed entry with at least one
/// hardware ID, in input order.
pub open spec fn spec_kept_entries(rs: Seq<Result<InfInfo, ParseError>>) -> Seq<InfInfoView>
    decreases rs.len(),
{
    if rs.len() == 0 {
        Seq::<InfInfoView>::empty()
    } else {
        let rest = spec_kept_entries(rs.drop_last());
        match rs.last() {
            Ok(e) => if e@.driver_list.len() > 0 {
                rest.push(e@)
            } else {
                rest
            },
            Err(_) => rest,
        }
    }
}

/// How many results parsed and carry a hardware ID.
pub open spec fn spec_success_count(rs: Seq<Result<InfInfo, ParseError>>) -> nat
    decreases rs.len(),
{
    if rs.len() == 0 {
        0
    } else {
        spec_success_count(rs.drop_last()) + match rs.last() {
            Ok(e) => if e@.driver_list.len() > 0 {
                1nat
            } else {
                0nat
            },
            Err(_) => 0nat,
        }
    }
}

/// How many results parsed but declare no hardware ID.
pub open spec fn spec_blank_count(rs: Seq<Result<InfInfo, ParseError>>) -> nat
    decreases rs.len(),
{
    if rs.len() == 0 {
        0
    } else {
        spec_blank_count(rs.drop_last()) + match rs.last() {
            Ok(e) => if e@.driver_list.len() == 0 {
                1nat
            } else {
                0nat
            },
            Err(_) => 0nat,
        }
    }
}

/// How many results failed to parse.
pub open spec fn spec_error_count(rs: Seq<Result<InfInfo, ParseError>>) -> nat
    decreases rs.len(),
{
    if rs.len() == 0 {
        0
    } else {
        spec_error_count(rs.drop_last()) + match rs.last() {
            Ok(_) => 0nat,
            Err(_) => 1nat,
        }
    }
}

/// The indexing summary: how many files parsed with hardware IDs, how many
/// parsed blank, and how many failed.
pub struct IndexCounts {
    pub success: usize,
    pub error: usize,
    pub blank: usize,
}

/// Aggregates per-file parse results into the index: failed files and
/// entries without hardware IDs are dropped and counted, the rest are kept
/// in order.
pub fn build_index(results: Vec<Result<InfInfo, ParseError>>) -> (r: (Vec<InfInfo>, IndexCounts))
    ensures
        r.0.deep_view() == spec_kept_entries(results@),
        r.1.success == spec_success_count(results@),
        r.1.blank == spec_blank_count(results@),
        r.1.error == spec_error_count(results@),
        r.1.success + r.1.blank + r.1.error == results@.len(),
{
    let ghost rsv = results@;
    proof {
        lemma_count_total(rsv);
    }
    let mut kept: Vec<InfInfo> = Vec::new();
    let mut success: usize = 0;
    let mut error: usize = 0;
    let mut blank: usize = 0;
    let n: usize = results.len();
    let mut i: usize = 0;
    let results = results;
    proof {
        assert(rsv.take(0) =~= Seq::<Result<InfInfo, ParseError>>::empty());
        assert(kept.deep_view() =~~= spec_kept_entries(rsv.take(0)));
        lemma_count_total(rsv.take(0));
    }
    while i < n
        invariant
            results@ == rsv,
            n == rsv.len(),
            i <= n,
            kept.deep_view() == spec_kept_entries(rsv.take(i as int)),
            success == spec_success_count(rsv.take(i as int)),
            blank == spec_blank_count(rsv.take(i as int)),
            error == spec_error_count(rsv.take(i as int)),
            success + blank + error == i,
        decreases n - i,
    {
        proof {
            assert(rsv.take(i + 1).drop_last() =~= rsv.take(i as int));
            assert(rsv.take(i + 1).last() == rsv[i as int]);
        }
        match &results[i] {
            Ok(e) => {
                if e.DriverList.len() > 0 {
                    proof {
                        assert(e@.driver_list.len() > 0);
                    }
                    let ghost prev = kept.deep_view();
                    kept.push(e.duplicate());
                    success += 1;
                    proof {
                        assert(kept.deep_view() =~~= prev.push(rsv[i as int]->Ok_0@));
                    }
                } else {
                    proof {
                        assert(e@.driver_list.len() == 0);
                    }
                    blank += 1;
                }
            },
            Err(_) => {
                error += 1;
            },
        }
        i += 1;
    }
    proof {
        assert(rsv.take(n as int) =~= rsv);
    }
    (kept, IndexCounts { success, error, blank })
}

/// The three counters cover every result exactly once.
proof fn lemma_count_total(rs: Seq<Result<InfInfo, ParseError>>)
    ensures
        spec_success_count(rs) + spec_blank_count(rs) + spec_error_count(rs) == rs.len(),
    decreases rs.len(),
{
    if rs.len() > 0 {
        lemma_count_total(rs.drop_last());
    }
}

} // verus!
