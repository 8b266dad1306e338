//! The persisted configuration file: `key=value` lines, how the settings are
//! written into it and read back, and restoring the chosen font into the
//! font picker.

use crate::filesystem::{decimal, push_decimal};
use crate::graph::settings::{FontFamily, FontPicker};
use crate::strings::{
    ascii_ws, byte_pos, bytes_eq, empty_string, find_byte, lemma_ascii_boundary, lemma_byte_pos,
    lemma_ends_boundary, lemma_lines_first, push_ascii, push_str, sb, skip_ws, skip_ws_back,
    split_lines, str_slice, text_lines, to_string, trim, trim_bytes, utf8, views_of, ws2, ws3,
    ws_len_at, ws_len_before,
};
use vstd::prelude::*;

verus! {

broadcast use vstd::utf8::group_utf8_lib;

/// The `key` and raw value of a `key=value` line, split at the first `=`
/// once the line is trimmed.
pub open spec fn key_value(l: Seq<u8>) -> Option<(Seq<u8>, Seq<u8>)> {
    let t = trim_bytes(l);
    let c = byte_pos(t, 0x3d, 0);
    if c < t.len() {
        Some((t.subrange(0, c), t.subrange(c + 1, t.len() as int)))
    } else {
        None
    }
}

/// The trimmed value of the first line at or after `i` that sets `key`.
pub open spec fn value_from(ls: Seq<Seq<u8>>, i: int, key: Seq<u8>) -> Option<Seq<u8>>
    decreases ls.len() - i,
{
    if 0 <= i < ls.len() {
        match key_value(ls[i]) {
            Some(kv) => if kv.0 == key {
                Some(trim_bytes(kv.1))
            } else {
                value_from(ls, i + 1, key)
            },
            None => value_from(ls, i + 1, key),
        }
    } else {
        None
    }
}

/// The value of `key` on one line, if the line sets it.
fn line_sets<'a>(raw: &'a str, key: &str) -> (r: Option<&'a str>)
    ensures
        match key_value(sb(raw)) {
            Some(kv) => if kv.0 == sb(key) {
                r matches Some(v) && sb(v) == trim_bytes(kv.1)
            } else {
                r is None
            },
            None => r is None,
        },
{
    let line = trim(raw);
    let b = line.as_bytes();
    let n = b.len();
    let c = find_byte(b, 0x3d, 0);
    if c >= n {
        return None;
    }
    proof {
        lemma_byte_pos(b@, 0x3d, 0);
        lemma_ascii_boundary(b@, c as int);
        lemma_ends_boundary(b@);
    }
    let k = str_slice(line, 0, c);
    if bytes_eq(k.as_bytes(), key.as_bytes()) {
        Some(trim(str_slice(line, c + 1, n)))
    } else {
        None
    }
}

/// The value of the first `key=` line in `text`, trimmed.
pub fn line_value<'a>(text: &'a str, key: &str) -> (r: Option<&'a str>)
    ensures
        match r {
            Some(v) => value_from(text_lines(sb(text)), 0, sb(key)) == Some(sb(v)),
            None => value_from(text_lines(sb(text)), 0, sb(key)) is None,
        },
{
    let lines = split_lines(text);
    let ghost ls = views_of(lines@);
    let mut i: usize = 0;
    while i < lines.len()
        invariant
            ls == views_of(lines@),
            ls == text_lines(sb(text)),
            i <= lines@.len(),
            value_from(ls, 0, sb(key)) == value_from(ls, i as int, sb(key)),
        decreases lines@.len() - i,
    {
        match line_sets(lines[i], key) {
            Some(v) => {
                return Some(v);
            },
            None => {},
        }
        i = i + 1;
    }
    None
}

/// The name the picker points at: empty for the default row 0, for no
/// selection and for a row past the list.
pub open spec fn font_name_spec(fonts: Seq<FontFamily>, selected: Option<usize>) -> Seq<u8> {
    match selected {
        Some(i) => if 0 < i < fonts.len() {
            utf8(fonts[i as int].name@)
        } else {
            Seq::empty()
        },
        None => Seq::empty(),
    }
}

/// Name of the font the picker points at, or `""` for the built-in default.
pub fn current_font_name(picker: &FontPicker) -> (r: String)
    ensures
        utf8(r@) == font_name_spec(picker.fonts@, picker.selected),
{
    match picker.selected {
        Some(i) => {
            if i > 0 && i < picker.fonts.len() {
                return picker.fonts[i].name.clone();
            }
            empty_string()
        },
        None => empty_string(),
    }
}

/// Index of the first family at or after `i` named `name`.
pub open spec fn name_index(fonts: Seq<FontFamily>, name: Seq<u8>, i: int) -> Option<int>
    decreases fonts.len() - i,
{
    if 0 <= i < fonts.len() {
        if utf8(fonts[i].name@) == name {
            Some(i)
        } else {
            name_index(fonts, name, i + 1)
        }
    } else {
        None
    }
}

/// The row a persisted font name restores: the first family of that name,
/// or the default row 0 for an empty name or one no longer listed.
pub open spec fn apply_index(fonts: Seq<FontFamily>, name: Seq<u8>) -> int {
    if name.len() == 0 {
        0
    } else {
        match name_index(fonts, name, 0) {
            Some(i) => i,
            None => 0,
        }
    }
}

/// Restores a persisted font family: points the picker at it and requests
/// its loading. Does nothing while the list is empty.
pub fn apply_font(picker: &mut FontPicker, name: String)
    ensures
        final(picker).fonts == old(picker).fonts,
        old(picker).fonts@.len() > 0 ==> {
            let idx = apply_index(old(picker).fonts@, utf8(name@));
            &&& final(picker).selected == Some(idx as usize)
            &&& final(picker).request_load == Some(idx as usize)
        },
        old(picker).fonts@.len() == 0 ==> final(picker).selected == old(picker).selected
            && final(picker).request_load == old(picker).request_load,
{
    let nb = name.as_str().as_bytes();
    let ghost fonts = picker.fonts@;
    let mut idx: usize = 0;
    if nb.len() > 0 {
        let mut i: usize = 0;
        while i < picker.fonts.len()
            invariant
                fonts == picker.fonts@,
                nb@ == utf8(name@),
                i <= fonts.len(),
                name_index(fonts, nb@, 0) == name_index(fonts, nb@, i as int),
            ensures
                i <= fonts.len(),
                name_index(fonts, nb@, 0) == name_index(fonts, nb@, i as int),
                i < fonts.len() ==> utf8(fonts[i as int].name@) == nb@,
            decreases fonts.len() - i,
        {
            if bytes_eq(picker.fonts[i].name.as_str().as_bytes(), nb) {
                break;
            }
            i = i + 1;
        }
        if i < picker.fonts.len() {
            idx = i;
        }
        proof {
            if i < fonts.len() {
                assert(name_index(fonts, nb@, i as int) == Some(i as int));
            }
        }
    }
    if picker.fonts.len() > 0 {
        picker.selected = Some(idx);
        picker.request_load = Some(idx);
    }
}

/// Saving the picker's font name and restoring it points the picker back at
/// the same family, when that family is the first listed under its name
/// and the name is not empty.
pub proof fn lemma_font_round_trip(fonts: Seq<FontFamily>, i: usize)
    requires
        0 < i < fonts.len(),
        utf8(fonts[i as int].name@).len() > 0,
        forall|j: int| 0 <= j < i ==> utf8(fonts[j].name@) != utf8(fonts[i as int].name@),
    ensures
        apply_index(fonts, font_name_spec(fonts, Some(i))) == i,
{
    let name = utf8(fonts[i as int].name@);
    assert forall|k: int| 0 <= k <= i implies name_index(fonts, name, k) == Some(i as int) by {
        lemma_name_index_from(fonts, name, k, i as int);
    }
}

proof fn lemma_name_index_from(fonts: Seq<FontFamily>, name: Seq<u8>, k: int, i: int)
    requires
        0 <= k <= i < fonts.len(),
        utf8(fonts[i].name@) == name,
        forall|j: int| 0 <= j < i ==> utf8(fonts[j].name@) != name,
    ensures
        name_index(fonts, name, k) == Some(i),
    decreases i - k,
{
    if k < i {
        lemma_name_index_from(fonts, name, k + 1, i);
    }
}

/// Restoring a name no family carries, or an empty one, falls back to the
/// default row 0.
pub proof fn lemma_unknown_font_falls_back(fonts: Seq<FontFamily>, name: Seq<u8>)
    requires
        forall|j: int| 0 <= j < fonts.len() ==> utf8(fonts[j].name@) != name,
    ensures
        apply_index(fonts, name) == 0,
{
    if name.len() > 0 {
        lemma_name_index_none(fonts, name, 0);
    }
}

proof fn lemma_name_index_none(fonts: Seq<FontFamily>, name: Seq<u8>, k: int)
    requires
        0 <= k,
        forall|j: int| 0 <= j < fonts.len() ==> utf8(fonts[j].name@) != name,
    ensures
        name_index(fonts, name, k) is None,
    decreases fonts.len() - k,
{
    if k < fonts.len() {
        lemma_name_index_none(fonts, name, k + 1);
    }
}



/// The decimal text `{}` writes for an integer: a `-` before the digits of
/// a negative one.
pub open spec fn int_text(w: int) -> Seq<u8> {
    if w < 0 {
        seq![0x2du8] + decimal((-w) as nat)
    } else {
        decimal(w as nat)
    }
}

/// Every byte is an ASCII digit.
pub open spec fn all_digits(d: Seq<u8>) -> bool {
    forall|j: int| 0 <= j < d.len() ==> 0x30 <= #[trigger] d[j] <= 0x39
}

/// The number the ASCII digits `d` spell.
pub open spec fn digits_value(d: Seq<u8>) -> int
    decreases d.len(),
{
    if d.len() == 0 {
        0
    } else {
        digits_value(d.drop_last()) * 10 + (d.last() - 0x30)
    }
}

/// `i32::from_str`: an optional `+` or `-`, then one or more ASCII digits
/// whose value fits; anything else is an error.
pub open spec fn parsed_i32(b: Seq<u8>) -> Option<i32> {
    let signed = b.len() > 0 && (b[0] == 0x2d || b[0] == 0x2b);
    let d = if signed {
        b.skip(1)
    } else {
        b
    };
    let v = if b.len() > 0 && b[0] == 0x2d {
        -digits_value(d)
    } else {
        digits_value(d)
    };
    if d.len() > 0 && all_digits(d) && i32::MIN <= v <= i32::MAX {
        Some(v as i32)
    } else {
        None
    }
}

proof fn lemma_digits_nonneg(d: Seq<u8>)
    requires
        all_digits(d),
    ensures
        digits_value(d) >= 0,
    decreases d.len(),
{
    if d.len() > 0 {
        assert(all_digits(d.drop_last())) by {
            assert forall|j: int| 0 <= j < d.len() - 1 implies 0x30 <= #[trigger] d.drop_last()[j]
                <= 0x39 by {
                assert(d.drop_last()[j] == d[j]);
            }
        }
        lemma_digits_nonneg(d.drop_last());
        assert(0x30 <= d[d.len() - 1] <= 0x39);
    }
}

proof fn lemma_digits_grow(d: Seq<u8>, k: int)
    requires
        all_digits(d),
        0 <= k <= d.len(),
    ensures
        digits_value(d.take(k)) <= digits_value(d),
    decreases d.len() - k,
{
    if k < d.len() {
        lemma_digits_grow(d, k + 1);
        let t = d.take(k + 1);
        assert(t.drop_last() =~= d.take(k));
        assert(all_digits(d.take(k))) by {
            assert forall|j: int| 0 <= j < k implies 0x30 <= #[trigger] d.take(k)[j] <= 0x39 by {
                assert(d.take(k)[j] == d[j]);
            }
        }
        lemma_digits_nonneg(d.take(k));
        assert(t.last() == d[k]);
        assert(0x30 <= d[k] <= 0x39);
    } else {
        assert(d.take(k) =~= d);
    }
}

/// The decimal digits of `n` are digits, at least one, and spell `n`.
pub proof fn lemma_decimal(n: nat)
    ensures
        decimal(n).len() > 0,
        all_digits(decimal(n)),
        digits_value(decimal(n)) == n,
    decreases n,
{
    if n >= 10 {
        lemma_decimal(n / 10);
        let d = decimal(n);
        assert(d.drop_last() =~= decimal(n / 10));
        assert(d.last() == 0x30 + n % 10);
        assert(n == (n / 10) * 10 + n % 10);
        assert forall|j: int| 0 <= j < d.len() implies 0x30 <= #[trigger] d[j] <= 0x39 by {
            if j < d.len() - 1 {
                assert(d[j] == decimal(n / 10)[j]);
            }
        }
    } else {
        assert(decimal(n).drop_last() =~= Seq::<u8>::empty());
        assert(decimal(n).last() == 0x30 + n);
        assert(digits_value(Seq::<u8>::empty()) == 0);
    }
}

/// The text of an `i32` parses back to it.
pub proof fn lemma_int_text_parses(w: i32)
    ensures
        parsed_i32(int_text(w as int)) == Some(w),
{
    if w < 0 {
        lemma_decimal((-w) as nat);
        assert(int_text(w as int).skip(1) =~= decimal((-w) as nat));
    } else {
        lemma_decimal(w as nat);
        assert(0x30 <= decimal(w as nat)[0] <= 0x39);
    }
}

/// Parses the decimal integer `b` as `i32::from_str` does (see
/// [`parsed_i32`]).
pub fn parse_i32(b: &[u8]) -> (r: Option<i32>)
    ensures
        r == parsed_i32(b@),
{
    let n = b.len();
    if n == 0 {
        return None;
    }
    let start: usize = if b[0] == 0x2d || b[0] == 0x2b {
        1
    } else {
        0
    };
    let ghost d = if start == 1 {
        b@.skip(1)
    } else {
        b@
    };
    assert(d =~= b@.subrange(start as int, n as int));
    if start == n {
        return None;
    }
    let mut acc: i64 = 0;
    let mut k: usize = start;
    while k < n
        invariant
            start <= k <= n == b@.len(),
            d == b@.subrange(start as int, n as int),
            d == (if b@[0] == 0x2d || b@[0] == 0x2b {
                b@.skip(1)
            } else {
                b@
            }),
            all_digits(d.take(k - start)),
            acc == digits_value(d.take(k - start)),
            0 <= acc <= 0x8000_0000,
        decreases n - k,
    {
        let c = b[k];
        if c < 0x30 || c > 0x39 {
            assert(d[k - start] == c);
            assert(!all_digits(d));
            return None;
        }
        let ghost t = d.take(k - start + 1);
        assert(t.drop_last() =~= d.take(k - start));
        assert(all_digits(t)) by {
            assert forall|j: int| 0 <= j < t.len() implies 0x30 <= #[trigger] t[j] <= 0x39 by {
                if j < t.len() - 1 {
                    assert(t[j] == d.take(k - start)[j]);
                }
            }
        }
        assert(t.last() == c);
        acc = acc * 10 + (c - 0x30) as i64;
        assert(acc == digits_value(t));
        k = k + 1;
        if acc > 0x8000_0000 {
            proof {
                if all_digits(d) {
                    lemma_digits_grow(d, k - start);
                }
            }
            return None;
        }
    }
    assert(d.take(n - start) =~= d);
    if b[0] == 0x2d {
        Some((-acc) as i32)
    } else if acc <= 0x7fff_ffff {
        Some(acc as i32)
    } else {
        None
    }
}

/// Appends the decimal text of `w` (see [`int_text`]).
pub fn push_int(s: &mut String, w: i32)
    ensures
        utf8(final(s)@) == utf8(old(s)@) + int_text(w as int),
{
    let ghost before = utf8(s@);
    let m: i64 = w as i64;
    if m < 0 {
        push_ascii(s, 0x2d);
        push_decimal(s, (-m) as usize);
    } else {
        push_decimal(s, m as usize);
    }
    assert(utf8(s@) =~= before + int_text(w as int));
}


/// A key of a `key=value` line: not empty, printable ASCII without spaces
/// and without `=`.
pub open spec fn plain_key(k: Seq<u8>) -> bool {
    &&& k.len() > 0
    &&& forall|j: int| 0 <= j < k.len() ==> 0x21 <= #[trigger] k[j] < 0x7f && k[j] != 0x3d
}

/// Text without line feeds and carriage returns.
pub open spec fn one_line(v: Seq<u8>) -> bool {
    forall|j: int| 0 <= j < v.len() ==> #[trigger] v[j] != 0x0a && v[j] != 0x0d
}

/// A value that a `key=value` line gives back as written: on one line,
/// with no whitespace at either end.
pub open spec fn plain_value(v: Seq<u8>) -> bool {
    &&& one_line(v)
    &&& ws_len_at(v, 0) == 0
    &&& ws_len_before(v, 0, v.len() as int) == 0
}

/// The line `key=value`.
pub open spec fn kv_line(k: Seq<u8>, v: Seq<u8>) -> Seq<u8> {
    k + seq![0x3du8] + v
}

/// The lines, each ended by a line feed.
pub open spec fn line_text(ls: Seq<Seq<u8>>) -> Seq<u8>
    decreases ls.len(),
{
    if ls.len() == 0 {
        Seq::empty()
    } else {
        ls[0] + seq![0x0au8] + line_text(ls.drop_first())
    }
}

/// Appending a line appends it, with its line feed, to the text.
pub proof fn lemma_line_text_push(ls: Seq<Seq<u8>>, x: Seq<u8>)
    ensures
        line_text(ls.push(x)) == line_text(ls) + x + seq![0x0au8],
    decreases ls.len(),
{
    if ls.len() == 0 {
        assert(ls.push(x).drop_first() =~= Seq::<Seq<u8>>::empty());
        assert(line_text(Seq::<Seq<u8>>::empty()) =~= Seq::<u8>::empty());
        assert(line_text(ls.push(x)) =~= line_text(ls) + x + seq![0x0au8]);
    } else {
        lemma_line_text_push(ls.drop_first(), x);
        assert(ls.push(x).drop_first() =~= ls.drop_first().push(x));
        assert(line_text(ls.push(x)) =~= line_text(ls) + x + seq![0x0au8]);
    }
}

/// Text made of one-line lines, each ended by a line feed, splits back into
/// those lines.
pub proof fn lemma_line_text_lines(ls: Seq<Seq<u8>>)
    requires
        forall|m: int| 0 <= m < ls.len() ==> one_line(#[trigger] ls[m]),
    ensures
        text_lines(line_text(ls)) == ls,
    decreases ls.len(),
{
    if ls.len() == 0 {
        assert(text_lines(Seq::<u8>::empty()) =~= Seq::<Seq<u8>>::empty());
    } else {
        assert forall|m: int| 0 <= m < ls.drop_first().len() implies one_line(
            #[trigger] ls.drop_first()[m],
        ) by {
            assert(ls.drop_first()[m] == ls[m + 1]);
        }
        lemma_line_text_lines(ls.drop_first());
        assert(one_line(ls[0]));
        lemma_lines_first(ls[0], line_text(ls.drop_first()));
        assert(seq![ls[0]] + ls.drop_first() =~= ls);
    }
}

/// A plain value is its own trimmed form.
proof fn lemma_plain_trimmed(v: Seq<u8>)
    requires
        plain_value(v),
    ensures
        trim_bytes(v) == v,
{
    assert(skip_ws(v, 0) == 0);
    assert(v.subrange(0, v.len() as int) =~= v);
    assert(skip_ws_back(v, 0, v.len() as int) == v.len());
}

/// A `key=value` line splits back into its key and value.
pub proof fn lemma_kv_line(k: Seq<u8>, v: Seq<u8>)
    requires
        plain_key(k),
        plain_value(v),
    ensures
        key_value(kv_line(k, v)) == Some((k, v)),
        trim_bytes(v) == v,
{
    lemma_plain_trimmed(v);
    let line = kv_line(k, v);
    let n = line.len() as int;
    let c = k.len() as int;
    assert forall|m: int| 0 <= m < c implies line[m] == k[m] by {}
    assert(line[c] == 0x3d);
    assert forall|m: int| c < m < n implies line[m] == v[m - c - 1] by {}
    assert(0x21 <= line[0] < 0x7f);
    assert(ws_len_at(line, 0) == 0);
    assert(skip_ws(line, 0) == 0);
    assert(line.subrange(0, n) =~= line);
    assert(ws_len_before(line, 0, n) == 0) by {
        if v.len() > 0 {
            assert(line[n - 1] == v[v.len() - 1]);
        }
        if v.len() > 1 {
            assert(line[n - 2] == v[v.len() - 2]);
        }
        if v.len() > 2 {
            assert(line[n - 3] == v[v.len() - 3]);
        }
        if c >= 2 {
            assert(line[c - 2] < 0x80);
        }
        assert(line[c - 1] < 0x80);
    }
    assert(skip_ws_back(line, 0, n) == n);
    assert(trim_bytes(line) == line);
    lemma_byte_pos(line, 0x3d, 0);
    assert(byte_pos(line, 0x3d, 0) == c);
    assert(line.subrange(0, c) =~= k);
    assert(line.subrange(c + 1, n) =~= v);
}

/// In `key=value` lines with distinct plain keys and plain values, a key's
/// value is found as written.
pub proof fn lemma_first_setting(
    ls: Seq<Seq<u8>>,
    ks: Seq<Seq<u8>>,
    vs: Seq<Seq<u8>>,
    i: int,
    j: int,
)
    requires
        ls.len() == ks.len() == vs.len(),
        0 <= i <= j < ls.len(),
        forall|m: int| 0 <= m < ls.len() ==> #[trigger] ls[m] == kv_line(ks[m], vs[m]),
        forall|m: int| 0 <= m < ls.len() ==> plain_key(#[trigger] ks[m]) && plain_value(vs[m]),
        forall|m: int| 0 <= m < j ==> #[trigger] ks[m] != ks[j],
    ensures
        value_from(ls, i, ks[j]) == Some(vs[j]),
    decreases j - i,
{
    assert(ls[i] == kv_line(ks[i], vs[i]));
    assert(plain_key(ks[i]) && plain_value(vs[i]));
    lemma_kv_line(ks[i], vs[i]);
    if i < j {
        assert(ks[i] != ks[j]);
        lemma_first_setting(ls, ks, vs, i + 1, j);
    }
}


/// The smallest window width a persisted size restores.
pub const MIN_WINDOW_W: i32 = 800;

/// The smallest window height a persisted size restores.
pub const MIN_WINDOW_H: i32 = 600;

/// The keys of the config file, in the order it is written: the nine force
/// values in slider order, the two force-panel switches, the window size,
/// the text zoom and the font family.
pub open spec fn key_chars(i: int) -> Seq<char> {
    if i == 0 {
        "spring_k"@
    } else if i == 1 {
        "damping"@
    } else if i == 2 {
        "center_pull"@
    } else if i == 3 {
        "repulsion_radius"@
    } else if i == 4 {
        "repulsion_k"@
    } else if i == 5 {
        "alpha_decay"@
    } else if i == 6 {
        "radius_scale"@
    } else if i == 7 {
        "radius_variation"@
    } else if i == 8 {
        "attraction"@
    } else if i == 9 {
        "alpha_cooling"@
    } else if i == 10 {
        "show_force_panel"@
    } else if i == 11 {
        "window_width"@
    } else if i == 12 {
        "window_height"@
    } else if i == 13 {
        "text_zoom"@
    } else {
        "font_name"@
    }
}

/// The bytes of key `i` (see [`key_chars`]).
pub open spec fn config_key(i: int) -> Seq<u8> {
    utf8(key_chars(i))
}

proof fn lemma_ascii_key(c: Seq<char>)
    requires
        c.len() > 0,
        forall|j: int| 0 <= j < c.len() ==> ('!' <= #[trigger] c[j] <= '~' && c[j] != '='),
    ensures
        plain_key(utf8(c)),
        utf8(c).len() == c.len(),
        forall|j: int| 0 <= j < c.len() ==> utf8(c)[j] == c[j] as u8,
{
    vstd::utf8::is_ascii_chars_encode_utf8(c);
}

/// The config keys are plain and pairwise distinct.
pub proof fn lemma_config_keys()
    ensures
        forall|i: int| 0 <= i < 15 ==> plain_key(#[trigger] config_key(i)),
        forall|i: int, j: int| 0 <= i < j < 15 ==> config_key(i) != config_key(j),
{
    reveal_strlit("spring_k");
    reveal_strlit("damping");
    reveal_strlit("center_pull");
    reveal_strlit("repulsion_radius");
    reveal_strlit("repulsion_k");
    reveal_strlit("alpha_decay");
    reveal_strlit("radius_scale");
    reveal_strlit("radius_variation");
    reveal_strlit("attraction");
    reveal_strlit("alpha_cooling");
    reveal_strlit("show_force_panel");
    reveal_strlit("window_width");
    reveal_strlit("window_height");
    reveal_strlit("text_zoom");
    reveal_strlit("font_name");
    assert forall|i: int| 0 <= i < 15 implies plain_key(#[trigger] config_key(i))
        && config_key(i).len() == key_chars(i).len() && config_key(i)[0] == key_chars(i)[0]
        && config_key(i)[1] == key_chars(i)[1] by {
        lemma_ascii_key(key_chars(i));
    }
    assert forall|i: int, j: int| 0 <= i < j < 15 implies config_key(i) != config_key(j) by {
        if config_key(i) == config_key(j) {
            assert(config_key(i)[0] == config_key(j)[0]);
            assert(config_key(i)[1] == config_key(j)[1]);
        }
    }
}

/// Key `i` of the config file (see [`key_chars`]).
pub fn config_key_str(i: usize) -> (r: &'static str)
    requires
        i < 15,
    ensures
        sb(r) == config_key(i as int),
{
    if i == 0 {
        "spring_k"
    } else if i == 1 {
        "damping"
    } else if i == 2 {
        "center_pull"
    } else if i == 3 {
        "repulsion_radius"
    } else if i == 4 {
        "repulsion_k"
    } else if i == 5 {
        "alpha_decay"
    } else if i == 6 {
        "radius_scale"
    } else if i == 7 {
        "radius_variation"
    } else if i == 8 {
        "attraction"
    } else if i == 9 {
        "alpha_cooling"
    } else if i == 10 {
        "show_force_panel"
    } else if i == 11 {
        "window_width"
    } else if i == 12 {
        "window_height"
    } else if i == 13 {
        "text_zoom"
    } else {
        "font_name"
    }
}

/// The persisted settings that are not floating point: the two force-panel
/// switches, the window width and height, and the font family (empty for
/// the default).
#[derive(Clone, Debug)]
pub struct Settings {
    pub cooling: bool,
    pub panel: bool,
    pub width: i32,
    pub height: i32,
    pub font_name: String,
}

/// The fields of a [`Settings`], the font family by its bytes.
pub open spec fn settings_view(s: Settings) -> (bool, bool, i32, i32, Seq<u8>) {
    (s.cooling, s.panel, s.width, s.height, utf8(s.font_name@))
}

/// How a switch is written: `1` for on, `0` for off.
pub open spec fn flag_text(b: bool) -> Seq<u8> {
    if b {
        seq![0x31u8]
    } else {
        seq![0x30u8]
    }
}

/// The values of the config file in key order: the nine force values and
/// the text zoom as the caller wrote them, the rest from `s`.
pub open spec fn config_values(graph: Seq<Seq<u8>>, zoom: Seq<u8>, s: Settings) -> Seq<Seq<u8>> {
    graph + seq![
        flag_text(s.cooling),
        flag_text(s.panel),
        int_text(s.width as int),
        int_text(s.height as int),
        zoom,
        utf8(s.font_name@),
    ]
}

/// The `key=value` lines of the values in key order.
pub open spec fn config_lines(vals: Seq<Seq<u8>>) -> Seq<Seq<u8>> {
    Seq::new(vals.len(), |i: int| kv_line(config_key(i), vals[i]))
}

/// The config file written for these values.
pub open spec fn config_text(graph: Seq<Seq<u8>>, zoom: Seq<u8>, s: Settings) -> Seq<u8> {
    line_text(config_lines(config_values(graph, zoom, s)))
}

/// The value the config file `text` sets for key `i`.
pub open spec fn setting(text: Seq<u8>, i: int) -> Option<Seq<u8>> {
    value_from(text_lines(text), 0, config_key(i))
}

/// A switch as read back: `1` turns it on, `0` off; anything else, or no
/// line, keeps `default`.
pub open spec fn flag_spec(v: Option<Seq<u8>>, default: bool) -> bool {
    match v {
        Some(x) => if x == seq![0x31u8] {
            true
        } else if x == seq![0x30u8] {
            false
        } else {
            default
        },
        None => default,
    }
}

/// A window side as read back: an `i32` raised to `floor` when below it;
/// no line, or one that is no `i32`, keeps `default`.
pub open spec fn window_spec(v: Option<Seq<u8>>, default: i32, floor: i32) -> i32 {
    match v {
        Some(x) => match parsed_i32(x) {
            Some(n) => if n < floor {
                floor
            } else {
                n
            },
            None => default,
        },
        None => default,
    }
}

/// The font family as read back: a non-empty value, else `default`.
pub open spec fn font_spec(v: Option<Seq<u8>>, default: Seq<u8>) -> Seq<u8> {
    match v {
        Some(x) => if x.len() > 0 {
            x
        } else {
            default
        },
        None => default,
    }
}

/// The settings read from the config file `text`, starting from `d`.
pub open spec fn parsed_settings(text: Seq<u8>, d: Settings) -> (bool, bool, i32, i32, Seq<u8>) {
    (
        flag_spec(setting(text, 9), d.cooling),
        flag_spec(setting(text, 10), d.panel),
        window_spec(setting(text, 11), d.width, MIN_WINDOW_W),
        window_spec(setting(text, 12), d.height, MIN_WINDOW_H),
        font_spec(setting(text, 14), utf8(d.font_name@)),
    )
}

/// The two force-panel switches as the config file `text` sets them,
/// starting from `cooling` and `panel` (see [`flag_spec`]).
pub fn parse_flags(text: &str, cooling: bool, panel: bool) -> (r: (bool, bool))
    ensures
        r == (flag_spec(setting(sb(text), 9), cooling), flag_spec(setting(sb(text), 10), panel)),
{
    (read_flag(text, 9, cooling), read_flag(text, 10, panel))
}

fn read_flag(text: &str, i: usize, default: bool) -> (r: bool)
    requires
        i < 15,
    ensures
        r == flag_spec(setting(sb(text), i as int), default),
{
    match line_value(text, config_key_str(i)) {
        Some(v) => {
            let b = v.as_bytes();
            if b.len() == 1 && b[0] == 0x31 {
                assert(b@ =~= seq![0x31u8]);
                true
            } else if b.len() == 1 && b[0] == 0x30 {
                assert(b@ =~= seq![0x30u8]);
                false
            } else {
                default
            }
        },
        None => default,
    }
}

fn read_window(text: &str, i: usize, default: i32, floor: i32) -> (r: i32)
    requires
        i < 15,
    ensures
        r == window_spec(setting(sb(text), i as int), default, floor),
{
    match line_value(text, config_key_str(i)) {
        Some(v) => match parse_i32(v.as_bytes()) {
            Some(n) => if n < floor {
                floor
            } else {
                n
            },
            None => default,
        },
        None => default,
    }
}

/// The settings the config file `text` sets, starting from `defaults` (see
/// [`parsed_settings`]).
pub fn parse(text: &str, defaults: Settings) -> (r: Settings)
    ensures
        settings_view(r) == parsed_settings(sb(text), defaults),
{
    let (cooling, panel) = parse_flags(text, defaults.cooling, defaults.panel);
    let w = read_window(text, 11, defaults.width, MIN_WINDOW_W);
    let h = read_window(text, 12, defaults.height, MIN_WINDOW_H);
    let font_name = match line_value(text, config_key_str(14)) {
        Some(v) => if v.as_bytes().len() > 0 {
            to_string(v)
        } else {
            defaults.font_name
        },
        None => defaults.font_name,
    };
    Settings { cooling, panel, width: w, height: h, font_name }
}

/// Appends line `i` of `ls`, `key=v`, to the text of the lines before it.
fn push_setting(out: &mut String, Ghost(ls): Ghost<Seq<Seq<u8>>>, i: usize, v: &str)
    requires
        i < 15,
        i < ls.len(),
        ls[i as int] == kv_line(config_key(i as int), sb(v)),
        utf8(old(out)@) == line_text(ls.take(i as int)),
    ensures
        utf8(final(out)@) == line_text(ls.take(i + 1)),
{
    push_str(out, config_key_str(i));
    push_ascii(out, 0x3d);
    push_str(out, v);
    push_ascii(out, 0x0a);
    proof {
        lemma_line_text_push(ls.take(i as int), ls[i as int]);
        assert(ls.take(i + 1) =~= ls.take(i as int).push(ls[i as int]));
    }
    assert(utf8(out@) =~= line_text(ls.take(i + 1)));
}

/// The config file for the settings `s`, with the nine force values and the
/// text zoom as the caller formatted them (see [`config_text`]).
pub fn serialize(graph: &[String], zoom: &str, s: &Settings) -> (r: String)
    requires
        graph@.len() == 9,
    ensures
        utf8(r@) == config_text(graph@.map_values(|g: String| utf8(g@)), sb(zoom), *s),
{
    let ghost gv = graph@.map_values(|g: String| utf8(g@));
    let ghost vals = config_values(gv, sb(zoom), *s);
    let ghost ls = config_lines(vals);
    let mut out = empty_string();
    assert(ls.take(0) =~= Seq::<Seq<u8>>::empty());
    assert(line_text(Seq::<Seq<u8>>::empty()) =~= Seq::<u8>::empty());
    let mut i: usize = 0;
    while i < 9
        invariant
            i <= 9,
            graph@.len() == 9,
            gv == graph@.map_values(|g: String| utf8(g@)),
            vals == config_values(gv, sb(zoom), *s),
            ls == config_lines(vals),
            utf8(out@) == line_text(ls.take(i as int)),
        decreases 9 - i,
    {
        let g = graph[i].as_str();
        assert(vals[i as int] == gv[i as int]);
        push_setting(&mut out, Ghost(ls), i, g);
        i = i + 1;
    }
    let mut c = empty_string();
    push_ascii(&mut c, if s.cooling { 0x31 } else { 0x30 });
    assert(utf8(c@) =~= flag_text(s.cooling));
    push_setting(&mut out, Ghost(ls), 9, c.as_str());
    let mut p = empty_string();
    push_ascii(&mut p, if s.panel { 0x31 } else { 0x30 });
    assert(utf8(p@) =~= flag_text(s.panel));
    push_setting(&mut out, Ghost(ls), 10, p.as_str());
    let mut w = empty_string();
    push_int(&mut w, s.width);
    assert(utf8(w@) =~= int_text(s.width as int));
    push_setting(&mut out, Ghost(ls), 11, w.as_str());
    let mut h = empty_string();
    push_int(&mut h, s.height);
    assert(utf8(h@) =~= int_text(s.height as int));
    push_setting(&mut out, Ghost(ls), 12, h.as_str());
    push_setting(&mut out, Ghost(ls), 13, zoom);
    push_setting(&mut out, Ghost(ls), 14, s.font_name.as_str());
    assert(ls.take(15) =~= ls);
    out
}

/// The text of an `i32` is a plain value.
proof fn lemma_int_text_plain(w: int)
    ensures
        plain_value(int_text(w)),
{
    let t = int_text(w);
    let n: nat = if w < 0 {
        (-w) as nat
    } else {
        w as nat
    };
    lemma_decimal(n);
    let d = decimal(n);
    assert forall|j: int| 0 <= j < t.len() implies (#[trigger] t[j] == 0x2d || 0x30 <= t[j]
        <= 0x39) by {
        if w < 0 && j > 0 {
            assert(t[j] == d[j - 1]);
        }
    }
    assert(t.len() > 0);
    if t.len() >= 2 {
        assert(t[t.len() - 2] == 0x2d || 0x30 <= t[t.len() - 2] <= 0x39);
    }
    if t.len() >= 3 {
        assert(t[t.len() - 3] == 0x2d || 0x30 <= t[t.len() - 3] <= 0x39);
    }
    assert(t[t.len() - 1] == 0x2d || 0x30 <= t[t.len() - 1] <= 0x39);
    assert(t[0] == 0x2d || 0x30 <= t[0] <= 0x39);
}

/// Reading back a written config file gives the settings that were written:
/// the force values and the text zoom as their text was written, the
/// switches, the window size (at least the smallest allowed) and the font
/// family; an empty family keeps the default's.
pub proof fn lemma_config_round_trip(graph: Seq<Seq<u8>>, zoom: Seq<u8>, s: Settings, d: Settings)
    requires
        graph.len() == 9,
        forall|i: int| 0 <= i < 9 ==> plain_value(#[trigger] graph[i]),
        plain_value(zoom),
        plain_value(utf8(s.font_name@)),
        s.width >= MIN_WINDOW_W,
        s.height >= MIN_WINDOW_H,
    ensures
        forall|i: int| 0 <= i < 9 ==> setting(config_text(graph, zoom, s), i) == Some(graph[i]),
        setting(config_text(graph, zoom, s), 13) == Some(zoom),
        parsed_settings(config_text(graph, zoom, s), d) == (
            s.cooling,
            s.panel,
            s.width,
            s.height,
            if utf8(s.font_name@).len() > 0 {
                utf8(s.font_name@)
            } else {
                utf8(d.font_name@)
            },
        ),
{
    let vals = config_values(graph, zoom, s);
    let ls = config_lines(vals);
    let ks = Seq::new(15, |i: int| config_key(i));
    let text = config_text(graph, zoom, s);
    lemma_config_keys();
    lemma_int_text_plain(s.width as int);
    lemma_int_text_plain(s.height as int);
    assert(plain_value(flag_text(s.cooling)));
    assert(plain_value(flag_text(s.panel)));
    assert forall|m: int| 0 <= m < 15 implies plain_key(#[trigger] ks[m]) && plain_value(
        vals[m],
    ) by {
        if m < 9 {
            assert(vals[m] == graph[m]);
        }
    }
    assert forall|m: int| 0 <= m < 15 implies one_line(#[trigger] ls[m]) by {
        assert(plain_key(ks[m]) && plain_value(vals[m]));
        let l = ls[m];
        assert(l == kv_line(config_key(m), vals[m]));
        assert forall|j: int| 0 <= j < l.len() implies #[trigger] l[j] != 0x0a && l[j] != 0x0d by {
            let c = config_key(m).len() as int;
            if j < c {
                assert(l[j] == config_key(m)[j]);
            } else if j > c {
                assert(l[j] == vals[m][j - c - 1]);
            }
        }
    }
    lemma_line_text_lines(ls);
    assert(text_lines(text) == ls);
    assert forall|j: int| 0 <= j < 15 implies value_from(ls, 0, #[trigger] ks[j]) == Some(
        vals[j],
    ) by {
        assert forall|m: int| 0 <= m < j implies #[trigger] ks[m] != ks[j] by {}
        lemma_first_setting(ls, ks, vals, 0, j);
    }
    assert forall|i: int| 0 <= i < 9 implies setting(text, i) == Some(graph[i]) by {
        assert(ks[i] == config_key(i));
        assert(vals[i] == graph[i]);
    }
    assert(ks[13] == config_key(13));
    assert(ks[9] == config_key(9));
    assert(ks[10] == config_key(10));
    assert(ks[11] == config_key(11));
    assert(ks[12] == config_key(12));
    assert(ks[14] == config_key(14));
    lemma_int_text_parses(s.width);
    lemma_int_text_parses(s.height);
}

} // verus!
