//! Persisted user preferences (view mode, zoom, sort, hidden files, window
//! size), read from and written to simple `key=value` lines.
use vstd::prelude::*;

use crate::text;

verus! {

broadcast use vstd::string::group_string_axioms;

/// The smallest zoom (grid icon size) a preference may hold.
pub const ZOOM_MIN: i32 = 48;

/// The largest zoom (grid icon size) a preference may hold.
pub const ZOOM_MAX: i32 = 160;

/// Preferences that survive a restart.
#[derive(Debug, Clone, Copy, PartialEq, Eq, Structural)]
pub struct Settings {
    pub is_list: bool,
    pub zoom: i32,
    /// 0 = name, 1 = size, 2 = modified.
    pub sort_key: u8,
    pub sort_desc: bool,
    pub show_hidden: bool,
    pub width: i32,
    pub height: i32,
    pub maximized: bool,
}

/// The preferences of a first start.
pub open spec fn default_settings() -> Settings {
    Settings {
        is_list: false,
        zoom: 80,
        sort_key: 0,
        sort_desc: false,
        show_hidden: false,
        width: 1120,
        height: 740,
        maximized: false,
    }
}

impl Default for Settings {
    fn default() -> (s: Self)
        ensures
            s == default_settings(),
    {
        Settings {
            is_list: false,
            zoom: 80,
            sort_key: 0,
            sort_desc: false,
            show_hidden: false,
            width: 1120,
            height: 740,
            maximized: false,
        }
    }
}

/// `z` brought into the supported zoom range.
pub open spec fn clamp_zoom(z: i32) -> i32 {
    if z < ZOOM_MIN {
        ZOOM_MIN
    } else if z > ZOOM_MAX {
        ZOOM_MAX
    } else {
        z
    }
}

/// What one `key=value` entry (both already trimmed) does to `s`: a known key
/// whose value parses sets its field; anything else leaves `s` as it was.
pub open spec fn apply_entry(s: Settings, key: Seq<char>, value: Seq<char>) -> Settings {
    if key == "is_list"@ {
        match text::parse_bool(value) {
            Some(b) => Settings { is_list: b, ..s },
            None => s,
        }
    } else if key == "zoom"@ {
        match text::parse_i32(value) {
            Some(z) => Settings { zoom: clamp_zoom(z), ..s },
            None => s,
        }
    } else if key == "sort_key"@ {
        match text::parse_u8(value) {
            Some(k) => if k <= 2 {
                Settings { sort_key: k, ..s }
            } else {
                s
            },
            None => s,
        }
    } else if key == "sort_desc"@ {
        match text::parse_bool(value) {
            Some(b) => Settings { sort_desc: b, ..s },
            None => s,
        }
    } else if key == "show_hidden"@ {
        match text::parse_bool(value) {
            Some(b) => Settings { show_hidden: b, ..s },
            None => s,
        }
    } else if key == "width"@ {
        match text::parse_i32(value) {
            Some(w) => Settings { width: w, ..s },
            None => s,
        }
    } else if key == "height"@ {
        match text::parse_i32(value) {
            Some(h) => Settings { height: h, ..s },
            None => s,
        }
    } else if key == "maximized"@ {
        match text::parse_bool(value) {
            Some(b) => Settings { maximized: b, ..s },
            None => s,
        }
    } else {
        s
    }
}

/// What one line does to `s`: a line with an `=` is an entry, split at its first
/// `=` and trimmed; a line without one is ignored.
pub open spec fn apply_line(s: Settings, line: Seq<char>) -> Settings {
    match text::split_once(line, '=') {
        Some((k, v)) => apply_entry(s, text::trim(k), text::trim(v)),
        None => s,
    }
}

/// The defaults with `ls` applied in order.
pub open spec fn apply_lines(ls: Seq<Seq<char>>) -> Settings
    decreases ls.len(),
{
    if ls.len() == 0 {
        default_settings()
    } else {
        apply_line(apply_lines(ls.drop_last()), ls.last())
    }
}

/// The preferences that the text `text` describes.
pub open spec fn parsed(text: Seq<char>) -> Settings {
    apply_lines(text::lines(text))
}

/// One `key=value` line, with its `\n`.
pub open spec fn entry_line(key: Seq<char>, value: Seq<char>) -> Seq<char> {
    (key + seq!['='] + value).push('\n')
}

/// The text that `serialize` writes for `s`.
pub open spec fn serialized(s: Settings) -> Seq<char> {
    entry_line("is_list"@, text::bool_text(s.is_list)) + (entry_line("zoom"@, text::int_text(s.zoom as int)) + (
    entry_line("sort_key"@, text::decimal(s.sort_key as nat)) + (entry_line(
        "sort_desc"@,
        text::bool_text(s.sort_desc),
    ) + (entry_line("show_hidden"@, text::bool_text(s.show_hidden)) + (entry_line(
        "width"@,
        text::int_text(s.width as int),
    ) + (entry_line("height"@, text::int_text(s.height as int)) + entry_line(
        "maximized"@,
        text::bool_text(s.maximized),
    )))))))
}

/// Whether `s` holds only what parsing can produce: a zoom within the supported
/// range and one of the three sort columns.
pub open spec fn in_range(s: Settings) -> bool {
    &&& ZOOM_MIN <= s.zoom <= ZOOM_MAX
    &&& s.sort_key <= 2
}

/// Applies one trimmed entry.
fn apply_entry_exec(s: &mut Settings, key: &[char], value: &[char])
    ensures
        *final(s) == apply_entry(*old(s), key@, value@),
{
    if text::chars_eq_str(key, "is_list") {
        if let Some(b) = text::parse_bool_chars(value) {
            s.is_list = b;
        }
    } else if text::chars_eq_str(key, "zoom") {
        if let Some(z) = text::parse_i32_chars(value) {
            s.zoom = if z < ZOOM_MIN {
                ZOOM_MIN
            } else if z > ZOOM_MAX {
                ZOOM_MAX
            } else {
                z
            };
        }
    } else if text::chars_eq_str(key, "sort_key") {
        if let Some(k) = text::parse_u8_chars(value) {
            if k <= 2 {
                s.sort_key = k;
            }
        }
    } else if text::chars_eq_str(key, "sort_desc") {
        if let Some(b) = text::parse_bool_chars(value) {
            s.sort_desc = b;
        }
    } else if text::chars_eq_str(key, "show_hidden") {
        if let Some(b) = text::parse_bool_chars(value) {
            s.show_hidden = b;
        }
    } else if text::chars_eq_str(key, "width") {
        if let Some(w) = text::parse_i32_chars(value) {
            s.width = w;
        }
    } else if text::chars_eq_str(key, "height") {
        if let Some(h) = text::parse_i32_chars(value) {
            s.height = h;
        }
    } else if text::chars_eq_str(key, "maximized") {
        if let Some(b) = text::parse_bool_chars(value) {
            s.maximized = b;
        }
    }
}

/// Appends one `key=value` line to `out`.
fn push_entry(out: &mut Vec<char>, key: &str, value: &[char])
    ensures
        final(out)@ == old(out)@ + entry_line(key@, value@),
{
    text::extend_str(out, key);
    out.push('=');
    text::extend_chars(out, value);
    out.push('\n');
    assert(out@ =~= old(out)@ + entry_line(key@, value@));
}

/// The text of a `bool`.
fn bool_chars(b: bool) -> (r: Vec<char>)
    ensures
        r@ == text::bool_text(b),
{
    if b {
        text::chars_of("true")
    } else {
        text::chars_of("false")
    }
}

/// The decimal text of an `i32`.
fn i32_chars(i: i32) -> (r: Vec<char>)
    ensures
        r@ == text::int_text(i as int),
{
    let mut v: Vec<char> = Vec::new();
    text::push_int(&mut v, i as i64);
    assert(v@ =~= text::int_text(i as int));
    v
}

impl Settings {
    /// Parse `key=value` lines. Unknown keys are ignored and anything missing or
    /// malformed keeps its default, so a hand-edited or older file still loads.
    pub fn parse(text: &str) -> (s: Settings)
        ensures
            s == parsed(text@),
    {
        let cs = text::chars_of(text);
        let ls = text::lines_of(&cs);
        let mut s = Settings::default();
        let mut i: usize = 0;
        while i < ls.len()
            invariant
                i <= ls.len(),
                text::views(ls@) == text::lines(cs@),
                s == apply_lines(text::views(ls@).take(i as int)),
            decreases ls.len() - i,
        {
            let ghost before = text::views(ls@).take(i as int);
            assert(text::views(ls@).take(i + 1).drop_last() =~= before);
            assert(text::views(ls@)[i as int] == ls@[i as int]@);
            match text::split_once_chars(&ls[i], '=') {
                Some((k, v)) => {
                    let key = text::trim_chars(&k);
                    let value = text::trim_chars(&v);
                    apply_entry_exec(&mut s, &key, &value);
                },
                None => {},
            }
            i += 1;
        }
        assert(text::views(ls@).take(ls.len() as int) =~= text::views(ls@));
        s
    }

    /// Render back to `key=value` lines.
    pub fn serialize(&self) -> (text: String)
        ensures
            text@ == serialized(*self),
    {
        let mut out: Vec<char> = Vec::new();
        push_entry(&mut out, "is_list", &bool_chars(self.is_list));
        push_entry(&mut out, "zoom", &i32_chars(self.zoom));
        let mut key: Vec<char> = Vec::new();
        text::push_decimal(&mut key, self.sort_key as u64);
        assert(key@ =~= text::decimal(self.sort_key as nat));
        push_entry(&mut out, "sort_key", &key);
        push_entry(&mut out, "sort_desc", &bool_chars(self.sort_desc));
        push_entry(&mut out, "show_hidden", &bool_chars(self.show_hidden));
        push_entry(&mut out, "width", &i32_chars(self.width));
        push_entry(&mut out, "height", &i32_chars(self.height));
        push_entry(&mut out, "maximized", &bool_chars(self.maximized));
        assert(out@ =~= serialized(*self));
        text::string_of(&out)
    }
}

// ---------------------------------------------------------------------------
// Laws
// ---------------------------------------------------------------------------

/// The eight keys, as their characters.
proof fn lemma_keys()
    ensures
        "is_list"@ =~= seq!['i', 's', '_', 'l', 'i', 's', 't'],
        "zoom"@ =~= seq!['z', 'o', 'o', 'm'],
        "sort_key"@ =~= seq!['s', 'o', 'r', 't', '_', 'k', 'e', 'y'],
        "sort_desc"@ =~= seq!['s', 'o', 'r', 't', '_', 'd', 'e', 's', 'c'],
        "show_hidden"@ =~= seq!['s', 'h', 'o', 'w', '_', 'h', 'i', 'd', 'd', 'e', 'n'],
        "width"@ =~= seq!['w', 'i', 'd', 't', 'h'],
        "height"@ =~= seq!['h', 'e', 'i', 'g', 'h', 't'],
        "maximized"@ =~= seq!['m', 'a', 'x', 'i', 'm', 'i', 'z', 'e', 'd'],
        "true"@ =~= seq!['t', 'r', 'u', 'e'],
        "false"@ =~= seq!['f', 'a', 'l', 's', 'e'],
{
    reveal_strlit("is_list");
    reveal_strlit("zoom");
    reveal_strlit("sort_key");
    reveal_strlit("sort_desc");
    reveal_strlit("show_hidden");
    reveal_strlit("width");
    reveal_strlit("height");
    reveal_strlit("maximized");
    reveal_strlit("true");
    reveal_strlit("false");
}

/// A value as `serialize` writes it: not empty, no whitespace at its ends, no
/// line break, no `\r` at its end.
spec fn clean_value(v: Seq<char>) -> bool {
    &&& v.len() > 0
    &&& !text::is_space(v[0])
    &&& !text::is_space(v.last())
    &&& !v.contains('\n')
}

/// A key as `serialize` writes it: one of the eight keys.
spec fn clean_key(k: Seq<char>) -> bool {
    &&& k.len() > 0
    &&& !text::is_space(k[0])
    &&& !text::is_space(k.last())
    &&& !k.contains('\n')
    &&& !k.contains('=')
}

/// A written line splits back into its key and value.
proof fn lemma_line_splits(k: Seq<char>, v: Seq<char>)
    requires
        clean_key(k),
        clean_value(v),
    ensures
        text::split_once(k + seq!['='] + v, '=') == Some((k, v)),
        text::trim(k) == k,
        text::trim(v) == v,
        !(k + seq!['='] + v).contains('\n'),
        text::strip_cr(k + seq!['='] + v) == k + seq!['='] + v,
{
    let l = k + seq!['='] + v;
    assert forall|j: int| 0 <= j < k.len() implies l[j] != '=' by {
        assert(l[j] == k[j]);
    }
    text::lemma_index_of_is(l, '=', k.len() as int);
    assert(l.take(k.len() as int) =~= k);
    assert(l.skip(k.len() as int + 1) =~= v);
    text::lemma_trim_unchanged(k);
    text::lemma_trim_unchanged(v);
    assert(!l.contains('\n')) by {
        if l.contains('\n') {
            let j = choose|j: int| 0 <= j < l.len() && l[j] == '\n';
            if j < k.len() {
                assert(l[j] == k[j]);
            } else if j > k.len() {
                assert(l[j] == v[j - k.len() - 1]);
            }
        }
    }
    assert(l.last() == v.last());
}

proof fn lemma_bool_value(b: bool)
    ensures
        clean_value(text::bool_text(b)),
        text::parse_bool(text::bool_text(b)) == Some(b),
{
    lemma_keys();
    text::lemma_parse_bool_text(b);
    assert(!text::bool_text(b).contains('\n')) by {
        if text::bool_text(b).contains('\n') {
            let j = choose|j: int| 0 <= j < text::bool_text(b).len() && text::bool_text(b)[j] == '\n';
        }
    }
}

proof fn lemma_int_value(i: i32)
    ensures
        clean_value(text::int_text(i as int)),
        text::parse_i32(text::int_text(i as int)) == Some(i),
{
    text::lemma_parse_i32_int_text(i);
    if i < 0 {
        let d = text::decimal((-i) as nat);
        text::lemma_decimal((-i) as nat);
        let t = seq!['-'] + d;
        assert(t.last() == d.last());
        assert(!t.contains('\n')) by {
            if t.contains('\n') {
                let j = choose|j: int| 0 <= j < t.len() && t[j] == '\n';
                assert(t[j] == d[j - 1]);
            }
        }
    } else {
        text::lemma_decimal(i as nat);
    }
}

proof fn lemma_clean_keys()
    ensures
        clean_key("is_list"@),
        clean_key("zoom"@),
        clean_key("sort_key"@),
        clean_key("sort_desc"@),
        clean_key("show_hidden"@),
        clean_key("width"@),
        clean_key("height"@),
        clean_key("maximized"@),
{
    lemma_keys();
    assert(!"is_list"@.contains('\n') && !"is_list"@.contains('='));
    assert(!"zoom"@.contains('\n') && !"zoom"@.contains('='));
    assert(!"sort_key"@.contains('\n') && !"sort_key"@.contains('='));
    assert(!"sort_desc"@.contains('\n') && !"sort_desc"@.contains('='));
    assert(!"show_hidden"@.contains('\n') && !"show_hidden"@.contains('='));
    assert(!"width"@.contains('\n') && !"width"@.contains('='));
    assert(!"height"@.contains('\n') && !"height"@.contains('='));
    assert(!"maximized"@.contains('\n') && !"maximized"@.contains('='));
}

/// The line (without its `\n`) that `serialize` writes for `key` and `value`.
spec fn line(key: Seq<char>, value: Seq<char>) -> Seq<char> {
    key + seq!['='] + value
}

/// The eight lines that `serialize` writes for `s`, in order.
spec fn settings_lines(s: Settings) -> Seq<Seq<char>> {
    seq![
        line("is_list"@, text::bool_text(s.is_list)),
        line("zoom"@, text::int_text(s.zoom as int)),
        line("sort_key"@, text::decimal(s.sort_key as nat)),
        line("sort_desc"@, text::bool_text(s.sort_desc)),
        line("show_hidden"@, text::bool_text(s.show_hidden)),
        line("width"@, text::int_text(s.width as int)),
        line("height"@, text::int_text(s.height as int)),
        line("maximized"@, text::bool_text(s.maximized)),
    ]
}

/// The values that `serialize` writes are clean.
proof fn lemma_values_clean(s: Settings)
    ensures
        clean_value(text::bool_text(s.is_list)),
        clean_value(text::int_text(s.zoom as int)),
        clean_value(text::decimal(s.sort_key as nat)),
        clean_value(text::bool_text(s.sort_desc)),
        clean_value(text::bool_text(s.show_hidden)),
        clean_value(text::int_text(s.width as int)),
        clean_value(text::int_text(s.height as int)),
        clean_value(text::bool_text(s.maximized)),
{
    lemma_bool_value(s.is_list);
    lemma_int_value(s.zoom);
    text::lemma_decimal(s.sort_key as nat);
    lemma_bool_value(s.sort_desc);
    lemma_bool_value(s.show_hidden);
    lemma_int_value(s.width);
    lemma_int_value(s.height);
    lemma_bool_value(s.maximized);
}

/// The text that `serialize` writes splits into its eight lines.
proof fn lemma_serialized_lines(s: Settings)
    ensures
        text::lines(serialized(s)) == settings_lines(s),
{
    lemma_clean_keys();
    lemma_values_clean(s);
    let ls = settings_lines(s);
    lemma_line_splits("is_list"@, text::bool_text(s.is_list));
    lemma_line_splits("zoom"@, text::int_text(s.zoom as int));
    lemma_line_splits("sort_key"@, text::decimal(s.sort_key as nat));
    lemma_line_splits("sort_desc"@, text::bool_text(s.sort_desc));
    lemma_line_splits("show_hidden"@, text::bool_text(s.show_hidden));
    lemma_line_splits("width"@, text::int_text(s.width as int));
    lemma_line_splits("height"@, text::int_text(s.height as int));
    lemma_line_splits("maximized"@, text::bool_text(s.maximized));
    let r8 = ls[7].push('\n');
    let r7 = ls[6].push('\n') + r8;
    let r6 = ls[5].push('\n') + r7;
    let r5 = ls[4].push('\n') + r6;
    let r4 = ls[3].push('\n') + r5;
    let r3 = ls[2].push('\n') + r4;
    let r2 = ls[1].push('\n') + r3;
    let r1 = ls[0].push('\n') + r2;
    assert(r1 == serialized(s));
    text::lemma_lines_cons(ls[7], seq![]);
    assert(ls[7].push('\n') + seq![] =~= r8);
    assert(text::lines(seq![]) =~= Seq::<Seq<char>>::empty());
    text::lemma_lines_cons(ls[6], r8);
    text::lemma_lines_cons(ls[5], r7);
    text::lemma_lines_cons(ls[4], r6);
    text::lemma_lines_cons(ls[3], r5);
    text::lemma_lines_cons(ls[2], r4);
    text::lemma_lines_cons(ls[1], r3);
    text::lemma_lines_cons(ls[0], r2);
    assert(text::lines(serialized(s)) =~= ls);
}

/// A written line does to the preferences what its entry does.
proof fn lemma_apply_written_line(x: Settings, k: Seq<char>, v: Seq<char>)
    requires
        clean_key(k),
        clean_value(v),
    ensures
        apply_line(x, line(k, v)) == apply_entry(x, k, v),
{
    lemma_line_splits(k, v);
}

proof fn lemma_apply_push(ls: Seq<Seq<char>>, l: Seq<char>)
    ensures
        apply_lines(ls.push(l)) == apply_line(apply_lines(ls), l),
{
    assert(ls.push(l).drop_last() =~= ls);
}

/// `s` as parsing can hold it: the zoom brought into range, and a sort column
/// other than the three known ones read as the first (by name).
pub open spec fn normalized(s: Settings) -> Settings {
    Settings {
        zoom: clamp_zoom(s.zoom),
        sort_key: if s.sort_key <= 2 {
            s.sort_key
        } else {
            0
        },
        ..s
    }
}

/// Serializing and parsing back gives the preferences as parsing can hold them:
/// the same preferences exactly when the zoom is in range and the sort column is
/// one of the three, and otherwise the zoom clamped and the sort column by name.
pub proof fn lemma_serialize_then_parse(s: Settings)
    ensures
        parsed(serialized(s)) == normalized(s),
        in_range(s) <==> normalized(s) == s,
{
    lemma_keys();
    lemma_clean_keys();
    lemma_values_clean(s);
    lemma_serialized_lines(s);
    let ls = settings_lines(s);
    let d = default_settings();
    lemma_bool_value(s.is_list);
    lemma_int_value(s.zoom);
    text::lemma_parse_u8_decimal(s.sort_key);
    lemma_bool_value(s.sort_desc);
    lemma_bool_value(s.show_hidden);
    lemma_int_value(s.width);
    lemma_int_value(s.height);
    lemma_bool_value(s.maximized);

    let e: Seq<Seq<char>> = seq![];
    assert(apply_lines(e) == d);
    lemma_apply_push(e, ls[0]);
    lemma_apply_written_line(d, "is_list"@, text::bool_text(s.is_list));
    let s1 = Settings { is_list: s.is_list, ..d };
    assert(apply_lines(e.push(ls[0])) == s1);

    lemma_apply_push(e.push(ls[0]), ls[1]);
    lemma_apply_written_line(s1, "zoom"@, text::int_text(s.zoom as int));
    let s2 = Settings { zoom: clamp_zoom(s.zoom), ..s1 };
    assert(apply_lines(e.push(ls[0]).push(ls[1])) == s2);

    lemma_apply_push(e.push(ls[0]).push(ls[1]), ls[2]);
    lemma_apply_written_line(s2, "sort_key"@, text::decimal(s.sort_key as nat));
    let s3 = Settings {
        sort_key: if s.sort_key <= 2 {
            s.sort_key
        } else {
            s2.sort_key
        },
        ..s2
    };
    assert(apply_lines(e.push(ls[0]).push(ls[1]).push(ls[2])) == s3);

    lemma_apply_push(e.push(ls[0]).push(ls[1]).push(ls[2]), ls[3]);
    lemma_apply_written_line(s3, "sort_desc"@, text::bool_text(s.sort_desc));
    let s4 = Settings { sort_desc: s.sort_desc, ..s3 };
    assert(apply_lines(e.push(ls[0]).push(ls[1]).push(ls[2]).push(ls[3])) == s4);

    let p4 = e.push(ls[0]).push(ls[1]).push(ls[2]).push(ls[3]);
    lemma_apply_push(p4, ls[4]);
    lemma_apply_written_line(s4, "show_hidden"@, text::bool_text(s.show_hidden));
    let s5 = Settings { show_hidden: s.show_hidden, ..s4 };
    assert(apply_lines(p4.push(ls[4])) == s5);

    lemma_apply_push(p4.push(ls[4]), ls[5]);
    lemma_apply_written_line(s5, "width"@, text::int_text(s.width as int));
    let s6 = Settings { width: s.width, ..s5 };
    assert(apply_lines(p4.push(ls[4]).push(ls[5])) == s6);

    lemma_apply_push(p4.push(ls[4]).push(ls[5]), ls[6]);
    lemma_apply_written_line(s6, "height"@, text::int_text(s.height as int));
    let s7 = Settings { height: s.height, ..s6 };
    assert(apply_lines(p4.push(ls[4]).push(ls[5]).push(ls[6])) == s7);

    lemma_apply_push(p4.push(ls[4]).push(ls[5]).push(ls[6]), ls[7]);
    lemma_apply_written_line(s7, "maximized"@, text::bool_text(s.maximized));
    let s8 = Settings { maximized: s.maximized, ..s7 };
    assert(apply_lines(p4.push(ls[4]).push(ls[5]).push(ls[6]).push(ls[7])) == s8);
    assert(p4.push(ls[4]).push(ls[5]).push(ls[6]).push(ls[7]) =~= ls);
}

/// Whatever the text, the parsed preferences hold a zoom within the supported
/// range and one of the three sort columns.
pub proof fn lemma_parse_in_range(t: Seq<char>)
    ensures
        in_range(parsed(t)),
{
    lemma_apply_lines_in_range(text::lines(t));
}

proof fn lemma_apply_lines_in_range(ls: Seq<Seq<char>>)
    ensures
        in_range(apply_lines(ls)),
    decreases ls.len(),
{
    if ls.len() > 0 {
        lemma_apply_lines_in_range(ls.drop_last());
    }
}

/// An empty text gives the defaults.
pub proof fn lemma_parse_empty()
    ensures
        parsed(seq![]) == default_settings(),
{
    assert(text::lines(seq![]) =~= Seq::<Seq<char>>::empty());
}

/// Whether `k` is one of the keys that the preferences file knows.
pub open spec fn known_key(k: Seq<char>) -> bool {
    k == "is_list"@ || k == "zoom"@ || k == "sort_key"@ || k == "sort_desc"@ || k
        == "show_hidden"@ || k == "width"@ || k == "height"@ || k == "maximized"@
}

/// A line read without its final `\r` does the same.
proof fn lemma_apply_line_strip_cr(x: Settings, l: Seq<char>)
    ensures
        apply_line(x, text::strip_cr(l)) == apply_line(x, l),
{
    if l.len() > 0 && l.last() == '\r' {
        let m = l.drop_last();
        assert(l =~= m.push('\r'));
        text::lemma_index_of(m, '=');
        let j = text::index_of(m, '=');
        if j < m.len() {
            text::lemma_index_of_is(l, '=', j);
            assert(l.take(j) =~= m.take(j));
            assert(l.skip(j + 1) =~= m.skip(j + 1).push('\r'));
            text::lemma_trim_push_space(m.skip(j + 1), '\r');
        } else {
            text::lemma_index_of_is(l, '=', l.len() as int);
        }
    }
}

/// Ending the text with `\n` changes nothing.
proof fn lemma_parse_newline(t: Seq<char>)
    ensures
        parsed(t.push('\n')) == parsed(t),
{
    text::lemma_lines_newline(t);
    let ls = text::lines(t);
    let e: Seq<char> = seq![];
    if t.len() == 0 || t.last() == '\n' {
        lemma_apply_push(ls, e);
        text::lemma_index_of(e, '=');
    } else {
        text::lemma_lines_nonempty(t);
        lemma_apply_push(ls.drop_last(), text::strip_cr(ls.last()));
        lemma_apply_push(ls.drop_last(), ls.last());
        assert(ls.drop_last().push(ls.last()) =~= ls);
        lemma_apply_line_strip_cr(apply_lines(ls.drop_last()), ls.last());
    }
}

/// The file is read line by line: a line appended to a text does to the
/// preferences what that line does, and nothing else.
pub proof fn lemma_parse_appended_line(t: Seq<char>, l: Seq<char>)
    requires
        !l.contains('\n'),
    ensures
        parsed(t.push('\n') + l) == apply_line(parsed(t), l),
{
    lemma_parse_newline(t);
    text::lemma_lines_append(t.push('\n'), l);
    if l.len() > 0 {
        lemma_apply_push(text::lines(t.push('\n')), l);
    } else {
        text::lemma_index_of(l, '=');
    }
}

/// A line without an `=`, or whose key is not one the file knows, changes
/// nothing; a `zoom` line whose value is a number sets the zoom, brought into
/// range.
pub proof fn lemma_unknown_lines_ignored(x: Settings, l: Seq<char>)
    ensures
        text::split_once(l, '=') is None ==> apply_line(x, l) == x,
        text::split_once(l, '=') matches Some((k, v)) ==> (!known_key(text::trim(k))
            ==> apply_line(x, l) == x),
        text::split_once(l, '=') matches Some((k, v)) ==> (text::trim(k) == "zoom"@
            ==> apply_line(x, l) == (match text::parse_i32(text::trim(v)) {
            Some(z) => Settings { zoom: clamp_zoom(z), ..x },
            None => x,
        })),
{
    lemma_keys();
}

/// A line `  zoom = 100 ` appended to any text sets the zoom to 100 and
/// leaves the rest as the text had it.
pub proof fn lemma_zoom_line_appended(t: Seq<char>)
    ensures
        parsed(t.push('\n') + "  zoom = 100 "@) == (Settings { zoom: 100, ..parsed(t) }),
{
    reveal_strlit("  zoom = 100 ");
    let l = seq![' ', ' ', 'z', 'o', 'o', 'm', ' ', '=', ' ', '1', '0', '0', ' '];
    assert(l =~= "  zoom = 100 "@);
    assert(!l.contains('\n'));
    lemma_parse_appended_line(t, l);
    let k = seq![' ', ' ', 'z', 'o', 'o', 'm', ' '];
    let v = seq![' ', '1', '0', '0', ' '];
    text::lemma_index_of_is(l, '=', 7);
    assert(l.take(7) =~= k);
    assert(l.skip(8) =~= v);
    assert(text::split_once(l, '=') == Some((k, v)));
    let zoom = seq!['z', 'o', 'o', 'm'];
    let hundred = seq!['1', '0', '0'];
    assert(k.drop_first().drop_first() =~= zoom.push(' '));
    assert(text::trim_start(zoom.push(' ')) == zoom.push(' '));
    assert(text::trim_start(k.drop_first()) == text::trim_start(zoom.push(' ')));
    assert(text::trim_start(k) == zoom.push(' '));
    assert(zoom.push(' ').drop_last() =~= zoom);
    assert(text::trim_end(zoom) == zoom);
    assert(text::trim(k) == zoom);
    assert(v.drop_first() =~= hundred.push(' '));
    assert(text::trim_start(hundred.push(' ')) == hundred.push(' '));
    assert(text::trim_start(v) == hundred.push(' '));
    assert(hundred.push(' ').drop_last() =~= hundred);
    assert(text::trim_end(hundred) == hundred);
    assert(text::trim(v) == hundred);
    assert(hundred.drop_last() =~= seq!['1', '0']);
    assert(seq!['1', '0'].drop_last() =~= seq!['1']);
    assert(seq!['1'].drop_last() =~= Seq::<char>::empty());
    assert(text::digits_value(Seq::<char>::empty()) == 0);
    assert(text::digit_value('1') == 1);
    assert(text::digit_value('0') == 0);
    assert(seq!['1'].last() == '1');
    assert(seq!['1', '0'].last() == '0');
    assert(hundred.last() == '0');
    assert(text::digits_value(seq!['1']) == 1);
    assert(text::digits_value(seq!['1', '0']) == 10);
    assert(text::digits_value(hundred) == 100);
    assert(text::is_digit(hundred[0]) && text::is_digit(hundred[1]) && text::is_digit(hundred[2]));
    assert(text::all_digits(hundred));
    assert(text::parse_i32(hundred) == Some(100i32));
    lemma_keys();
    lemma_unknown_lines_ignored(parsed(t), l);
}

} // verus!
