//! The Trash, per the freedesktop.org spec: a `Trash` directory holding `files/`
//! (the trashed items) and `info/<name>.trashinfo` (where each came from, and
//! when). This module reads `.trashinfo` bodies and orders what the trash holds;
//! the directories themselves are read and changed by the caller.
use vstd::prelude::*;

use crate::text;

verus! {

broadcast use vstd::string::group_string_axioms;

/// One item sitting in the Trash.
#[derive(Debug, Clone, PartialEq, Eq)]
pub struct Entry {
    /// The item's name inside `files/` (unique within the trash).
    pub name: String,
    /// Where it came from, to restore it to.
    pub original: String,
    /// Deletion timestamp as recorded (`YYYY-MM-DDTHH:MM:SS`), if present.
    pub deleted: Option<String>,
}

/// An entry as plain values: its name, its original path, and its deletion date.
pub type EntryView = (Seq<char>, Seq<char>, Option<Seq<char>>);

impl View for Entry {
    type V = EntryView;

    open spec fn view(&self) -> EntryView {
        (
            self.name@,
            self.original@,
            match self.deleted {
                Some(d) => Some(d@),
                None => None,
            },
        )
    }
}

// ---------------------------------------------------------------------------
// .trashinfo bodies
// ---------------------------------------------------------------------------

/// The value of the first line in `ls` of the form `key=value` (the key trimmed,
/// split at the first `=`), trimmed.
pub open spec fn value_in(ls: Seq<Seq<char>>, key: Seq<char>) -> Option<Seq<char>>
    decreases ls.len(),
{
    if ls.len() == 0 {
        None
    } else {
        match text::split_once(ls[0], '=') {
            Some((k, v)) => if text::trim(k) == key {
                Some(text::trim(v))
            } else {
                value_in(ls.drop_first(), key)
            },
            None => value_in(ls.drop_first(), key),
        }
    }
}

/// The value of `key=` in a `.trashinfo` body.
pub open spec fn value_of_spec(text: Seq<char>, key: Seq<char>) -> Option<Seq<char>> {
    value_in(text::lines(text), key)
}

/// The value of `key=` in a `.trashinfo` body.
pub fn value_of(text: &str, key: &str) -> (r: Option<String>)
    ensures
        r matches Some(v) ==> value_of_spec(text@, key@) == Some(v@),
        r is None ==> value_of_spec(text@, key@) is None,
{
    let cs = text::chars_of(text);
    let ls = text::lines_of(&cs);
    let k = text::chars_of(key);
    let mut i: usize = 0;
    assert(text::views(ls@).skip(0) =~= text::views(ls@));
    while i < ls.len()
        invariant
            i <= ls.len(),
            k@ == key@,
            text::views(ls@) == text::lines(cs@),
            value_of_spec(text@, key@) == value_in(text::views(ls@).skip(i as int), key@),
        decreases ls.len() - i,
    {
        let ghost rest = text::views(ls@).skip(i as int);
        assert(rest[0] == ls@[i as int]@);
        assert(rest.drop_first() =~= text::views(ls@).skip(i + 1));
        if let Some((a, b)) = text::split_once_chars(&ls[i], '=') {
            let ka = text::trim_chars(&a);
            if text::chars_eq(&ka, &k) {
                let v = text::trim_chars(&b);
                return Some(text::string_of(&v));
            }
        }
        i += 1;
    }
    assert(text::views(ls@).skip(i as int) =~= Seq::<Seq<char>>::empty());
    None
}

// ---------------------------------------------------------------------------
// Percent-decoding
// ---------------------------------------------------------------------------

/// The value of the hexadecimal digit `b`.
pub open spec fn hex_value(b: u8) -> Option<u8> {
    if 48 <= b <= 57 {
        Some((b - 48) as u8)
    } else if 97 <= b <= 102 {
        Some((b - 87) as u8)
    } else if 65 <= b <= 70 {
        Some((b - 55) as u8)
    } else {
        None
    }
}

/// The byte that the two hexadecimal digits `b1 b2` spell, if both are digits.
pub open spec fn hex_pair(b1: u8, b2: u8) -> Option<u8> {
    match (hex_value(b1), hex_value(b2)) {
        (Some(h), Some(l)) => Some((h * 16 + l) as u8),
        _ => None,
    }
}

/// The bytes `b[i..]` with each `%XY` that is followed by enough input and reads
/// as a hexadecimal byte replaced by that byte.
pub open spec fn decode_from(b: Seq<u8>, i: int) -> Seq<u8>
    decreases b.len() - i,
{
    if i < 0 || i >= b.len() {
        seq![]
    } else if b[i] == 37 && i + 2 < b.len() && hex_pair(b[i + 1], b[i + 2]) is Some {
        seq![hex_pair(b[i + 1], b[i + 2])->0] + decode_from(b, i + 3)
    } else {
        seq![b[i]] + decode_from(b, i + 1)
    }
}

/// What `String::from_utf8_lossy` makes of `bytes`.
pub uninterp spec fn utf8_lossy(bytes: Seq<u8>) -> Seq<char>;

/// `String::from_utf8_lossy`: the text of `bytes`, each invalid UTF-8 sequence
/// replaced by U+FFFD; bytes that are valid UTF-8 give exactly what they encode.
#[verifier::external_body]
fn from_utf8_lossy(bytes: &[u8]) -> (s: String)
    ensures
        s@ == utf8_lossy(bytes@),
        vstd::utf8::valid_utf8(bytes@) ==> s@ == vstd::utf8::decode_utf8(bytes@),
{
    String::from_utf8_lossy(bytes).into_owned()
}

/// The value of the hexadecimal digit `b`.
fn hex_value_exec(b: u8) -> (r: Option<u8>)
    ensures
        r == hex_value(b),
{
    if 48 <= b && b <= 57 {
        Some(b - 48)
    } else if 97 <= b && b <= 102 {
        Some(b - 87)
    } else if 65 <= b && b <= 70 {
        Some(b - 55)
    } else {
        None
    }
}

/// The byte that `b1 b2` read as in base 16.
fn hex_pair_exec(b1: u8, b2: u8) -> (r: Option<u8>)
    ensures
        r == hex_pair(b1, b2),
{
    match (hex_value_exec(b1), hex_value_exec(b2)) {
        (Some(h), Some(l)) => Some(h * 16 + l),
        _ => None,
    }
}

/// The bytes of `bytes` percent-decoded.
pub fn percent_decode_bytes(bytes: &[u8]) -> (out: Vec<u8>)
    ensures
        out@ == decode_from(bytes@, 0),
{
    let mut out: Vec<u8> = Vec::new();
    let mut i: usize = 0;
    while i < bytes.len()
        invariant
            i <= bytes.len(),
            out@ + decode_from(bytes@, i as int) == decode_from(bytes@, 0),
        decreases bytes.len() - i,
    {
        let ghost before = out@;
        if bytes[i] == 37 && bytes.len() - i > 2 {
            if let Some(byte) = hex_pair_exec(bytes[i + 1], bytes[i + 2]) {
                out.push(byte);
                assert(out@ + decode_from(bytes@, i + 3) =~= before + decode_from(bytes@, i as int));
                i += 3;
                continue;
            }
        }
        out.push(bytes[i]);
        assert(out@ + decode_from(bytes@, i + 1) =~= before + decode_from(bytes@, i as int));
        i += 1;
    }
    assert(out@ + decode_from(bytes@, i as int) =~= out@);
    out
}

/// What `percent_decode` makes of `text`: the text of its decoded bytes, read
/// as UTF-8 where they are valid and through `from_utf8_lossy` where not.
pub open spec fn percent_decoded(text: Seq<char>) -> Seq<char> {
    let b = decode_from(vstd::utf8::encode_utf8(text), 0);
    if vstd::utf8::valid_utf8(b) {
        vstd::utf8::decode_utf8(b)
    } else {
        utf8_lossy(b)
    }
}

/// Whether `b` holds an escape: a `%` followed by two hexadecimal digits.
pub open spec fn has_escape(b: Seq<u8>) -> bool {
    exists|i: int| 0 <= i && i + 2 < b.len() && #[trigger] b[i] == 37 && hex_pair(b[i + 1], b[i + 2]) is Some
}

/// Decode the percent-escapes the spec uses in `Path`.
pub fn percent_decode(text: &str) -> (r: String)
    ensures
        r@ == percent_decoded(text@),
{
    let bytes = text.as_bytes();
    let out = percent_decode_bytes(bytes);
    from_utf8_lossy(&out)
}

// ---------------------------------------------------------------------------
// Entries
// ---------------------------------------------------------------------------

/// The item name that an info file called `file_name` describes: the name less
/// its `.trashinfo` suffix.
pub open spec fn info_item_name_spec(file_name: Seq<char>) -> Option<Seq<char>> {
    let suffix = ".trashinfo"@;
    if file_name.len() >= suffix.len() && file_name.skip(file_name.len() - suffix.len())
        == suffix {
        Some(file_name.take(file_name.len() - suffix.len()))
    } else {
        None
    }
}

/// The item name that an info file called `file_name` describes, if it is an
/// info file at all.
pub fn info_item_name(file_name: &str) -> (r: Option<String>)
    ensures
        r matches Some(n) ==> info_item_name_spec(file_name@) == Some(n@),
        r is None ==> info_item_name_spec(file_name@) is None,
{
    let cs = text::chars_of(file_name);
    let suffix = text::chars_of(".trashinfo");
    if cs.len() < suffix.len() {
        return None;
    }
    let cut = cs.len() - suffix.len();
    let tail = text::slice_chars(&cs, cut, cs.len());
    assert(tail@ =~= cs@.skip(cut as int));
    if text::chars_eq(&tail, &suffix) {
        let head = text::slice_chars(&cs, 0, cut);
        assert(head@ =~= cs@.take(cut as int));
        Some(text::string_of(&head))
    } else {
        None
    }
}

/// The entry that the item `name` with the `.trashinfo` body `body` makes:
/// `None` without a `Path`.
pub open spec fn entry_spec(name: Seq<char>, body: Seq<char>) -> Option<EntryView> {
    match value_of_spec(body, "Path"@) {
        Some(p) => Some((name, percent_decoded(p), value_of_spec(body, "DeletionDate"@))),
        None => None,
    }
}

/// The entry for the trashed item `name`, read from its `.trashinfo` body.
pub fn entry_from_info(name: String, body: &str) -> (r: Option<Entry>)
    ensures
        r matches Some(e) ==> entry_spec(name@, body@) == Some(e@),
        r is None ==> entry_spec(name@, body@) is None,
{
    match value_of(body, "Path") {
        Some(p) => {
            let original = percent_decode(p.as_str());
            let deleted = value_of(body, "DeletionDate");
            let e = Entry { name, original, deleted };
            assert(e@.2 == value_of_spec(body@, "DeletionDate"@));
            Some(e)
        },
        None => None,
    }
}

// ---------------------------------------------------------------------------
// Ordering: newest first
// ---------------------------------------------------------------------------

/// `a` sorts before `b` as strings do: by the first character that differs, a
/// proper prefix first. (Comparing characters by their code agrees with
/// comparing UTF-8 bytes.)
pub open spec fn text_lt(a: Seq<char>, b: Seq<char>) -> bool
    decreases a.len(),
{
    if a.len() == 0 {
        b.len() > 0
    } else if b.len() == 0 {
        false
    } else if a[0] != b[0] {
        a[0] < b[0]
    } else {
        text_lt(a.drop_first(), b.drop_first())
    }
}

/// `a` sorts before `b` as `Option`s do: `None` first.
pub open spec fn option_lt(a: Option<Seq<char>>, b: Option<Seq<char>>) -> bool {
    match (a, b) {
        (None, Some(_)) => true,
        (Some(x), Some(y)) => text_lt(x, y),
        _ => false,
    }
}

/// Entry `a` is listed before entry `b`: it was recorded as deleted later, or at
/// the same time under an earlier name.
pub open spec fn sorts_before(a: EntryView, b: EntryView) -> bool {
    option_lt(b.2, a.2) || (a.2 == b.2 && text_lt(a.0, b.0))
}

/// `s` with `x` placed before the first entry that it sorts before (after every
/// entry that does not sort after it).
pub open spec fn insert_entry(x: EntryView, s: Seq<EntryView>) -> Seq<EntryView>
    decreases s.len(),
{
    if s.len() == 0 {
        seq![x]
    } else if sorts_before(x, s[0]) {
        seq![x] + s
    } else {
        seq![s[0]] + insert_entry(x, s.drop_first())
    }
}

/// `s` sorted newest first, entries that compare equal kept in their order (a
/// stable sort by `sorts_before`).
pub open spec fn sorted_entries(s: Seq<EntryView>) -> Seq<EntryView>
    decreases s.len(),
{
    if s.len() == 0 {
        seq![]
    } else {
        insert_entry(s.last(), sorted_entries(s.drop_last()))
    }
}

/// The plain values of a list of entries.
pub open spec fn entry_views(v: Seq<Entry>) -> Seq<EntryView> {
    v.map_values(|e: Entry| e@)
}

/// Whether `a` sorts before `b` as strings.
fn chars_lt(a: &[char], b: &[char]) -> (r: bool)
    ensures
        r == text_lt(a@, b@),
{
    let mut i: usize = 0;
    assert(a@.skip(0) =~= a@);
    assert(b@.skip(0) =~= b@);
    while i < a.len() && i < b.len() && a[i] == b[i]
        invariant
            i <= a.len(),
            i <= b.len(),
            text_lt(a@, b@) == text_lt(a@.skip(i as int), b@.skip(i as int)),
        decreases a.len() - i,
    {
        assert(a@.skip(i as int).drop_first() =~= a@.skip(i + 1));
        assert(b@.skip(i as int).drop_first() =~= b@.skip(i + 1));
        i += 1;
    }
    if i == a.len() {
        i < b.len()
    } else if i == b.len() {
        false
    } else {
        assert(a@.skip(i as int)[0] == a@[i as int]);
        assert(b@.skip(i as int)[0] == b@[i as int]);
        a[i] < b[i]
    }
}

/// Whether the optional text `a` sorts before `b`.
fn option_chars_lt(a: &Option<String>, b: &Option<String>) -> (r: bool)
    ensures
        r == option_lt(
            match a {
                Some(x) => Some(x@),
                None => None,
            },
            match b {
                Some(x) => Some(x@),
                None => None,
            },
        ),
{
    match (a, b) {
        (None, Some(_)) => true,
        (Some(x), Some(y)) => {
            let xs = text::chars_of(x.as_str());
            let ys = text::chars_of(y.as_str());
            chars_lt(&xs, &ys)
        },
        _ => false,
    }
}

/// Whether the optional texts `a` and `b` are equal.
fn option_chars_eq(a: &Option<String>, b: &Option<String>) -> (r: bool)
    ensures
        r == ((match a {
            Some(x) => Some(x@),
            None => None,
        }) == (match b {
            Some(x) => Some(x@),
            None => None,
        })),
{
    match (a, b) {
        (None, None) => true,
        (Some(x), Some(y)) => *x == *y,
        _ => false,
    }
}

/// Whether entry `a` is listed before entry `b`.
fn entry_sorts_before(a: &Entry, b: &Entry) -> (r: bool)
    ensures
        r == sorts_before(a@, b@),
{
    if option_chars_lt(&b.deleted, &a.deleted) {
        return true;
    }
    if !option_chars_eq(&a.deleted, &b.deleted) {
        return false;
    }
    let an = text::chars_of(a.name.as_str());
    let bn = text::chars_of(b.name.as_str());
    chars_lt(&an, &bn)
}

/// `insert_entry` places `x` at the first entry it sorts before.
proof fn lemma_insert_entry_at(x: EntryView, s: Seq<EntryView>, p: int)
    requires
        0 <= p <= s.len(),
        p < s.len() ==> sorts_before(x, s[p]),
        forall|j: int| 0 <= j < p ==> !sorts_before(x, #[trigger] s[j]),
    ensures
        insert_entry(x, s) == s.insert(p, x),
    decreases s.len(),
{
    if s.len() == 0 {
        assert(s.insert(p, x) =~= seq![x]);
    } else if sorts_before(x, s[0]) {
        assert(p == 0) by {
            if p > 0 {
                assert(!sorts_before(x, s[0]));
            }
        }
        assert(s.insert(p, x) =~= seq![x] + s);
    } else {
        assert(p > 0);
        lemma_insert_entry_at(x, s.drop_first(), p - 1);
        assert(s.insert(p, x) =~= seq![s[0]] + s.drop_first().insert(p - 1, x));
    }
}

/// Sort `entries` newest-recorded first, then by name; a stable sort.
pub fn sort_entries(entries: Vec<Entry>) -> (out: Vec<Entry>)
    ensures
        entry_views(out@) == sorted_entries(entry_views(entries@)),
{
    broadcast use vstd::seq_lib::group_seq_properties;

    let ghost input = entry_views(entries@);
    let mut rest = entries;
    let mut out: Vec<Entry> = Vec::new();
    let ghost mut i: int = 0;
    assert(input.skip(0) =~= input);
    assert(entry_views(out@) =~= sorted_entries(input.take(0)));
    while rest.len() > 0
        invariant
            0 <= i <= input.len(),
            entry_views(rest@) == input.skip(i),
            entry_views(out@) == sorted_entries(input.take(i)),
        decreases rest.len(),
    {
        let ghost before = rest@;
        assert(entry_views(before).len() == before.len());
        assert(input.skip(i).len() == input.len() - i);
        assert(entry_views(before)[0] == before[0]@);
        assert(input.skip(i)[0] == input[i]);
        let x = rest.remove(0);
        assert(x@ == input[i]);
        assert(entry_views(rest@) =~= input.skip(i + 1)) by {
            assert(rest@ =~= before.drop_first());
            assert(entry_views(before.drop_first()) =~= entry_views(before).drop_first());
            assert(input.skip(i).drop_first() =~= input.skip(i + 1));
        }
        let mut p: usize = 0;
        while p < out.len() && !entry_sorts_before(&x, &out[p])
            invariant
                p <= out.len(),
                forall|j: int| 0 <= j < p ==> !sorts_before(x@, #[trigger] entry_views(out@)[j]),
            decreases out.len() - p,
        {
            p += 1;
        }
        let ghost sorted_before = entry_views(out@);
        proof {
            lemma_insert_entry_at(x@, sorted_before, p as int);
            assert(input.take(i + 1).drop_last() =~= input.take(i));
            assert(input.take(i + 1).last() == input[i]);
        }
        out.insert(p, x);
        assert(entry_views(out@) =~= sorted_before.insert(p as int, x@));
        proof {
            i = i + 1;
        }
    }
    assert(input.take(i) =~= input) by {
        assert(input.skip(i).len() == 0);
    }
    out
}

/// The entries that a list of (item name, `.trashinfo` body) pairs describes,
/// in listing order: those whose body names a `Path`.
pub open spec fn entries_of(infos: Seq<(Seq<char>, Seq<char>)>) -> Seq<EntryView> {
    infos.filter_map(|p: (Seq<char>, Seq<char>)| entry_spec(p.0, p.1))
}

/// The plain values of (item name, `.trashinfo` body) pairs.
pub open spec fn info_views(v: Seq<(String, String)>) -> Seq<(Seq<char>, Seq<char>)> {
    v.map_values(|p: (String, String)| (p.0@, p.1@))
}

/// Everything that the `.trashinfo` bodies `infos` (each with the name of its
/// item in `files/`, and only for items that are there) describe, newest-recorded
/// first. An info without a `Path` is left out.
pub fn entries_from_infos(infos: Vec<(String, String)>) -> (out: Vec<Entry>)
    ensures
        entry_views(out@) == sorted_entries(entries_of(info_views(infos@))),
{
    broadcast use vstd::seq_lib::group_seq_properties;

    let ghost all = info_views(infos@);
    let mut found: Vec<Entry> = Vec::new();
    let n = infos.len();
    let mut rest = infos;
    let ghost mut i: int = 0;
    assert(all.skip(0) =~= all);
    assert(all.take(0).filter_map(|p: (Seq<char>, Seq<char>)| entry_spec(p.0, p.1)) =~= Seq::<
        EntryView,
    >::empty());
    while rest.len() > 0
        invariant
            0 <= i <= all.len(),
            n == all.len(),
            info_views(rest@) == all.skip(i),
            entry_views(found@) == entries_of(all.take(i)),
        decreases rest.len(),
    {
        let ghost before = rest@;
        assert(info_views(before).len() == before.len());
        assert(all.skip(i).len() == all.len() - i);
        assert(info_views(before)[0] == (before[0].0@, before[0].1@));
        assert(all.skip(i)[0] == all[i]);
        let (name, body) = rest.remove(0);
        assert(rest@ =~= before.drop_first());
        assert(info_views(before.drop_first()) =~= info_views(before).drop_first());
        assert(all.skip(i).drop_first() =~= all.skip(i + 1));
        assert(info_views(rest@) =~= all.skip(i + 1));
        assert((name@, body@) == all[i]);
        let ghost prior = entry_views(found@);
        proof {
            assert(all.take(i + 1).drop_last() =~= all.take(i));
            assert(all.take(i + 1).last() == all[i]);
        }
        match entry_from_info(name, body.as_str()) {
            Some(e) => {
                found.push(e);
                assert(entry_views(found@) =~= prior.push(e@));
                assert(entries_of(all.take(i + 1)) =~= entries_of(all.take(i)) + seq![e@]);
            },
            None => {
                assert(entries_of(all.take(i + 1)) =~= entries_of(all.take(i)));
            },
        }
        proof {
            i = i + 1;
        }
    }
    assert(all.take(i) =~= all) by {
        assert(all.skip(i).len() == 0);
    }
    sort_entries(found)
}

/// The position of the first entry that was trashed from `original`, if any;
/// paths are compared component by component, as `Path`'s `==` does.
pub fn position_of_original(entries: &[Entry], original: &str) -> (r: Option<usize>)
    ensures
        r matches Some(i) ==> i < entries.len() && crate::fileops::path_components(
            entries@[i as int].original@,
        ) == crate::fileops::path_components(original@) && forall|j: int|
            0 <= j < i ==> crate::fileops::path_components(entries@[j].original@)
                != crate::fileops::path_components(original@),
        r is None ==> forall|j: int|
            0 <= j < entries.len() ==> crate::fileops::path_components(entries@[j].original@)
                != crate::fileops::path_components(original@),
{
    let mut i: usize = 0;
    while i < entries.len()
        invariant
            i <= entries.len(),
            forall|j: int|
                0 <= j < i ==> crate::fileops::path_components(entries@[j].original@)
                    != crate::fileops::path_components(original@),
        decreases entries.len() - i,
    {
        if crate::fileops::same_path(entries[i].original.as_str(), original) {
            return Some(i);
        }
        i += 1;
    }
    None
}

// ---------------------------------------------------------------------------
// Laws
// ---------------------------------------------------------------------------

proof fn lemma_text_lt_irreflexive(a: Seq<char>)
    ensures
        !text_lt(a, a),
    decreases a.len(),
{
    if a.len() > 0 {
        lemma_text_lt_irreflexive(a.drop_first());
    }
}

proof fn lemma_text_lt_transitive(a: Seq<char>, b: Seq<char>, c: Seq<char>)
    requires
        text_lt(a, b),
        text_lt(b, c),
    ensures
        text_lt(a, c),
    decreases a.len(),
{
    if a.len() > 0 && b.len() > 0 && c.len() > 0 && a[0] == b[0] && b[0] == c[0] {
        lemma_text_lt_transitive(a.drop_first(), b.drop_first(), c.drop_first());
    }
}

proof fn lemma_option_lt_irreflexive(a: Option<Seq<char>>)
    ensures
        !option_lt(a, a),
{
    if let Some(x) = a {
        lemma_text_lt_irreflexive(x);
    }
}

proof fn lemma_option_lt_transitive(a: Option<Seq<char>>, b: Option<Seq<char>>, c: Option<Seq<char>>)
    requires
        option_lt(a, b),
        option_lt(b, c),
    ensures
        option_lt(a, c),
{
    if let (Some(x), Some(y), Some(z)) = (a, b, c) {
        lemma_text_lt_transitive(x, y, z);
    }
}

proof fn lemma_sorts_before_irreflexive(a: EntryView)
    ensures
        !sorts_before(a, a),
{
    lemma_option_lt_irreflexive(a.2);
    lemma_text_lt_irreflexive(a.0);
}

proof fn lemma_sorts_before_transitive(a: EntryView, b: EntryView, c: EntryView)
    requires
        sorts_before(a, b),
        sorts_before(b, c),
    ensures
        sorts_before(a, c),
{
    if option_lt(b.2, a.2) && option_lt(c.2, b.2) {
        lemma_option_lt_transitive(c.2, b.2, a.2);
    } else if a.2 == b.2 && b.2 == c.2 {
        lemma_text_lt_transitive(a.0, b.0, c.0);
    }
}

/// Whether no entry of `s` sorts before one listed ahead of it.
pub open spec fn entries_in_order(s: Seq<EntryView>) -> bool {
    forall|i: int, j: int| 0 <= i < j < s.len() ==> !sorts_before(#[trigger] s[j], #[trigger] s[i])
}

proof fn lemma_insert_entry_contents(x: EntryView, s: Seq<EntryView>)
    ensures
        insert_entry(x, s).to_multiset() == s.to_multiset().insert(x),
        insert_entry(x, s).len() == s.len() + 1,
    decreases s.len(),
{
    broadcast use vstd::seq_lib::group_seq_properties, vstd::multiset::group_multiset_axioms;

    if s.len() == 0 {
        assert(seq![x] =~= Seq::<EntryView>::empty().push(x));
    } else if sorts_before(x, s[0]) {
        vstd::seq_lib::lemma_multiset_commutative(seq![x], s);
        assert(seq![x] =~= Seq::<EntryView>::empty().push(x));
        assert(seq![x].to_multiset() =~= vstd::multiset::Multiset::<EntryView>::empty().insert(x));
        assert(s.to_multiset().insert(x) =~= vstd::multiset::Multiset::<EntryView>::empty().insert(x).add(
            s.to_multiset(),
        ));
    } else {
        lemma_insert_entry_contents(x, s.drop_first());
        vstd::seq_lib::lemma_multiset_commutative(seq![s[0]], insert_entry(x, s.drop_first()));
        vstd::seq_lib::lemma_multiset_commutative(seq![s[0]], s.drop_first());
        assert(seq![s[0]] + s.drop_first() =~= s);
        assert(seq![s[0]] =~= Seq::<EntryView>::empty().push(s[0]));
        assert(seq![s[0]].to_multiset() =~= vstd::multiset::Multiset::<EntryView>::empty().insert(s[0]));
        assert(s.to_multiset().insert(x) =~= seq![s[0]].to_multiset().add(
            s.drop_first().to_multiset().insert(x),
        ));
    }
}

proof fn lemma_insert_entry_in_order(x: EntryView, s: Seq<EntryView>)
    requires
        entries_in_order(s),
    ensures
        entries_in_order(insert_entry(x, s)),
    decreases s.len(),
{
    broadcast use vstd::seq_lib::group_seq_properties;

    let r = insert_entry(x, s);
    if s.len() == 0 {
    } else if sorts_before(x, s[0]) {
        assert forall|i: int, j: int| 0 <= i < j < r.len() implies !sorts_before(
            #[trigger] r[j],
            #[trigger] r[i],
        ) by {
            if i == 0 {
                assert(r[j] == s[j - 1]);
                if sorts_before(s[j - 1], x) {
                    lemma_sorts_before_transitive(s[j - 1], x, s[0]);
                    if j - 1 == 0 {
                        lemma_sorts_before_irreflexive(s[0]);
                    }
                }
            } else {
                assert(r[i] == s[i - 1] && r[j] == s[j - 1]);
            }
        }
    } else {
        let t = s.drop_first();
        assert(entries_in_order(t)) by {
            assert forall|i: int, j: int| 0 <= i < j < t.len() implies !sorts_before(
                #[trigger] t[j],
                #[trigger] t[i],
            ) by {
                assert(t[i] == s[i + 1] && t[j] == s[j + 1]);
            }
        }
        lemma_insert_entry_in_order(x, t);
        lemma_insert_entry_contents(x, t);
        let u = insert_entry(x, t);
        assert forall|i: int, j: int| 0 <= i < j < r.len() implies !sorts_before(
            #[trigger] r[j],
            #[trigger] r[i],
        ) by {
            if i == 0 {
                assert(r[j] == u[j - 1]);
                assert(u.contains(u[j - 1]));
                assert(u.to_multiset().count(u[j - 1]) > 0);
                assert(t.to_multiset().insert(x).count(u[j - 1]) > 0);
                if u[j - 1] != x {
                    assert(t.to_multiset().count(u[j - 1]) > 0);
                    assert(t.contains(u[j - 1]));
                    let k = choose|k: int| 0 <= k < t.len() && t[k] == u[j - 1];
                    assert(s[k + 1] == t[k]);
                }
            } else {
                assert(r[i] == u[i - 1] && r[j] == u[j - 1]);
            }
        }
    }
}

/// The listing is newest first: no entry sorts before one listed ahead of it.
pub proof fn lemma_sorted_entries_in_order(s: Seq<EntryView>)
    ensures
        entries_in_order(sorted_entries(s)),
    decreases s.len(),
{
    if s.len() > 0 {
        lemma_sorted_entries_in_order(s.drop_last());
        lemma_insert_entry_in_order(s.last(), sorted_entries(s.drop_last()));
    }
}

/// Sorting neither loses nor invents an entry.
pub proof fn lemma_sorted_entries_same_entries(s: Seq<EntryView>)
    ensures
        sorted_entries(s).to_multiset() == s.to_multiset(),
    decreases s.len(),
{
    broadcast use vstd::seq_lib::group_seq_properties;

    if s.len() > 0 {
        lemma_sorted_entries_same_entries(s.drop_last());
        lemma_insert_entry_contents(s.last(), sorted_entries(s.drop_last()));
        assert(s.drop_last().push(s.last()) =~= s);
    }
}

/// Bytes with no escape from `i` on decode to themselves.
proof fn lemma_decode_without_escape(b: Seq<u8>, i: int)
    requires
        0 <= i <= b.len(),
        !has_escape(b),
    ensures
        decode_from(b, i) == b.skip(i),
    decreases b.len() - i,
{
    if i < b.len() {
        lemma_decode_without_escape(b, i + 1);
        if b[i] == 37 && i + 2 < b.len() {
            assert(hex_pair(b[i + 1], b[i + 2]) is None);
        }
        assert(b.skip(i) =~= seq![b[i]] + b.skip(i + 1));
    } else {
        assert(b.skip(i) =~= Seq::<u8>::empty());
    }
}

/// A text without an escape (`%` and two hexadecimal digits) decodes to
/// itself: `100%`, `%zz`, `%2` and `%+1` are read as they stand.
pub proof fn lemma_plain_text_unchanged(text: Seq<char>)
    requires
        !has_escape(vstd::utf8::encode_utf8(text)),
    ensures
        percent_decoded(text) == text,
{
    let b = vstd::utf8::encode_utf8(text);
    lemma_decode_without_escape(b, 0);
    assert(b.skip(0) =~= b);
    vstd::utf8::encode_utf8_valid_utf8(text);
    vstd::utf8::encode_utf8_decode_utf8(text);
}

/// Names compare as text does: at the first character where they differ, the
/// smaller character comes first; a name that is a beginning of another comes
/// before it; and nothing comes before itself.
pub proof fn lemma_text_lt_is_lexicographic(a: Seq<char>, b: Seq<char>, k: int)
    requires
        0 <= k <= a.len(),
        k <= b.len(),
        a.take(k) == b.take(k),
    ensures
        k < a.len() && k < b.len() && a[k] != b[k] ==> text_lt(a, b) == (a[k] < b[k]),
        k == a.len() ==> text_lt(a, b) == (a.len() < b.len()),
        k == b.len() && k < a.len() ==> !text_lt(a, b),
    decreases k,
{
    if k > 0 {
        assert(a[0] == a.take(k)[0]);
        assert(b[0] == b.take(k)[0]);
        assert(a.drop_first().take(k - 1) =~= a.take(k).drop_first());
        assert(b.drop_first().take(k - 1) =~= b.take(k).drop_first());
        lemma_text_lt_is_lexicographic(a.drop_first(), b.drop_first(), k - 1);
        if k < a.len() && k < b.len() {
            assert(a.drop_first()[k - 1] == a[k]);
            assert(b.drop_first()[k - 1] == b[k]);
        }
    }
}

/// Entries trashed at the same moment (or both without a date) are listed by
/// name, in text order; an entry with a later date comes before one with an
/// earlier date or none.
pub proof fn lemma_equal_dates_by_name(a: EntryView, b: EntryView)
    ensures
        a.2 == b.2 ==> sorts_before(a, b) == text_lt(a.0, b.0),
        a.2 is None && b.2 is Some ==> sorts_before(b, a) && !sorts_before(a, b),
        a.2 matches Some(x) && b.2 matches Some(y) && text_lt(y, x) ==> sorts_before(a, b),
{
    lemma_option_lt_irreflexive(a.2);
}

} // verus!
