//! The decisions behind the main window: the clipboard formats that carry a
//! copy or cut, tab history, drag-and-drop's move-or-copy choice, zoom, the
//! hidden-file and search filter, and the texts the window shows. The widgets
//! themselves are built and wired by the caller.
use vstd::prelude::*;

use crate::ops::Kind;
use crate::text;

verus! {

broadcast use vstd::string::group_string_axioms;

/// GNOME's copy/cut clipboard format (carries the cut-vs-copy intent and
/// interoperates with Nautilus/Files).
pub const GNOME_COPIED: &'static str = "x-special/gnome-copied-files";

/// The generic URI list clipboard format (understood by most apps).
pub const URI_LIST: &'static str = "text/uri-list";


// ---------------------------------------------------------------------------
// Clipboard
// ---------------------------------------------------------------------------

/// The lines of `ls` that hold something other than whitespace.
pub open spec fn nonblank(ls: Seq<Seq<char>>) -> Seq<Seq<char>>
    decreases ls.len(),
{
    if ls.len() == 0 {
        seq![]
    } else if text::trim(ls.last()).len() > 0 {
        nonblank(ls.drop_last()).push(ls.last())
    } else {
        nonblank(ls.drop_last())
    }
}

/// The URIs of a URI list: each line trimmed, blank lines and `#` comments left out.
pub open spec fn uri_entries(ls: Seq<Seq<char>>) -> Seq<Seq<char>>
    decreases ls.len(),
{
    if ls.len() == 0 {
        seq![]
    } else {
        let t = text::trim(ls.last());
        if t.len() > 0 && t[0] != '#' {
            uri_entries(ls.drop_last()).push(t)
        } else {
            uri_entries(ls.drop_last())
        }
    }
}

/// What clipboard text `t` of type `mime` holds: whether it is a cut, and the URIs.
pub open spec fn parse_clipboard_spec(mime: Seq<char>, t: Seq<char>) -> (bool, Seq<Seq<char>>) {
    let ls = text::lines(t);
    if mime == GNOME_COPIED@ {
        if ls.len() == 0 {
            (false, seq![])
        } else {
            (text::trim(ls[0]) == "cut"@, nonblank(ls.drop_first()))
        }
    } else {
        (false, uri_entries(ls))
    }
}

/// Parse clipboard text into (is_cut, uris) for the GNOME copy/cut format or a
/// plain URI list.
pub fn parse_clipboard(mime: &str, text: &str) -> (r: (bool, Vec<String>))
    ensures
        (r.0, text::strings(r.1@)) == parse_clipboard_spec(mime@, text@),
{
    broadcast use vstd::seq_lib::group_seq_properties;

    let cs = text::chars_of(text);
    let ls = text::lines_of(&cs);
    let ghost all = text::views(ls@);
    let m = text::chars_of(mime);
    let mut uris: Vec<String> = Vec::new();
    if text::chars_eq_str(&m, GNOME_COPIED) {
        if ls.len() == 0 {
            assert(text::strings(uris@) =~= Seq::<Seq<char>>::empty());
            return (false, uris);
        }
        let first = text::trim_chars(&ls[0]);
        let cut = text::chars_eq_str(&first, "cut");
        let ghost rest = all.drop_first();
        let mut i: usize = 1;
        assert(rest.take(0) =~= Seq::<Seq<char>>::empty());
        assert(text::strings(uris@) =~= nonblank(rest.take(0)));
        while i < ls.len()
            invariant
                1 <= i <= ls.len(),
                all == text::views(ls@),
                rest == all.drop_first(),
                text::strings(uris@) == nonblank(rest.take(i - 1)),
            decreases ls.len() - i,
        {
            let ghost before = text::strings(uris@);
            assert(rest.take(i as int).drop_last() =~= rest.take(i - 1));
            assert(rest.take(i as int).last() == ls@[i as int]@);
            let t = text::trim_chars(&ls[i]);
            if t.len() > 0 {
                let u = text::string_of(&ls[i]);
                uris.push(u);
                assert(text::strings(uris@) =~= before.push(u@));
            }
            i += 1;
        }
        assert(rest.take(i - 1) =~= rest);
        (cut, uris)
    } else {
        let mut i: usize = 0;
        assert(all.take(0) =~= Seq::<Seq<char>>::empty());
        assert(text::strings(uris@) =~= uri_entries(all.take(0)));
        while i < ls.len()
            invariant
                i <= ls.len(),
                all == text::views(ls@),
                text::strings(uris@) == uri_entries(all.take(i as int)),
            decreases ls.len() - i,
        {
            let ghost before = text::strings(uris@);
            assert(all.take(i + 1).drop_last() =~= all.take(i as int));
            assert(all.take(i + 1).last() == ls@[i as int]@);
            let t = text::trim_chars(&ls[i]);
            if t.len() > 0 && t[0] != '#' {
                let u = text::string_of(&t);
                uris.push(u);
                assert(text::strings(uris@) =~= before.push(u@));
            }
            i += 1;
        }
        assert(all.take(i as int) =~= all);
        (false, uris)
    }
}

/// `us` joined with `\n` between them.
pub open spec fn joined(us: Seq<Seq<char>>) -> Seq<char>
    decreases us.len(),
{
    if us.len() == 0 {
        seq![]
    } else if us.len() == 1 {
        us[0]
    } else {
        joined(us.drop_last()).push('\n') + us.last()
    }
}

/// Each of `us` followed by `\r\n`.
pub open spec fn crlf_joined(us: Seq<Seq<char>>) -> Seq<char>
    decreases us.len(),
{
    if us.len() == 0 {
        seq![]
    } else {
        crlf_joined(us.drop_last()) + us.last() + seq!['\r', '\n']
    }
}

/// The GNOME copy/cut text: "<action>\n<uri>\n<uri>…".
pub open spec fn gnome_text(cut: bool, us: Seq<Seq<char>>) -> Seq<char> {
    (if cut {
        "cut"@
    } else {
        "copy"@
    }).push('\n') + joined(us)
}

/// The URI list text: the URIs, each followed by CRLF (a lone CRLF for none).
pub open spec fn uri_list_text_spec(us: Seq<Seq<char>>) -> Seq<char> {
    if us.len() == 0 {
        seq!['\r', '\n']
    } else {
        crlf_joined(us)
    }
}

/// The clipboard text in GNOME's copy/cut format for `uris`.
pub fn gnome_clipboard_text(cut: bool, uris: &[String]) -> (t: String)
    ensures
        t@ == gnome_text(cut, text::strings(uris@)),
{
    let mut out: Vec<char> = Vec::new();
    text::extend_str(&mut out, if cut { "cut" } else { "copy" });
    out.push('\n');
    let ghost head = out@;
    let ghost us = text::strings(uris@);
    let mut i: usize = 0;
    assert(out@ =~= head + joined(us.take(0)));
    while i < uris.len()
        invariant
            i <= uris.len(),
            us == text::strings(uris@),
            out@ == head + joined(us.take(i as int)),
        decreases uris.len() - i,
    {
        if i > 0 {
            out.push('\n');
        }
        text::extend_str(&mut out, uris[i].as_str());
        assert(us.take(i + 1).drop_last() =~= us.take(i as int));
        assert(us.take(i + 1).last() == uris@[i as int]@);
        i += 1;
        assert(out@ =~= head + joined(us.take(i as int)));
    }
    assert(us.take(i as int) =~= us);
    text::string_of(&out)
}

/// The clipboard text as a generic URI list (CRLF-separated) for `uris`.
pub fn uri_list_text(uris: &[String]) -> (t: String)
    ensures
        t@ == uri_list_text_spec(text::strings(uris@)),
{
    let mut out: Vec<char> = Vec::new();
    let ghost us = text::strings(uris@);
    if uris.len() == 0 {
        out.push('\r');
        out.push('\n');
        assert(out@ =~= seq!['\r', '\n']);
        return text::string_of(&out);
    }
    let mut i: usize = 0;
    assert(out@ =~= crlf_joined(us.take(0)));
    while i < uris.len()
        invariant
            i <= uris.len(),
            us == text::strings(uris@),
            out@ == crlf_joined(us.take(i as int)),
        decreases uris.len() - i,
    {
        text::extend_str(&mut out, uris[i].as_str());
        out.push('\r');
        out.push('\n');
        assert(us.take(i + 1).drop_last() =~= us.take(i as int));
        assert(us.take(i + 1).last() == uris@[i as int]@);
        i += 1;
        assert(out@ =~= crlf_joined(us.take(i as int)));
    }
    assert(us.take(i as int) =~= us);
    text::string_of(&out)
}

/// A text of one line: nonempty and without a `\n`.
proof fn lemma_lines_single(u: Seq<char>)
    requires
        u.len() > 0,
        !u.contains('\n'),
    ensures
        text::lines(u) == seq![u],
{
    text::lemma_index_of_is(u, '\n', u.len() as int);
}

proof fn lemma_joined_front(us: Seq<Seq<char>>)
    requires
        us.len() >= 2,
    ensures
        joined(us) == us[0].push('\n') + joined(us.drop_first()),
    decreases us.len(),
{
    if us.len() == 2 {
        assert(us.drop_last() =~= seq![us[0]]);
        assert(us.drop_first() =~= seq![us[1]]);
        assert(joined(us.drop_first()) == us[1]);
        assert(joined(us.drop_last()) == us[0]);
        assert(us.last() == us[1]);
        assert(joined(us) =~= us[0].push('\n') + us[1]);
    } else {
        lemma_joined_front(us.drop_last());
        assert(us.drop_last().drop_first() =~= us.drop_first().drop_last());
        assert(us.drop_last()[0] == us[0]);
        assert(us.drop_first().last() == us.last());
        assert(joined(us) =~= us[0].push('\n') + joined(us.drop_first()));
    }
}

/// A URI that the GNOME format carries through unchanged: one nonblank line
/// that does not end in `\r`.
pub open spec fn gnome_clean(u: Seq<char>) -> bool {
    &&& text::trim(u).len() > 0
    &&& !u.contains('\n')
    &&& u.last() != '\r'
}

proof fn lemma_lines_joined(us: Seq<Seq<char>>)
    requires
        forall|i: int| 0 <= i < us.len() ==> gnome_clean(#[trigger] us[i]),
    ensures
        text::lines(joined(us)) == us,
    decreases us.len(),
{
    if us.len() == 0 {
        assert(text::lines(seq![]) =~= Seq::<Seq<char>>::empty());
        assert(us =~= Seq::<Seq<char>>::empty());
    } else if us.len() == 1 {
        assert(gnome_clean(us[0]));
        lemma_lines_single(us[0]);
        assert(us =~= seq![us[0]]);
    } else {
        lemma_joined_front(us);
        assert(gnome_clean(us[0]));
        text::lemma_lines_cons(us[0], joined(us.drop_first()));
        assert forall|i: int| 0 <= i < us.drop_first().len() implies gnome_clean(
            #[trigger] us.drop_first()[i],
        ) by {
            assert(us.drop_first()[i] == us[i + 1]);
        }
        lemma_lines_joined(us.drop_first());
        assert(seq![us[0]] + us.drop_first() =~= us);
    }
}

proof fn lemma_nonblank_keeps(us: Seq<Seq<char>>)
    requires
        forall|i: int| 0 <= i < us.len() ==> text::trim(#[trigger] us[i]).len() > 0,
    ensures
        nonblank(us) == us,
    decreases us.len(),
{
    if us.len() > 0 {
        assert forall|i: int| 0 <= i < us.drop_last().len() implies text::trim(
            #[trigger] us.drop_last()[i],
        ).len() > 0 by {
            assert(us.drop_last()[i] == us[i]);
        }
        lemma_nonblank_keeps(us.drop_last());
        assert(text::trim(us[us.len() - 1]).len() > 0);
        assert(us.drop_last().push(us.last()) =~= us);
    }
}

/// What is copied is what is pasted: the GNOME copy/cut text read back gives the
/// same intent and the same URIs, for URIs that are single nonblank lines not
/// ending in `\r`.
pub proof fn lemma_gnome_clipboard_round_trip(cut: bool, us: Seq<Seq<char>>)
    requires
        forall|i: int| 0 <= i < us.len() ==> gnome_clean(#[trigger] us[i]),
    ensures
        parse_clipboard_spec(GNOME_COPIED@, gnome_text(cut, us)) == (cut, us),
{
    reveal_strlit("cut");
    reveal_strlit("copy");
    let action = if cut {
        "cut"@
    } else {
        "copy"@
    };
    assert(!action.contains('\n')) by {
        if action.contains('\n') {
            let j = choose|j: int| 0 <= j < action.len() && action[j] == '\n';
        }
    }
    text::lemma_lines_cons(action, joined(us));
    lemma_lines_joined(us);
    let ls = text::lines(gnome_text(cut, us));
    assert(ls =~= seq![action] + us);
    assert(ls[0] == action);
    assert(ls.drop_first() =~= us);
    text::lemma_trim_unchanged(action);
    assert("cut"@ != "copy"@) by {
        assert("cut"@.len() != "copy"@.len());
    }
    assert forall|i: int| 0 <= i < us.len() implies text::trim(#[trigger] us[i]).len() > 0 by {
        assert(gnome_clean(us[i]));
    }
    lemma_nonblank_keeps(us);
}

proof fn lemma_crlf_front(us: Seq<Seq<char>>)
    requires
        us.len() >= 1,
    ensures
        crlf_joined(us) == (us[0] + seq!['\r', '\n']) + crlf_joined(us.drop_first()),
    decreases us.len(),
{
    if us.len() == 1 {
        assert(us.drop_last() =~= Seq::<Seq<char>>::empty());
        assert(us.drop_first() =~= Seq::<Seq<char>>::empty());
        assert(crlf_joined(us.drop_last()) =~= Seq::<char>::empty());
        assert(crlf_joined(us.drop_first()) =~= Seq::<char>::empty());
        assert(us.last() == us[0]);
        assert(crlf_joined(us) =~= (us[0] + seq!['\r', '\n']) + Seq::<char>::empty());
    } else {
        lemma_crlf_front(us.drop_last());
        assert(us.drop_last().drop_first() =~= us.drop_first().drop_last());
        assert(us.drop_last()[0] == us[0]);
        assert(us.drop_first().last() == us.last());
        assert(crlf_joined(us) =~= (us[0] + seq!['\r', '\n']) + crlf_joined(us.drop_first()));
    }
}

/// A URI that the URI list carries through unchanged: a nonempty single line
/// with no whitespace at its ends, not starting with `#`.
pub open spec fn uri_list_clean(u: Seq<char>) -> bool {
    &&& u.len() > 0
    &&& !u.contains('\n')
    &&& text::trim(u) == u
    &&& u[0] != '#'
}

proof fn lemma_lines_crlf(us: Seq<Seq<char>>)
    requires
        forall|i: int| 0 <= i < us.len() ==> !(#[trigger] us[i]).contains('\n'),
    ensures
        text::lines(crlf_joined(us)) == us,
    decreases us.len(),
{
    if us.len() == 0 {
        assert(text::lines(seq![]) =~= Seq::<Seq<char>>::empty());
        assert(us =~= Seq::<Seq<char>>::empty());
    } else {
        lemma_crlf_front(us);
        let u = us[0];
        assert(!u.contains('\n'));
        let ur = u.push('\r');
        assert(!ur.contains('\n')) by {
            if ur.contains('\n') {
                let j = choose|j: int| 0 <= j < ur.len() && ur[j] == '\n';
                assert(j < u.len());
                assert(u[j] == '\n');
            }
        }
        assert(ur.push('\n') + crlf_joined(us.drop_first()) =~= (u + seq!['\r', '\n']) + crlf_joined(
            us.drop_first(),
        ));
        text::lemma_lines_cons(ur, crlf_joined(us.drop_first()));
        assert(text::strip_cr(ur) =~= u);
        assert forall|i: int| 0 <= i < us.drop_first().len() implies !(
        #[trigger] us.drop_first()[i]).contains('\n') by {
            assert(us.drop_first()[i] == us[i + 1]);
        }
        lemma_lines_crlf(us.drop_first());
        assert(seq![u] + us.drop_first() =~= us);
    }
}

proof fn lemma_uri_entries_keep(us: Seq<Seq<char>>)
    requires
        forall|i: int| 0 <= i < us.len() ==> uri_list_clean(#[trigger] us[i]),
    ensures
        uri_entries(us) == us,
    decreases us.len(),
{
    if us.len() > 0 {
        assert forall|i: int| 0 <= i < us.drop_last().len() implies uri_list_clean(
            #[trigger] us.drop_last()[i],
        ) by {
            assert(us.drop_last()[i] == us[i]);
        }
        lemma_uri_entries_keep(us.drop_last());
        assert(uri_list_clean(us[us.len() - 1]));
        assert(us.drop_last().push(us.last()) =~= us);
    }
}

/// A URI list read back gives the same URIs (and always a copy), for URIs that
/// are nonempty single lines without surrounding whitespace that do not start
/// with `#`.
pub proof fn lemma_uri_list_round_trip(us: Seq<Seq<char>>)
    requires
        forall|i: int| 0 <= i < us.len() ==> uri_list_clean(#[trigger] us[i]),
    ensures
        parse_clipboard_spec(URI_LIST@, uri_list_text_spec(us)) == (false, us),
{
    reveal_strlit("text/uri-list");
    reveal_strlit("x-special/gnome-copied-files");
    assert(URI_LIST@ != GNOME_COPIED@) by {
        assert(URI_LIST@.len() != GNOME_COPIED@.len());
    }
    if us.len() == 0 {
        let t = seq!['\r', '\n'];
        text::lemma_lines_cons(seq!['\r'], seq![]);
        assert(seq!['\r'].push('\n') + Seq::<char>::empty() =~= t);
        assert(text::lines(seq![]) =~= Seq::<Seq<char>>::empty());
        assert(text::strip_cr(seq!['\r']) =~= Seq::<char>::empty());
        assert(!seq!['\r'].contains('\n')) by {
            if seq!['\r'].contains('\n') {
                let j = choose|j: int| 0 <= j < 1 && seq!['\r'][j] == '\n';
            }
        }
        assert(text::lines(t) =~= seq![Seq::<char>::empty()]);
        assert(seq![Seq::<char>::empty()].drop_last() =~= Seq::<Seq<char>>::empty());
        assert(text::trim(Seq::<char>::empty()) =~= Seq::<char>::empty());
        let x = seq![Seq::<char>::empty()];
        assert(x.last() == Seq::<char>::empty());
        assert(x.drop_last() =~= Seq::<Seq<char>>::empty());
        assert(uri_entries(x.drop_last()) =~= Seq::<Seq<char>>::empty());
        assert(text::trim(x.last()).len() == 0);
        assert(uri_entries(x) =~= Seq::<Seq<char>>::empty());
        assert(us =~= Seq::<Seq<char>>::empty());
    } else {
        assert forall|i: int| 0 <= i < us.len() implies !(#[trigger] us[i]).contains('\n') by {
            assert(uri_list_clean(us[i]));
        }
        lemma_lines_crlf(us);
        lemma_uri_entries_keep(us);
    }
}

// ---------------------------------------------------------------------------
// Tab history
// ---------------------------------------------------------------------------

/// A tab's navigation history: the locations to go back to (most recent last),
/// the ones to go forward to (next last), and where the tab is now.
pub struct History<T> {
    back: Vec<T>,
    fwd: Vec<T>,
    current: Option<T>,
}

/// A history as plain values: back stack, forward stack, current location.
pub type HistoryView<T> = (Seq<T>, Seq<T>, Option<T>);

impl<T> View for History<T> {
    type V = HistoryView<T>;

    closed spec fn view(&self) -> HistoryView<T> {
        (self.back@, self.fwd@, self.current)
    }
}

/// `s` with the location `c` (if any) pushed on top.
pub open spec fn push_location<T>(s: Seq<T>, c: Option<T>) -> Seq<T> {
    match c {
        Some(x) => s.push(x),
        None => s,
    }
}

/// The history after navigating to `to`: the current location goes on the back
/// stack and the forward stack is cleared.
pub open spec fn navigated<T>(h: HistoryView<T>, to: T) -> HistoryView<T> {
    (push_location(h.0, h.2), seq![], Some(to))
}

/// The history after going back: the current location goes on the forward stack
/// and the last back location becomes current; nothing changes with no way back.
pub open spec fn went_back<T>(h: HistoryView<T>) -> HistoryView<T> {
    if h.0.len() == 0 {
        h
    } else {
        (h.0.drop_last(), push_location(h.1, h.2), Some(h.0.last()))
    }
}

/// The history after going forward, the mirror of going back.
pub open spec fn went_forward<T>(h: HistoryView<T>) -> HistoryView<T> {
    if h.1.len() == 0 {
        h
    } else {
        (push_location(h.0, h.2), h.1.drop_last(), Some(h.1.last()))
    }
}

impl<T> History<T> {
    /// A fresh tab's history, at `current`, with nowhere to go back or forward to.
    pub fn new(current: Option<T>) -> (h: History<T>)
        ensures
            h@ == (Seq::<T>::empty(), Seq::<T>::empty(), current),
    {
        History { back: Vec::new(), fwd: Vec::new(), current }
    }

    /// Where the tab is now.
    pub fn current(&self) -> (c: Option<&T>)
        ensures
            c == (match self@.2 {
                Some(x) => Some(&x),
                None => None,
            }),
    {
        self.current.as_ref()
    }

    /// Whether there is somewhere to go back to.
    pub fn can_go_back(&self) -> (b: bool)
        ensures
            b == (self@.0.len() > 0),
    {
        self.back.len() > 0
    }

    /// Whether there is somewhere to go forward to.
    pub fn can_go_forward(&self) -> (b: bool)
        ensures
            b == (self@.1.len() > 0),
    {
        self.fwd.len() > 0
    }

    /// Navigate to `to`.
    pub fn navigate(&mut self, to: T)
        ensures
            final(self)@ == navigated(old(self)@, to),
    {
        if let Some(cur) = self.current.take() {
            self.back.push(cur);
        }
        self.fwd.clear();
        self.current = Some(to);
    }

    /// Go back one step; `false` (and no change) when there is nowhere to go.
    pub fn go_back(&mut self) -> (moved: bool)
        ensures
            moved == (old(self)@.0.len() > 0),
            final(self)@ == went_back(old(self)@),
    {
        match self.back.pop() {
            Some(prev) => {
                if let Some(cur) = self.current.take() {
                    self.fwd.push(cur);
                }
                self.current = Some(prev);
                true
            },
            None => false,
        }
    }

    /// Go forward one step; `false` (and no change) when there is nowhere to go.
    pub fn go_forward(&mut self) -> (moved: bool)
        ensures
            moved == (old(self)@.1.len() > 0),
            final(self)@ == went_forward(old(self)@),
    {
        match self.fwd.pop() {
            Some(next) => {
                if let Some(cur) = self.current.take() {
                    self.back.push(cur);
                }
                self.current = Some(next);
                true
            },
            None => false,
        }
    }
}

/// Going back and then forward again returns to the same place with the same
/// history.
pub proof fn lemma_back_then_forward<T>(h: HistoryView<T>)
    requires
        h.0.len() > 0,
        h.2 is Some,
    ensures
        went_forward(went_back(h)) == h,
{
    assert(h.0.drop_last().push(h.0.last()) =~= h.0);
    assert(push_location(h.1, h.2).drop_last() =~= h.1);
}

/// Going forward and then back again returns to the same place with the same
/// history.
pub proof fn lemma_forward_then_back<T>(h: HistoryView<T>)
    requires
        h.1.len() > 0,
        h.2 is Some,
    ensures
        went_back(went_forward(h)) == h,
{
    assert(h.1.drop_last().push(h.1.last()) =~= h.1);
    assert(push_location(h.0, h.2).drop_last() =~= h.0);
}

/// Navigating clears the way forward, and going back from there returns to
/// where the tab was, with the new location next forward.
pub proof fn lemma_navigate_then_back<T>(h: HistoryView<T>, to: T)
    requires
        h.2 is Some,
    ensures
        navigated(h, to).1.len() == 0,
        went_back(navigated(h, to)) == (h.0, seq![to], h.2),
{
    assert(push_location(h.0, h.2).drop_last() =~= h.0);
    assert(push_location(Seq::<T>::empty(), Some(to)) =~= seq![to]);
}

// ---------------------------------------------------------------------------
// Drag and drop
// ---------------------------------------------------------------------------

/// The operation a drop performs: an explicit single offer (Ctrl forces copy,
/// Shift forces move) wins; otherwise move within one filesystem, copy across.
pub open spec fn drop_kind_spec(can_copy: bool, can_move: bool, same_fs: bool) -> Kind {
    if can_move && !can_copy {
        Kind::Move
    } else if can_copy && !can_move {
        Kind::Copy
    } else if same_fs {
        Kind::Move
    } else {
        Kind::Copy
    }
}

/// Choose move vs copy for a drop the way Nautilus does: honour an explicit
/// modifier (Ctrl → copy, Shift → move, seen as a single-action offer), else move
/// when everything is on the destination's filesystem (`same_fs`) and copy when
/// it crosses.
pub fn drop_kind(can_copy: bool, can_move: bool, same_fs: bool) -> (k: Kind)
    ensures
        k == drop_kind_spec(can_copy, can_move, same_fs),
{
    if can_move && !can_copy {
        return Kind::Move;
    }
    if can_copy && !can_move {
        return Kind::Copy;
    }
    if same_fs {
        Kind::Move
    } else {
        Kind::Copy
    }
}

/// The folder that holds the path with components `c`: all but the last one, or
/// nothing for an empty path or one that ends in the root.
pub open spec fn parent_components(c: Seq<Seq<char>>) -> Option<Seq<Seq<char>>> {
    if c.len() == 0 || c.last() == "/"@ {
        None
    } else {
        Some(c.drop_last())
    }
}

/// Whether the path with components `base` is `p` or an ancestor of it.
pub open spec fn starts_with_components(p: Seq<Seq<char>>, base: Seq<Seq<char>>) -> bool {
    base.len() <= p.len() && p.take(base.len() as int) == base
}

/// Whether dropping the item at `source` into the folder `dest` (both as path
/// components) does anything: not when the item is already in `dest`, is `dest`
/// itself, or is a folder that `dest` lies inside.
pub open spec fn accepts_drop_spec(source: Seq<Seq<char>>, dest: Seq<Seq<char>>) -> bool {
    &&& parent_components(source) != Some(dest)
    &&& source != dest
    &&& !starts_with_components(dest, source)
}

/// Whether the first `n` components of `a` and `b` are the same.
fn agree_on(a: &[String], b: &[String], n: usize) -> (r: bool)
    requires
        n <= a.len(),
        n <= b.len(),
    ensures
        r == (text::strings(a@).take(n as int) == text::strings(b@).take(n as int)),
{
    let mut i: usize = 0;
    while i < n
        invariant
            i <= n,
            n <= a.len(),
            n <= b.len(),
            text::strings(a@).take(i as int) == text::strings(b@).take(i as int),
        decreases n - i,
    {
        if a[i] != b[i] {
            assert(text::strings(a@).take(n as int)[i as int] != text::strings(b@).take(n as int)[i as int]);
            return false;
        }
        assert(text::strings(a@).take(i + 1) =~= text::strings(a@).take(i as int).push(a@[i as int]@));
        assert(text::strings(b@).take(i + 1) =~= text::strings(b@).take(i as int).push(b@[i as int]@));
        i += 1;
    }
    true
}

/// Whether a drop of the item at `source` into the folder `dest`, each given by
/// its path components (the root as "/"), moves or copies anything: an item
/// already in `dest`, `dest` itself, or a folder holding `dest` is left out.
pub fn accepts_drop(source: &[String], dest: &[String]) -> (b: bool)
    ensures
        b == accepts_drop_spec(text::strings(source@), text::strings(dest@)),
{
    let n = source.len();
    let ghost s = text::strings(source@);
    let ghost d = text::strings(dest@);
    let into_parent = if n > 0 && dest.len() == n - 1 {
        let last = text::chars_of(source[n - 1].as_str());
        !text::chars_eq_str(&last, "/") && agree_on(source, dest, n - 1)
    } else {
        false
    };
    proof {
        if n > 0 && d.len() == n - 1 {
            assert(s.last() == source@[n - 1]@);
            assert(d.take(d.len() as int) =~= d);
            assert(s.drop_last() =~= s.take(n - 1));
        }
    }
    let same = dest.len() == n && agree_on(source, dest, n);
    let inside = n <= dest.len() && agree_on(source, dest, n);
    proof {
        assert(s.take(n as int) =~= s);
        if d.len() == n {
            assert(d.take(n as int) =~= d);
        }
    }
    !into_parent && !same && !inside
}

// ---------------------------------------------------------------------------
// Zoom
// ---------------------------------------------------------------------------

/// How much one zoom step changes the grid icon size.
pub const ZOOM_STEP: i32 = 16;

/// The grid zoom after a step of `delta` from `current`, kept within the
/// supported range.
pub fn zoom_level(current: i32, delta: i32) -> (z: i32)
    requires
        i32::MIN <= current + delta <= i32::MAX,
    ensures
        z == crate::settings::clamp_zoom((current + delta) as i32),
{
    let n = current + delta;
    if n < crate::settings::ZOOM_MIN {
        crate::settings::ZOOM_MIN
    } else if n > crate::settings::ZOOM_MAX {
        crate::settings::ZOOM_MAX
    } else {
        n
    }
}

/// `g / 4` rounded toward zero, as integer division does.
pub open spec fn quarter(g: int) -> int {
    if g >= 0 {
        g / 4
    } else {
        -((-g) / 4)
    }
}

/// List-view icon size derived from the grid zoom.
pub fn list_icon(grid_size: i32) -> (s: i32)
    ensures
        s == (if quarter(grid_size as int) < 16 {
            16
        } else if quarter(grid_size as int) > 40 {
            40
        } else {
            quarter(grid_size as int)
        }),
{
    let q: i32 = if grid_size >= 0 {
        grid_size / 4
    } else {
        let m: i64 = -(grid_size as i64);
        -((m / 4) as i32)
    };
    if q < 16 {
        16
    } else if q > 40 {
        40
    } else {
        q
    }
}

// ---------------------------------------------------------------------------
// Sorting and filtering the listing
// ---------------------------------------------------------------------------

/// How two listed entries order before their sort column is looked at, folders
/// first: -1 when only the first is a folder, 1 when only the second is, and 0
/// when both or neither are (the column then decides).
pub fn folder_order(a_is_dir: bool, b_is_dir: bool) -> (r: i8)
    ensures
        r == (if a_is_dir && !b_is_dir {
            -1i8
        } else if !a_is_dir && b_is_dir {
            1i8
        } else {
            0i8
        }),
{
    if a_is_dir && !b_is_dir {
        -1
    } else if !a_is_dir && b_is_dir {
        1
    } else {
        0
    }
}

/// The sort column (0 = name, 1 = size, 2 = modified) that a "Sort by" choice
/// names; anything unknown sorts by name.
pub fn sort_key_for(key: &str) -> (k: u8)
    ensures
        k == (if key@ == "size"@ {
            1u8
        } else if key@ == "modified"@ {
            2u8
        } else {
            0u8
        }),
{
    let cs = text::chars_of(key);
    if text::chars_eq_str(&cs, "size") {
        1
    } else if text::chars_eq_str(&cs, "modified") {
        2
    } else {
        0
    }
}

/// Whether `needle` occurs in `hay`.
pub open spec fn contains_text(hay: Seq<char>, needle: Seq<char>) -> bool {
    exists|i: int|
        0 <= i <= hay.len() - needle.len() && #[trigger] hay.subrange(i, i + needle.len()) == needle
}

/// Whether an entry shows in the listing: hidden entries (hidden by the file
/// system, or named with a leading dot) only when hidden files are shown, and
/// with a search term only entries whose lowercased display name holds it.
pub open spec fn visible_spec(
    show_hidden: bool,
    is_hidden: bool,
    name: Seq<char>,
    display_lower: Seq<char>,
    term: Seq<char>,
) -> bool {
    let hidden = is_hidden || (name.len() > 0 && name[0] == '.');
    (show_hidden || !hidden) && (term.len() == 0 || contains_text(display_lower, term))
}

/// Whether `needle` occurs in `hay`.
fn contains_chars(hay: &[char], needle: &[char]) -> (r: bool)
    ensures
        r == contains_text(hay@, needle@),
{
    if needle.len() > hay.len() {
        return false;
    }
    let last = hay.len() - needle.len();
    let mut i: usize = 0;
    loop
        invariant
            last == hay.len() - needle.len(),
            i <= last,
            forall|j: int| 0 <= j < i ==> #[trigger] hay@.subrange(j, j + needle.len()) != needle@,
        decreases last - i,
    {
        let part = text::slice_chars(hay, i, i + needle.len());
        if text::chars_eq(&part, needle) {
            return true;
        }
        if i == last {
            return false;
        }
        i += 1;
    }
}

/// Whether an entry named `name` (display name lowercased: `display_lower`) shows
/// in a listing filtered by the lowercased search `term`.
pub fn visible(show_hidden: bool, is_hidden: bool, name: &str, display_lower: &str, term: &str) -> (b:
    bool)
    ensures
        b == visible_spec(show_hidden, is_hidden, name@, display_lower@, term@),
{
    let n = text::chars_of(name);
    let hidden = is_hidden || (n.len() > 0 && n[0] == '.');
    if !show_hidden && hidden {
        return false;
    }
    let t = text::chars_of(term);
    if t.len() == 0 {
        return true;
    }
    let d = text::chars_of(display_lower);
    contains_chars(&d, &t)
}

// ---------------------------------------------------------------------------
// Texts
// ---------------------------------------------------------------------------

/// The plural `s` for a count: none for exactly one.
pub open spec fn plural_text(n: nat) -> Seq<char> {
    if n == 1 {
        ""@
    } else {
        "s"@
    }
}

/// "`n` item" or "`n` items".
pub open spec fn count_text(n: nat) -> Seq<char> {
    text::decimal(n) + " item"@ + plural_text(n)
}

/// The `s` suffix for a count, so that one item reads "1 item".
pub fn plural(n: usize) -> (s: &'static str)
    ensures
        s@ == plural_text(n as nat),
{
    if n == 1 {
        ""
    } else {
        "s"
    }
}

/// Appends "`n` item(s)" to `out`.
pub fn push_count(out: &mut Vec<char>, n: u64)
    ensures
        final(out)@ == old(out)@ + count_text(n as nat),
{
    text::push_decimal(out, n);
    text::extend_str(out, " item");
    text::extend_str(out, if n == 1 { "" } else { "s" });
    assert(out@ =~= old(out)@ + count_text(n as nat));
}

/// The toast after putting `n` items on the clipboard: "Copied 3 items".
pub fn clipboard_toast(cut: bool, n: u64) -> (t: String)
    ensures
        t@ == (if cut {
            "Cut "@
        } else {
            "Copied "@
        }) + count_text(n as nat),
{
    let mut out: Vec<char> = Vec::new();
    text::extend_str(&mut out, if cut { "Cut " } else { "Copied " });
    push_count(&mut out, n);
    text::string_of(&out)
}

/// The toast after trashing: "Moved 2 items to Trash", with "; 1 failed" when
/// some could not be trashed.
pub fn trash_toast(ok: u32, failed: u32) -> (t: String)
    ensures
        t@ == "Moved "@ + count_text(ok as nat) + " to Trash"@ + (if failed > 0 {
            "; "@ + text::decimal(failed as nat) + " failed"@
        } else {
            ""@
        }),
{
    let mut out: Vec<char> = Vec::new();
    text::extend_str(&mut out, "Moved ");
    push_count(&mut out, ok as u64);
    text::extend_str(&mut out, " to Trash");
    if failed > 0 {
        text::extend_str(&mut out, "; ");
        text::push_decimal(&mut out, failed as u64);
        text::extend_str(&mut out, " failed");
    } else {
        text::extend_str(&mut out, "");
    }
    text::string_of(&out)
}

/// The question before a permanent delete: "Permanently delete 2 items?".
pub fn delete_prompt(n: u64) -> (t: String)
    ensures
        t@ == "Permanently delete "@ + count_text(n as nat) + "?"@,
{
    let mut out: Vec<char> = Vec::new();
    text::extend_str(&mut out, "Permanently delete ");
    push_count(&mut out, n);
    text::extend_str(&mut out, "?");
    text::string_of(&out)
}

/// The verb for a job in progress and the one for a job done.
pub open spec fn job_verbs_spec(kind: Kind) -> (Seq<char>, Seq<char>) {
    match kind {
        Kind::Copy => ("Copying"@, "Copied"@),
        Kind::Move => ("Moving"@, "Moved"@),
        Kind::Delete => ("Deleting"@, "Deleted"@),
    }
}

/// The verb for a job in progress ("Copying") and for a job done ("Copied").
pub fn job_verbs(kind: Kind) -> (v: (&'static str, &'static str))
    ensures
        (v.0@, v.1@) == job_verbs_spec(kind),
{
    match kind {
        Kind::Copy => ("Copying", "Copied"),
        Kind::Move => ("Moving", "Moved"),
        Kind::Delete => ("Deleting", "Deleted"),
    }
}

/// The toast at the end of a job: "Copying cancelled — 2 done", "Copied 3; 1
/// failed", or "Copied 4 items".
pub open spec fn finish_message_spec(kind: Kind, cancelled: bool, ok: u64, failed: u64) -> Seq<
    char,
> {
    let (verb, past) = job_verbs_spec(kind);
    if cancelled {
        verb + " cancelled — "@ + text::decimal(ok as nat) + " done"@
    } else if failed > 0 {
        past + " "@ + text::decimal(ok as nat) + "; "@ + text::decimal(failed as nat) + " failed"@
    } else {
        past + " "@ + count_text(ok as nat)
    }
}

/// The toast at the end of a job.
pub fn finish_message(kind: Kind, cancelled: bool, ok: u64, failed: u64) -> (t: String)
    ensures
        t@ == finish_message_spec(kind, cancelled, ok, failed),
{
    let (verb, past) = job_verbs(kind);
    let mut out: Vec<char> = Vec::new();
    if cancelled {
        text::extend_str(&mut out, verb);
        text::extend_str(&mut out, " cancelled — ");
        text::push_decimal(&mut out, ok);
        text::extend_str(&mut out, " done");
    } else if failed > 0 {
        text::extend_str(&mut out, past);
        text::extend_str(&mut out, " ");
        text::push_decimal(&mut out, ok);
        text::extend_str(&mut out, "; ");
        text::push_decimal(&mut out, failed);
        text::extend_str(&mut out, " failed");
    } else {
        text::extend_str(&mut out, past);
        text::extend_str(&mut out, " ");
        push_count(&mut out, ok);
    }
    assert(out@ =~= finish_message_spec(kind, cancelled, ok, failed));
    text::string_of(&out)
}

/// Whether permission bit `shift` of `mode` is set.
pub open spec fn mode_bit(mode: u32, shift: u32) -> bool {
    mode & (1u32 << shift) != 0
}

/// The `ls -l` letter for bit `shift` of `mode`: `ch` when set, `-` otherwise.
pub open spec fn mode_char(mode: u32, shift: u32, ch: char) -> char {
    if mode_bit(mode, shift) {
        ch
    } else {
        '-'
    }
}

/// The nine `rwx` letters of a Unix mode, owner first.
pub open spec fn permission_text(mode: u32) -> Seq<char> {
    seq![
        mode_char(mode, 8, 'r'),
        mode_char(mode, 7, 'w'),
        mode_char(mode, 6, 'x'),
        mode_char(mode, 5, 'r'),
        mode_char(mode, 4, 'w'),
        mode_char(mode, 3, 'x'),
        mode_char(mode, 2, 'r'),
        mode_char(mode, 1, 'w'),
        mode_char(mode, 0, 'x'),
    ]
}

/// The letter for bit `shift` of `mode`.
fn bit_char(mode: u32, shift: u32, ch: char) -> (c: char)
    requires
        shift < 32,
    ensures
        c == mode_char(mode, shift, ch),
{
    if mode & (1u32 << shift) != 0 {
        ch
    } else {
        '-'
    }
}

/// The `rwxr-xr-x` form of the permission bits of `mode`.
pub fn permission_string(mode: u32) -> (s: String)
    ensures
        s@ == permission_text(mode),
{
    let mut out: Vec<char> = Vec::new();
    out.push(bit_char(mode, 8, 'r'));
    out.push(bit_char(mode, 7, 'w'));
    out.push(bit_char(mode, 6, 'x'));
    out.push(bit_char(mode, 5, 'r'));
    out.push(bit_char(mode, 4, 'w'));
    out.push(bit_char(mode, 3, 'x'));
    out.push(bit_char(mode, 2, 'r'));
    out.push(bit_char(mode, 1, 'w'));
    out.push(bit_char(mode, 0, 'x'));
    assert(out@ =~= permission_text(mode));
    text::string_of(&out)
}

// ---------------------------------------------------------------------------
// Mounting with ntfs-3g
// ---------------------------------------------------------------------------

/// What `char::is_alphanumeric` says of `c` (the Unicode `Alphabetic` or
/// `Numeric` property).
pub uninterp spec fn is_alphanumeric(c: char) -> bool;

/// Whether `c` is an ASCII letter or digit.
pub open spec fn ascii_alphanumeric(c: char) -> bool {
    ('a' <= c <= 'z') || ('A' <= c <= 'Z') || ('0' <= c <= '9')
}

/// Whether `c` is a letter or digit in `char::is_alphanumeric`'s sense: for
/// ASCII the letters and digits, beyond it what `is_alphanumeric` says.
pub open spec fn letter_or_digit(c: char) -> bool {
    if (c as u32) < 128 {
        ascii_alphanumeric(c)
    } else {
        is_alphanumeric(c)
    }
}

/// `char::is_alphanumeric`: whether `c` has the Unicode `Alphabetic` or
/// `Numeric` property. Among ASCII characters exactly the letters and digits
/// have one of them; beyond ASCII the answer is left to the name.
#[verifier::external_body]
fn alphanumeric(c: char) -> (b: bool)
    ensures
        b == is_alphanumeric(c),
        (c as u32) < 128 ==> b == ascii_alphanumeric(c),
{
    c.is_alphanumeric()
}

/// A volume name made safe as a directory name: letters, digits, `-` and `_`
/// kept, anything else replaced by `_`.
pub open spec fn sanitized(name: Seq<char>) -> Seq<char> {
    Seq::new(
        name.len(),
        |i: int|
            if letter_or_digit(name[i]) || name[i] == '-' || name[i] == '_' {
                name[i]
            } else {
                '_'
            },
    )
}

/// The directory (under the runtime dir's `filescope-mounts`) that a volume
/// named `name` is mounted at: its sanitized name, or "drive" for no name.
pub open spec fn mount_dir_name_spec(name: Seq<char>) -> Seq<char> {
    if name.len() == 0 {
        "drive"@
    } else {
        sanitized(name)
    }
}

/// The directory name a volume called `name` is mounted under.
pub fn mount_dir_name(name: &str) -> (r: String)
    ensures
        r@ == mount_dir_name_spec(name@),
{
    let cs = text::chars_of(name);
    if cs.len() == 0 {
        return text::string_of(&text::chars_of("drive"));
    }
    let mut out: Vec<char> = Vec::new();
    let mut i: usize = 0;
    while i < cs.len()
        invariant
            i <= cs.len(),
            cs@ == name@,
            out@ == sanitized(name@).take(i as int),
        decreases cs.len() - i,
    {
        let c = cs[i];
        if alphanumeric(c) || c == '-' || c == '_' {
            out.push(c);
        } else {
            out.push('_');
        }
        i += 1;
        assert(out@ =~= sanitized(name@).take(i as int));
    }
    assert(sanitized(name@).take(i as int) =~= sanitized(name@));
    text::string_of(&out)
}

/// The ntfs-3g mount options that give the mount to user `uid` and group `gid`.
pub open spec fn ntfs_options(uid: u32, gid: u32) -> Seq<char> {
    "uid="@ + text::decimal(uid as nat) + ",gid="@ + text::decimal(gid as nat) + ",umask=022"@
}

/// The command that mounts `device` at `mount_point` with ntfs-3g, through
/// pkexec when it is there.
pub open spec fn ntfs3g_argv_spec(
    has_pkexec: bool,
    uid: u32,
    gid: u32,
    device: Seq<char>,
    mount_point: Seq<char>,
) -> Seq<Seq<char>> {
    (if has_pkexec {
        seq!["pkexec"@]
    } else {
        seq![]
    }) + seq!["ntfs-3g"@, "-o"@, ntfs_options(uid, gid), device, mount_point]
}

/// The command that mounts `device` at `mount_point` with ntfs-3g, owned by the
/// user `uid`/`gid`; `pkexec` raises a graphical prompt where it is installed.
pub fn ntfs3g_argv(has_pkexec: bool, uid: u32, gid: u32, device: &str, mount_point: &str) -> (argv:
    Vec<String>)
    ensures
        text::strings(argv@) == ntfs3g_argv_spec(has_pkexec, uid, gid, device@, mount_point@),
{
    let mut argv: Vec<String> = Vec::new();
    if has_pkexec {
        argv.push("pkexec".to_owned());
    }
    argv.push("ntfs-3g".to_owned());
    argv.push("-o".to_owned());
    let mut opts: Vec<char> = Vec::new();
    text::extend_str(&mut opts, "uid=");
    text::push_decimal(&mut opts, uid as u64);
    text::extend_str(&mut opts, ",gid=");
    text::push_decimal(&mut opts, gid as u64);
    text::extend_str(&mut opts, ",umask=022");
    assert(opts@ =~= ntfs_options(uid, gid));
    argv.push(text::string_of(&opts));
    argv.push(device.to_owned());
    argv.push(mount_point.to_owned());
    assert(text::strings(argv@) =~= ntfs3g_argv_spec(has_pkexec, uid, gid, device@, mount_point@));
    argv
}

// ---------------------------------------------------------------------------
// Actions
// ---------------------------------------------------------------------------

/// Which window actions are enabled with `selected` items selected and
/// `has_clip` telling whether the clipboard holds file URIs.
pub open spec fn action_states_spec(selected: u32, has_clip: bool) -> Seq<(Seq<char>, bool)> {
    let any = selected > 0;
    let one = selected == 1;
    seq![
        ("open"@, any),
        ("open-with"@, one),
        ("preview"@, one),
        ("cut"@, any),
        ("copy"@, any),
        ("paste"@, has_clip),
        ("rename"@, one),
        ("trash"@, any),
        ("delete"@, any),
        ("properties"@, one),
    ]
}

/// The names of the selection-dependent window actions and whether each is
/// enabled: open, cut, copy, trash and delete need a selection; open-with,
/// preview, rename and properties need exactly one item; paste needs file URIs
/// on the clipboard.
pub fn action_states(selected: u32, has_clip: bool) -> (v: Vec<(&'static str, bool)>)
    ensures
        v@.map_values(|p: (&'static str, bool)| (p.0@, p.1)) == action_states_spec(selected, has_clip),
{
    let any = selected > 0;
    let one = selected == 1;
    let v: Vec<(&'static str, bool)> = vec![
        ("open", any),
        ("open-with", one),
        ("preview", one),
        ("cut", any),
        ("copy", any),
        ("paste", has_clip),
        ("rename", one),
        ("trash", any),
        ("delete", any),
        ("properties", one),
    ];
    assert(v@.map_values(|p: (&'static str, bool)| (p.0@, p.1)) =~= action_states_spec(
        selected,
        has_clip,
    ));
    v
}

/// A drop that offers a single action does that action, on any filesystem:
/// Shift (move only) moves and Ctrl (copy only) copies; only when the choice is
/// open does the filesystem decide, moving within one and copying across.
pub proof fn lemma_single_offer_wins(same_fs: bool)
    ensures
        drop_kind_spec(false, true, same_fs) == Kind::Move,
        drop_kind_spec(true, false, same_fs) == Kind::Copy,
        drop_kind_spec(true, true, same_fs) == (if same_fs {
            Kind::Move
        } else {
            Kind::Copy
        }),
        drop_kind_spec(false, false, same_fs) == (if same_fs {
            Kind::Move
        } else {
            Kind::Copy
        }),
{
}

/// Hidden entries stay hidden while hidden files are not shown, whatever is
/// searched for; a search only ever narrows the listing; with hidden files
/// shown and no search, everything is listed.
pub proof fn lemma_hidden_stay_hidden(
    show_hidden: bool,
    is_hidden: bool,
    name: Seq<char>,
    display_lower: Seq<char>,
    term: Seq<char>,
)
    ensures
        !show_hidden && (is_hidden || (name.len() > 0 && name[0] == '.')) ==> !visible_spec(
            show_hidden,
            is_hidden,
            name,
            display_lower,
            term,
        ),
        visible_spec(show_hidden, is_hidden, name, display_lower, term) ==> visible_spec(
            show_hidden,
            is_hidden,
            name,
            display_lower,
            seq![],
        ),
        visible_spec(true, is_hidden, name, display_lower, seq![]),
        !is_hidden && !(name.len() > 0 && name[0] == '.') ==> visible_spec(
            show_hidden,
            is_hidden,
            name,
            display_lower,
            seq![],
        ),
        term.len() > 0 && visible_spec(show_hidden, is_hidden, name, display_lower, term) ==> exists|
            i: int,
        |
            0 <= i && i + term.len() <= display_lower.len() && #[trigger] display_lower.subrange(
                i,
                i + term.len(),
            ) == term,
        (show_hidden || (!is_hidden && !(name.len() > 0 && name[0] == '.'))) && (exists|i: int|
            0 <= i && i + term.len() <= display_lower.len() && #[trigger] display_lower.subrange(
                i,
                i + term.len(),
            ) == term) ==> visible_spec(show_hidden, is_hidden, name, display_lower, term),
{
}

/// Paste follows the clipboard alone: it is enabled exactly when the clipboard
/// holds file URIs, however many items are selected; the actions on the
/// selection follow the selection alone.
pub proof fn lemma_paste_follows_clipboard(selected: u32, has_clip: bool)
    ensures
        action_states_spec(selected, has_clip).len() == 10,
        action_states_spec(selected, has_clip)[5] == ("paste"@, has_clip),
        forall|k: int|
            0 <= k < 10 && k != 5 ==> (#[trigger] action_states_spec(selected, has_clip)[k]).1
                == action_states_spec(selected, !has_clip)[k].1,
        forall|k: int|
            0 <= k < 10 && k != 5 ==> ((#[trigger] action_states_spec(selected, has_clip)[k]).1
                ==> selected > 0),
        action_states_spec(selected, has_clip)[0] == ("open"@, selected > 0),
        action_states_spec(selected, has_clip)[1] == ("open-with"@, selected == 1),
        action_states_spec(selected, has_clip)[2] == ("preview"@, selected == 1),
        action_states_spec(selected, has_clip)[3] == ("cut"@, selected > 0),
        action_states_spec(selected, has_clip)[4] == ("copy"@, selected > 0),
        action_states_spec(selected, has_clip)[6] == ("rename"@, selected == 1),
        action_states_spec(selected, has_clip)[7] == ("trash"@, selected > 0),
        action_states_spec(selected, has_clip)[8] == ("delete"@, selected > 0),
        action_states_spec(selected, has_clip)[9] == ("properties"@, selected == 1),
{
}

} // verus!
