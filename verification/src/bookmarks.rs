//! Bookmarked folders, persisted one path per line in filescope's own file (so
//! it never disturbs Nautilus's bookmarks). This module reads and writes that
//! text and keeps the list; the file itself, and the check that each bookmark
//! still points at a directory, are the caller's.
use vstd::prelude::*;

use crate::text;

verus! {

broadcast use vstd::string::group_string_axioms;


/// The bookmarks that the lines `ls` hold: each line trimmed, blank ones left out.
pub open spec fn bookmark_lines(ls: Seq<Seq<char>>) -> Seq<Seq<char>>
    decreases ls.len(),
{
    if ls.len() == 0 {
        seq![]
    } else {
        let t = text::trim(ls.last());
        if t.len() > 0 {
            bookmark_lines(ls.drop_last()).push(t)
        } else {
            bookmark_lines(ls.drop_last())
        }
    }
}

/// The text that stores `list`: each path followed by a line break.
pub open spec fn bookmarks_text(list: Seq<Seq<char>>) -> Seq<char>
    decreases list.len(),
{
    if list.len() == 0 {
        seq![]
    } else {
        bookmarks_text(list.drop_last()) + list.last().push('\n')
    }
}

/// The saved bookmarks in `text`, in order (one path per line, trimmed, blank
/// lines skipped).
pub fn parse(text: &str) -> (list: Vec<String>)
    ensures
        text::strings(list@) == bookmark_lines(text::lines(text@)),
{
    broadcast use vstd::seq_lib::group_seq_properties;

    let cs = text::chars_of(text);
    let ls = text::lines_of(&cs);
    let ghost all = text::views(ls@);
    let mut list: Vec<String> = Vec::new();
    let mut i: usize = 0;
    assert(all.take(0) =~= Seq::<Seq<char>>::empty());
    assert(text::strings(list@) =~= bookmark_lines(all.take(0)));
    while i < ls.len()
        invariant
            i <= ls.len(),
            all == text::views(ls@),
            text::strings(list@) == bookmark_lines(all.take(i as int)),
        decreases ls.len() - i,
    {
        let ghost before = text::strings(list@);
        assert(all.take(i + 1).drop_last() =~= all.take(i as int));
        assert(all.take(i + 1).last() == ls@[i as int]@);
        let t = text::trim_chars(&ls[i]);
        if t.len() > 0 {
            let p = text::string_of(&t);
            list.push(p);
            assert(text::strings(list@) =~= before.push(p@));
        }
        i += 1;
    }
    assert(all.take(i as int) =~= all);
    list
}

/// The text that stores `list`.
pub fn serialize(list: &[String]) -> (t: String)
    ensures
        t@ == bookmarks_text(text::strings(list@)),
{
    let ghost us = text::strings(list@);
    let mut out: Vec<char> = Vec::new();
    let mut i: usize = 0;
    assert(out@ =~= bookmarks_text(us.take(0)));
    while i < list.len()
        invariant
            i <= list.len(),
            us == text::strings(list@),
            out@ == bookmarks_text(us.take(i as int)),
        decreases list.len() - i,
    {
        text::extend_str(&mut out, list[i].as_str());
        out.push('\n');
        assert(us.take(i + 1).drop_last() =~= us.take(i as int));
        assert(us.take(i + 1).last() == list@[i as int]@);
        i += 1;
        assert(out@ =~= bookmarks_text(us.take(i as int)));
    }
    assert(us.take(i as int) =~= us);
    text::string_of(&out)
}

/// Whether `a` and `b` name the same folder: their path components agree, as
/// `Path`'s `==` has it (so `/a/b/` and `/a//b` are `/a/b`).
pub open spec fn same_place(a: Seq<char>, b: Seq<char>) -> bool {
    crate::fileops::path_components(a) == crate::fileops::path_components(b)
}

/// Whether the list `s` holds a bookmark of the folder `x`.
pub open spec fn marked(s: Seq<Seq<char>>, x: Seq<char>) -> bool {
    exists|i: int| 0 <= i < s.len() && same_place(#[trigger] s[i], x)
}

/// Whether `marks` holds a bookmark of the folder `path`.
pub fn contains(marks: &[String], path: &str) -> (b: bool)
    ensures
        b == marked(text::strings(marks@), path@),
{
    let mut i: usize = 0;
    while i < marks.len()
        invariant
            i <= marks.len(),
            forall|j: int| 0 <= j < i ==> !same_place(#[trigger] marks@[j]@, path@),
        decreases marks.len() - i,
    {
        if crate::fileops::same_path(marks[i].as_str(), path) {
            assert(text::strings(marks@)[i as int] == marks@[i as int]@);
            return true;
        }
        i += 1;
    }
    assert(!marked(text::strings(marks@), path@)) by {
        if marked(text::strings(marks@), path@) {
            let j = choose|j: int|
                0 <= j < text::strings(marks@).len() && same_place(
                    #[trigger] text::strings(marks@)[j],
                    path@,
                );
            assert(text::strings(marks@)[j] == marks@[j]@);
        }
    }
    false
}

/// Bookmark `path`, at the end of the list; `false` (and no change) when its
/// folder is already bookmarked.
pub fn add(marks: &mut Vec<String>, path: String) -> (added: bool)
    ensures
        added == !marked(text::strings(old(marks)@), path@),
        text::strings(final(marks)@) == (if added {
            text::strings(old(marks)@).push(path@)
        } else {
            text::strings(old(marks)@)
        }),
{
    broadcast use vstd::seq_lib::group_seq_properties;

    if contains(marks, path.as_str()) {
        return false;
    }
    let ghost before = marks@;
    let ghost p = path@;
    marks.push(path);
    assert(text::strings(marks@) =~= text::strings(before).push(p));
    true
}

/// `s` without any bookmark of the folder `x`, the rest in order.
pub open spec fn without(s: Seq<Seq<char>>, x: Seq<char>) -> Seq<Seq<char>>
    decreases s.len(),
{
    if s.len() == 0 {
        seq![]
    } else if same_place(s.last(), x) {
        without(s.drop_last(), x)
    } else {
        without(s.drop_last(), x).push(s.last())
    }
}

/// Remove every bookmark of the folder `path`, keeping the others in order.
pub fn remove(marks: &mut Vec<String>, path: &str)
    ensures
        text::strings(final(marks)@) == without(text::strings(old(marks)@), path@),
{
    broadcast use vstd::seq_lib::group_seq_properties;

    let ghost all = text::strings(marks@);
    let mut kept: Vec<String> = Vec::new();
    let mut rest: Vec<String> = Vec::new();
    std::mem::swap(&mut rest, marks);
    let ghost mut i: int = 0;
    assert(all.skip(0) =~= all);
    assert(text::strings(kept@) =~= without(all.take(0), path@));
    while rest.len() > 0
        invariant
            0 <= i <= all.len(),
            text::strings(rest@) == all.skip(i),
            text::strings(kept@) == without(all.take(i), path@),
        decreases rest.len(),
    {
        let ghost before = rest@;
        assert(text::strings(before).len() == before.len());
        assert(all.skip(i).len() == all.len() - i);
        assert(text::strings(before)[0] == before[0]@);
        assert(all.skip(i)[0] == all[i]);
        let m = rest.remove(0);
        assert(text::strings(before.drop_first()) =~= text::strings(before).drop_first());
        assert(all.skip(i).drop_first() =~= all.skip(i + 1));
        assert(text::strings(rest@) =~= all.skip(i + 1));
        assert(all.take(i + 1).drop_last() =~= all.take(i));
        assert(all.take(i + 1).last() == all[i]);
        let ghost prior = text::strings(kept@);
        if !crate::fileops::same_path(m.as_str(), path) {
            kept.push(m);
            assert(text::strings(kept@) =~= prior.push(all[i]));
        }
        proof {
            i = i + 1;
        }
    }
    assert(all.take(i) =~= all) by {
        assert(all.skip(i).len() == 0);
    }
    *marks = kept;
}

/// What the sidebar calls a bookmark: its folder's name, or the whole path for
/// a path without one (such as `/`).
pub open spec fn label_spec(path: Seq<char>) -> Seq<char> {
    match crate::fileops::file_name_of(path) {
        Some(n) => n,
        None => path,
    }
}

/// The sidebar label of the bookmark `path`.
pub fn label(path: &str) -> (l: String)
    ensures
        l@ == label_spec(path@),
{
    match crate::fileops::file_name(path) {
        Some(n) => n,
        None => path.to_owned(),
    }
}

// ---------------------------------------------------------------------------
// Laws
// ---------------------------------------------------------------------------

/// A path that the bookmarks file keeps as it is: nonempty, one line, with no
/// whitespace at its ends.
pub open spec fn clean_path(p: Seq<char>) -> bool {
    &&& p.len() > 0
    &&& !p.contains('\n')
    &&& text::trim(p) == p
}

proof fn lemma_text_front(list: Seq<Seq<char>>)
    requires
        list.len() >= 1,
    ensures
        bookmarks_text(list) == list[0].push('\n') + bookmarks_text(list.drop_first()),
    decreases list.len(),
{
    if list.len() == 1 {
        assert(list.drop_last() =~= Seq::<Seq<char>>::empty());
        assert(list.drop_first() =~= Seq::<Seq<char>>::empty());
        assert(bookmarks_text(list.drop_last()) =~= Seq::<char>::empty());
        assert(bookmarks_text(list.drop_first()) =~= Seq::<char>::empty());
        assert(list.last() == list[0]);
        assert(bookmarks_text(list) =~= list[0].push('\n') + Seq::<char>::empty());
    } else {
        lemma_text_front(list.drop_last());
        assert(list.drop_last().drop_first() =~= list.drop_first().drop_last());
        assert(list.drop_last()[0] == list[0]);
        assert(list.drop_first().last() == list.last());
        assert(bookmarks_text(list) =~= list[0].push('\n') + bookmarks_text(list.drop_first()));
    }
}

proof fn lemma_lines_of_text(list: Seq<Seq<char>>)
    requires
        forall|i: int| 0 <= i < list.len() ==> clean_path(#[trigger] list[i]),
    ensures
        text::lines(bookmarks_text(list)) == list,
    decreases list.len(),
{
    if list.len() == 0 {
        assert(text::lines(seq![]) =~= Seq::<Seq<char>>::empty());
        assert(list =~= Seq::<Seq<char>>::empty());
    } else {
        lemma_text_front(list);
        let p = list[0];
        assert(clean_path(p));
        text::lemma_lines_cons(p, bookmarks_text(list.drop_first()));
        assert(text::strip_cr(p) == p) by {
            assert(!text::is_space(p.last())) by {
                if text::is_space(p.last()) {
                    assert(text::trim_end(text::trim_start(p)).len() < p.len()) by {
                        lemma_trim_shorter(p);
                    }
                }
            }
        }
        assert forall|i: int| 0 <= i < list.drop_first().len() implies clean_path(
            #[trigger] list.drop_first()[i],
        ) by {
            assert(list.drop_first()[i] == list[i + 1]);
        }
        lemma_lines_of_text(list.drop_first());
        assert(seq![p] + list.drop_first() =~= list);
    }
}

/// Trimming a text that ends in whitespace shortens it.
proof fn lemma_trim_shorter(p: Seq<char>)
    requires
        p.len() > 0,
        text::is_space(p.last()),
    ensures
        text::trim(p).len() < p.len(),
{
    lemma_trim_start_suffix(p);
    let t = text::trim_start(p);
    if t.len() > 0 {
        assert(t.last() == p.last());
        lemma_trim_end_shorter(t);
    }
}

proof fn lemma_trim_start_suffix(p: Seq<char>)
    ensures
        text::trim_start(p).len() <= p.len(),
        text::trim_start(p) == p.skip(p.len() - text::trim_start(p).len()),
    decreases p.len(),
{
    if p.len() > 0 && text::is_space(p[0]) {
        lemma_trim_start_suffix(p.drop_first());
        let t = text::trim_start(p.drop_first());
        assert(p.drop_first().skip(p.drop_first().len() - t.len()) =~= p.skip(p.len() - t.len()));
    } else {
        assert(p.skip(0) =~= p);
    }
}

proof fn lemma_trim_end_shorter(t: Seq<char>)
    requires
        t.len() > 0,
        text::is_space(t.last()),
    ensures
        text::trim_end(t).len() < t.len(),
{
    lemma_trim_end_len(t.drop_last());
}

proof fn lemma_trim_end_len(t: Seq<char>)
    ensures
        text::trim_end(t).len() <= t.len(),
    decreases t.len(),
{
    if t.len() > 0 && text::is_space(t.last()) {
        lemma_trim_end_len(t.drop_last());
    }
}

proof fn lemma_bookmark_lines_keep(list: Seq<Seq<char>>)
    requires
        forall|i: int| 0 <= i < list.len() ==> clean_path(#[trigger] list[i]),
    ensures
        bookmark_lines(list) == list,
    decreases list.len(),
{
    if list.len() > 0 {
        assert forall|i: int| 0 <= i < list.drop_last().len() implies clean_path(
            #[trigger] list.drop_last()[i],
        ) by {
            assert(list.drop_last()[i] == list[i]);
        }
        lemma_bookmark_lines_keep(list.drop_last());
        assert(clean_path(list[list.len() - 1]));
        assert(list.drop_last().push(list.last()) =~= list);
    }
}

/// Saving and loading the bookmarks gives back the same list, in order, for
/// paths that are nonempty single lines without surrounding whitespace.
pub proof fn lemma_save_then_load(list: Seq<Seq<char>>)
    requires
        forall|i: int| 0 <= i < list.len() ==> clean_path(#[trigger] list[i]),
    ensures
        bookmark_lines(text::lines(bookmarks_text(list))) == list,
{
    lemma_lines_of_text(list);
    lemma_bookmark_lines_keep(list);
}

/// After removing a folder, it is no longer bookmarked.
pub proof fn lemma_removed_is_gone(s: Seq<Seq<char>>, x: Seq<char>)
    ensures
        !marked(without(s, x), x),
    decreases s.len(),
{
    if s.len() > 0 {
        lemma_removed_is_gone(s.drop_last(), x);
        let w = without(s.drop_last(), x);
        if !same_place(s.last(), x) {
            assert(!marked(w.push(s.last()), x)) by {
                if marked(w.push(s.last()), x) {
                    let j = choose|j: int|
                        0 <= j < w.push(s.last()).len() && same_place(#[trigger] w.push(s.last())[j], x);
                    if j < w.len() {
                        assert(w.push(s.last())[j] == w[j]);
                    }
                }
            }
        }
    }
}

/// Removing a folder that is not bookmarked changes nothing.
pub proof fn lemma_remove_absent(s: Seq<Seq<char>>, x: Seq<char>)
    requires
        !marked(s, x),
    ensures
        without(s, x) == s,
    decreases s.len(),
{
    if s.len() > 0 {
        assert(!marked(s.drop_last(), x)) by {
            if marked(s.drop_last(), x) {
                let j = choose|j: int| 0 <= j < s.drop_last().len() && same_place(#[trigger] s.drop_last()[j], x);
                assert(s[j] == s.drop_last()[j]);
            }
        }
        lemma_remove_absent(s.drop_last(), x);
        assert(!same_place(s[s.len() - 1], x));
        assert(s.drop_last().push(s.last()) =~= s);
    }
}

/// Adding a bookmark and removing it again gives back the list it was added to.
pub proof fn lemma_add_then_remove(s: Seq<Seq<char>>, x: Seq<char>)
    requires
        !marked(s, x),
    ensures
        without(s.push(x), x) == s,
{
    assert(s.push(x).drop_last() =~= s);
    lemma_remove_absent(s, x);
}

} // verus!
