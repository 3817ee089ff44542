//! The text of a package manifest: one relative path per line.

use vstd::prelude::*;
use crate::text::{chars_of, string_of};

verus! {

/// The text of a manifest: each path, followed by a line feed.
pub open spec fn rendered(paths: Seq<Seq<char>>) -> Seq<char>
    decreases paths.len(),
{
    if paths.len() == 0 {
        Seq::empty()
    } else {
        rendered(paths.drop_last()) + paths.last() + seq!['\n']
    }
}

/// The characters behind the last line feed: the line that is still open.
pub open spec fn open_line(text: Seq<char>) -> Seq<char>
    decreases text.len(),
{
    if text.len() == 0 || text.last() == '\n' {
        Seq::empty()
    } else {
        open_line(text.drop_last()).push(text.last())
    }
}

/// The lines that a line feed has closed, without the empty ones.
pub open spec fn closed_lines(text: Seq<char>) -> Seq<Seq<char>>
    decreases text.len(),
{
    if text.len() == 0 {
        Seq::empty()
    } else if text.last() == '\n' && open_line(text.drop_last()).len() > 0 {
        closed_lines(text.drop_last()).push(open_line(text.drop_last()))
    } else {
        closed_lines(text.drop_last())
    }
}

/// The paths that a manifest text lists: its lines, without the empty ones.
/// A last line needs no line feed.
pub open spec fn listed(text: Seq<char>) -> Seq<Seq<char>> {
    if open_line(text).len() > 0 {
        closed_lines(text).push(open_line(text))
    } else {
        closed_lines(text)
    }
}

/// A path that a manifest can hold: not empty, and without a line feed.
pub open spec fn fits_a_line(path: Seq<char>) -> bool {
    path.len() > 0 && forall|i: int| 0 <= i < path.len() ==> path[i] != '\n'
}

/// Writes a manifest.
pub fn render_manifest(paths: &Vec<String>) -> (text: String)
    ensures
        text@ == rendered(paths.deep_view()),
{
    let ghost view = paths.deep_view();
    let mut text = String::new();
    let mut i: usize = 0;
    assert(view.take(0) =~= Seq::empty());
    while i < paths.len()
        invariant
            i <= paths.len(),
            view == paths.deep_view(),
            text@ == rendered(view.take(i as int)),
        decreases paths.len() - i,
    {
        assert(view.take(i + 1).drop_last() =~= view.take(i as int));
        assert(view.take(i + 1).last() == paths[i as int]@);
        text.append(paths[i].as_str());
        text.push('\n');
        i += 1;
    }
    assert(view.take(i as int) =~= view);
    text
}

/// Reads a manifest: the listed paths, in order. Empty lines are passed
/// over.
pub fn parse_manifest(text: &str) -> (paths: Vec<String>)
    ensures
        paths.deep_view() == listed(text@),
{
    let chars = chars_of(text);
    let mut paths: Vec<String> = Vec::new();
    let mut start: usize = 0;
    let mut i: usize = 0;
    assert(chars@.take(0) =~= Seq::empty());
    assert(chars@.subrange(0, 0) =~= Seq::empty());
    while i < chars.len()
        invariant
            start <= i <= chars.len(),
            paths.deep_view() == closed_lines(chars@.take(i as int)),
            open_line(chars@.take(i as int)) == chars@.subrange(start as int, i as int),
        decreases chars.len() - i,
    {
        let ghost before = paths.deep_view();
        assert(chars@.take(i + 1).drop_last() =~= chars@.take(i as int));
        assert(chars@.take(i + 1).last() == chars[i as int]);
        if chars[i] == '\n' {
            if start < i {
                paths.push(string_of(&chars, start, i));
                assert(paths.deep_view() =~= before.push(
                    chars@.subrange(start as int, i as int),
                ));
            }
            start = i + 1;
            assert(chars@.subrange(i + 1, i + 1) =~= Seq::empty());
        } else {
            assert(chars@.subrange(start as int, i + 1) =~= chars@.subrange(
                start as int,
                i as int,
            ).push(chars[i as int]));
        }
        i += 1;
    }
    assert(chars@.take(i as int) =~= chars@);
    if start < i {
        let ghost before = paths.deep_view();
        paths.push(string_of(&chars, start, i));
        assert(paths.deep_view() =~= before.push(chars@.subrange(start as int, i as int)));
    }
    paths
}

/// Text without a line feed, added behind other text, extends the open line
/// and closes none.
proof fn lemma_extend_line(text: Seq<char>, more: Seq<char>)
    requires
        forall|i: int| 0 <= i < more.len() ==> more[i] != '\n',
    ensures
        open_line(text + more) == open_line(text) + more,
        closed_lines(text + more) == closed_lines(text),
    decreases more.len(),
{
    if more.len() == 0 {
        assert(text + more =~= text);
        assert(open_line(text) + more =~= open_line(text));
    } else {
        let shorter = more.drop_last();
        assert forall|i: int| 0 <= i < shorter.len() implies shorter[i] != '\n' by {
            assert(more[i] != '\n');
        }
        lemma_extend_line(text, shorter);
        assert((text + more).drop_last() =~= text + shorter);
        assert((text + more).last() == more.last());
        assert(more[more.len() - 1] != '\n');
        assert(open_line(text) + more =~= (open_line(text) + shorter).push(more.last()));
    }
}

/// A manifest that was written is read back as it was: the same paths in
/// the same order, provided each of them fits a line.
pub proof fn law_manifest_round_trip(paths: Seq<Seq<char>>)
    requires
        forall|i: int| 0 <= i < paths.len() ==> fits_a_line(#[trigger] paths[i]),
    ensures
        listed(rendered(paths)) == paths,
        open_line(rendered(paths)) == Seq::<char>::empty(),
    decreases paths.len(),
{
    if paths.len() > 0 {
        let shorter = paths.drop_last();
        let last = paths.last();
        assert forall|i: int| 0 <= i < shorter.len() implies fits_a_line(
            #[trigger] shorter[i],
        ) by {
            assert(fits_a_line(paths[i]));
        }
        law_manifest_round_trip(shorter);
        assert(fits_a_line(paths[paths.len() - 1]));
        let head = rendered(shorter);
        let text = rendered(paths);
        lemma_extend_line(head, last);
        assert(text.drop_last() =~= head + last);
        assert(text.last() == '\n');
        assert(open_line(head) + last =~= last);
        assert(closed_lines(text) == closed_lines(head).push(last));
        assert(closed_lines(head) == shorter);
        assert(shorter.push(last) =~= paths);
    }
}

} // verus!
