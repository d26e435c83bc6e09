//! The document content model: a non-empty sequence of lines (none of which
//! contains a newline) together with a cursor and a selection anchor, and the
//! closed set of edit actions that mutate it. Every action is total: an action
//! that would move past the document bounds clamps to the nearest valid
//! position, and an edit with nothing to do is a no-op.

use vstd::prelude::*;
use vstd::string::StrSliceExecFns;

verus! {

/// Relies on `String::from_iter` (through `collect`): the resulting string
/// holds exactly the given characters, in order.
#[verifier::external_body]
fn string_from_chars(cs: &Vec<char>) -> (r: String)
    ensures
        r@ == cs@,
{
    cs.iter().collect()
}

/// A direction for a one-step cursor move.
#[derive(Clone, Copy, Debug)]
pub enum Direction {
    Up,
    Down,
    Left,
    Right,
}

/// The closed set of atomic edit actions a document accepts.
#[derive(Clone, Copy, Debug)]
pub enum EditAction {
    InsertChar(char),
    InsertNewline,
    Backspace,
    Delete,
    MoveCursor(Direction),
    MoveCursorTo(usize, usize),
    SelectTo(usize, usize),
}

/// The mathematical model of a document: its lines, the cursor, and the
/// selection anchor, all as plain sequences and naturals.
#[verifier::ext_equal]
pub ghost struct DocView {
    pub lines: Seq<Seq<char>>,
    pub cursor_line: nat,
    pub cursor_col: nat,
    pub anchor_line: nat,
    pub anchor_col: nat,
}

impl DocView {
    /// The document invariant: at least one line, no line contains a newline,
    /// and the cursor and anchor point at a line and a column within it
    /// (the column may equal the line length: the position after its last
    /// character).
    pub open spec fn wf(self) -> bool {
        &&& self.lines.len() >= 1
        &&& (forall|i: int| 0 <= i < self.lines.len() ==> !(#[trigger] self.lines[i]).contains('\n'))
        &&& self.cursor_line < self.lines.len()
        &&& self.cursor_col <= self.lines[self.cursor_line as int].len()
        &&& self.anchor_line < self.lines.len()
        &&& self.anchor_col <= self.lines[self.anchor_line as int].len()
    }

    /// The length of the line the cursor is on.
    pub open spec fn cur_line_len(self) -> nat {
        self.lines[self.cursor_line as int].len()
    }
}

/// The empty document: one empty line, cursor and anchor at the origin.
pub open spec fn empty_doc() -> DocView {
    DocView {
        lines: seq![Seq::empty()],
        cursor_line: 0,
        cursor_col: 0,
        anchor_line: 0,
        anchor_col: 0,
    }
}

/// The index of the first newline in `s`, or `s.len()` if there is none.
pub open spec fn first_newline(s: Seq<char>) -> int
    decreases s.len(),
{
    if s.len() == 0 {
        0
    } else if s[0] == '\n' {
        0
    } else {
        1 + first_newline(s.drop_first())
    }
}

/// The lines of `s`, split at each newline. Splitting is exact: a trailing
/// newline yields a final empty line, and the empty text yields one empty
/// line, so the result is never empty.
pub open spec fn split_lines(s: Seq<char>) -> Seq<Seq<char>>
    decreases s.len(),
    via split_lines_decreases
{
    let i = first_newline(s);
    if !s.contains('\n') {
        seq![s]
    } else {
        seq![s.subrange(0, i)] + split_lines(s.subrange(i + 1, s.len() as int))
    }
}

#[via_fn]
proof fn split_lines_decreases(s: Seq<char>) {
    lemma_first_newline_bounds(s);
}

/// The text represented by a sequence of lines: the lines joined by single
/// newlines, with no newline at either end.
pub open spec fn joined(lines: Seq<Seq<char>>) -> Seq<char>
    decreases lines.len(),
{
    if lines.len() == 0 {
        Seq::empty()
    } else if lines.len() == 1 {
        lines[0]
    } else {
        lines[0] + seq!['\n'] + joined(lines.drop_first())
    }
}

/// The document holding the given text, split into lines, with the cursor
/// and anchor reset to the origin.
pub open spec fn doc_from_text(text: Seq<char>) -> DocView {
    DocView {
        lines: split_lines(text),
        cursor_line: 0,
        cursor_col: 0,
        anchor_line: 0,
        anchor_col: 0,
    }
}

/// The smaller of two naturals.
pub open spec fn min_nat(a: nat, b: nat) -> nat {
    if a <= b {
        a
    } else {
        b
    }
}

impl DocView {
    /// `self` with both the cursor and the anchor at the given position.
    pub open spec fn at(self, line: nat, col: nat) -> DocView {
        DocView { cursor_line: line, cursor_col: col, anchor_line: line, anchor_col: col, ..self }
    }

    /// The given position clamped to the nearest valid one: the line index to
    /// the last line, then the column to that line's length.
    pub open spec fn clamped(self, line: nat, col: nat) -> (nat, nat) {
        let l = min_nat(line, (self.lines.len() - 1) as nat);
        (l, min_nat(col, self.lines[l as int].len()))
    }
}

/// Inserting one ordinary character at the cursor: the character enters the
/// cursor's line at the cursor column, and the cursor advances one column.
pub open spec fn insert_char_at_cursor(v: DocView, c: char) -> DocView {
    let line = v.lines[v.cursor_line as int];
    DocView {
        lines: v.lines.update(v.cursor_line as int, line.insert(v.cursor_col as int, c)),
        ..v.at(v.cursor_line, v.cursor_col + 1)
    }
}

/// Breaking the cursor's line at the cursor: the part before the cursor stays,
/// the part after it becomes a new line just below, and the cursor moves to
/// the start of that new line.
pub open spec fn insert_newline_at_cursor(v: DocView) -> DocView {
    let line = v.lines[v.cursor_line as int];
    DocView {
        lines: v.lines.update(v.cursor_line as int, line.subrange(0, v.cursor_col as int)).insert(
            v.cursor_line as int + 1,
            line.subrange(v.cursor_col as int, line.len() as int),
        ),
        ..v.at(v.cursor_line + 1, 0)
    }
}

/// Backspace: removes the character before the cursor, or, at the start of a
/// line, joins the line onto the one above; at the start of the document it
/// does nothing (beyond collapsing the selection).
pub open spec fn backspace_at_cursor(v: DocView) -> DocView {
    let line = v.lines[v.cursor_line as int];
    if v.cursor_col > 0 {
        DocView {
            lines: v.lines.update(v.cursor_line as int, line.remove(v.cursor_col - 1)),
            ..v.at(v.cursor_line, (v.cursor_col - 1) as nat)
        }
    } else if v.cursor_line > 0 {
        let prev = v.lines[v.cursor_line as int - 1];
        DocView {
            lines: v.lines.update(v.cursor_line as int - 1, prev + line).remove(v.cursor_line as int),
            ..v.at((v.cursor_line - 1) as nat, prev.len())
        }
    } else {
        v.at(v.cursor_line, v.cursor_col)
    }
}

/// Delete: removes the character under the cursor, or, at the end of a line,
/// joins the line below onto it; at the end of the document it does nothing
/// (beyond collapsing the selection).
pub open spec fn delete_at_cursor(v: DocView) -> DocView {
    let line = v.lines[v.cursor_line as int];
    if v.cursor_col < line.len() {
        DocView {
            lines: v.lines.update(v.cursor_line as int, line.remove(v.cursor_col as int)),
            ..v.at(v.cursor_line, v.cursor_col)
        }
    } else if v.cursor_line + 1 < v.lines.len() {
        let next = v.lines[v.cursor_line as int + 1];
        DocView {
            lines: v.lines.update(v.cursor_line as int, line + next).remove(v.cursor_line as int + 1),
            ..v.at(v.cursor_line, v.cursor_col)
        }
    } else {
        v.at(v.cursor_line, v.cursor_col)
    }
}

/// A one-step cursor move. Left and right step over line boundaries; up and
/// down clamp the column to the new line's length; each is a no-op at the
/// document's edge.
pub open spec fn move_cursor(v: DocView, d: Direction) -> DocView {
    match d {
        Direction::Left => {
            if v.cursor_col > 0 {
                v.at(v.cursor_line, (v.cursor_col - 1) as nat)
            } else if v.cursor_line > 0 {
                v.at((v.cursor_line - 1) as nat, v.lines[v.cursor_line as int - 1].len())
            } else {
                v.at(v.cursor_line, v.cursor_col)
            }
        },
        Direction::Right => {
            if v.cursor_col < v.cur_line_len() {
                v.at(v.cursor_line, v.cursor_col + 1)
            } else if v.cursor_line + 1 < v.lines.len() {
                v.at(v.cursor_line + 1, 0)
            } else {
                v.at(v.cursor_line, v.cursor_col)
            }
        },
        Direction::Up => {
            if v.cursor_line > 0 {
                v.at(
                    (v.cursor_line - 1) as nat,
                    min_nat(v.cursor_col, v.lines[v.cursor_line as int - 1].len()),
                )
            } else {
                v.at(v.cursor_line, v.cursor_col)
            }
        },
        Direction::Down => {
            if v.cursor_line + 1 < v.lines.len() {
                v.at(
                    v.cursor_line + 1,
                    min_nat(v.cursor_col, v.lines[v.cursor_line as int + 1].len()),
                )
            } else {
                v.at(v.cursor_line, v.cursor_col)
            }
        },
    }
}

/// What one edit action does to a document. Inserting a newline character
/// breaks the line, as the dedicated action does, so no line ever contains a
/// newline; positions given to the move and select actions are clamped.
pub open spec fn apply_spec(v: DocView, a: EditAction) -> DocView {
    match a {
        EditAction::InsertChar(c) => {
            if c == '\n' {
                insert_newline_at_cursor(v)
            } else {
                insert_char_at_cursor(v, c)
            }
        },
        EditAction::InsertNewline => insert_newline_at_cursor(v),
        EditAction::Backspace => backspace_at_cursor(v),
        EditAction::Delete => delete_at_cursor(v),
        EditAction::MoveCursor(d) => move_cursor(v, d),
        EditAction::MoveCursorTo(line, col) => {
            let p = v.clamped(line as nat, col as nat);
            v.at(p.0, p.1)
        },
        EditAction::SelectTo(line, col) => {
            let p = v.clamped(line as nat, col as nat);
            DocView { cursor_line: p.0, cursor_col: p.1, ..v }
        },
    }
}

proof fn lemma_no_newline_subrange(l: Seq<char>, a: int, b: int)
    requires
        !l.contains('\n'),
        0 <= a <= b <= l.len(),
    ensures
        !l.subrange(a, b).contains('\n'),
{
    if l.subrange(a, b).contains('\n') {
        let w = choose|w: int| 0 <= w < b - a && l.subrange(a, b)[w] == '\n';
        assert(l[a + w] == '\n');
    }
}

proof fn lemma_no_newline_add(x: Seq<char>, y: Seq<char>)
    requires
        !x.contains('\n'),
        !y.contains('\n'),
    ensures
        !(x + y).contains('\n'),
{
    if (x + y).contains('\n') {
        let w = choose|w: int| 0 <= w < x.len() + y.len() && (x + y)[w] == '\n';
        if w < x.len() {
            assert(x[w] == '\n');
        } else {
            assert(y[w - x.len()] == '\n');
        }
    }
}

proof fn lemma_no_newline_insert(l: Seq<char>, i: int, c: char)
    requires
        !l.contains('\n'),
        c != '\n',
        0 <= i <= l.len(),
    ensures
        !l.insert(i, c).contains('\n'),
{
    l.insert_ensures(i, c);
    if l.insert(i, c).contains('\n') {
        let w = choose|w: int| 0 <= w < l.insert(i, c).len() && l.insert(i, c)[w] == '\n';
        if w < i {
            assert(l[w] == '\n');
        } else if w > i {
            assert(l.insert(i, c)[(w - 1) + 1] == l[w - 1]);
            assert(l[w - 1] == '\n');
        }
    }
}

proof fn lemma_no_newline_remove(l: Seq<char>, i: int)
    requires
        !l.contains('\n'),
        0 <= i < l.len(),
    ensures
        !l.remove(i).contains('\n'),
{
    lemma_no_newline_subrange(l, 0, i);
    lemma_no_newline_subrange(l, i + 1, l.len() as int);
    lemma_no_newline_add(l.subrange(0, i), l.subrange(i + 1, l.len() as int));
}

/// Every edit action keeps the document invariant: the closed action set is
/// total over well-formed documents and never leaves the cursor, the anchor
/// or the line structure invalid.
pub proof fn lemma_apply_spec_wf(v: DocView, a: EditAction)
    requires
        v.wf(),
    ensures
        apply_spec(v, a).wf(),
{
    let r = apply_spec(v, a);
    let cl = v.cursor_line as int;
    let cc = v.cursor_col as int;
    let line = v.lines[cl];
    match a {
        EditAction::InsertChar(c) => {
            if c == '\n' {
                lemma_insert_newline_wf(v);
            } else {
                lemma_insert_char_wf(v, c);
            }
        },
        EditAction::InsertNewline => {
            lemma_insert_newline_wf(v);
        },
        EditAction::Backspace => {
            if cc > 0 {
                lemma_no_newline_remove(line, cc - 1);
                assert forall|i: int| 0 <= i < r.lines.len() implies !(#[trigger] r.lines[i]).contains('\n') by {
                    if i != cl {
                        assert(r.lines[i] == v.lines[i]);
                    }
                }
            } else if cl > 0 {
                let prev = v.lines[cl - 1];
                let merged = v.lines.update(cl - 1, prev + line);
                merged.remove_ensures(cl);
                lemma_no_newline_add(prev, line);
                assert forall|i: int| 0 <= i < r.lines.len() implies !(#[trigger] r.lines[i]).contains('\n') by {
                    if i < cl {
                        assert(r.lines[i] == merged[i]);
                    } else {
                        assert(r.lines[i] == merged[i + 1]);
                    }
                }
                assert(r.lines[cl - 1] == prev + line);
            }
        },
        EditAction::Delete => {
            if cc < line.len() {
                lemma_no_newline_remove(line, cc);
                assert forall|i: int| 0 <= i < r.lines.len() implies !(#[trigger] r.lines[i]).contains('\n') by {
                    if i != cl {
                        assert(r.lines[i] == v.lines[i]);
                    }
                }
            } else if cl + 1 < v.lines.len() {
                let next = v.lines[cl + 1];
                let merged = v.lines.update(cl, line + next);
                merged.remove_ensures(cl + 1);
                lemma_no_newline_add(line, next);
                assert forall|i: int| 0 <= i < r.lines.len() implies !(#[trigger] r.lines[i]).contains('\n') by {
                    if i < cl + 1 {
                        assert(r.lines[i] == merged[i]);
                    } else {
                        assert(r.lines[i] == merged[i + 1]);
                    }
                }
                assert(r.lines[cl] == line + next);
            }
        },
        EditAction::MoveCursor(_) => {},
        EditAction::MoveCursorTo(_, _) => {},
        EditAction::SelectTo(_, _) => {},
    }
}

proof fn lemma_insert_char_wf(v: DocView, c: char)
    requires
        v.wf(),
        c != '\n',
    ensures
        insert_char_at_cursor(v, c).wf(),
        insert_char_at_cursor(v, c).lines[v.cursor_line as int].len() == v.cur_line_len() + 1,
{
    let r = insert_char_at_cursor(v, c);
    let cl = v.cursor_line as int;
    let cc = v.cursor_col as int;
    let line = v.lines[cl];
    line.insert_ensures(cc, c);
    lemma_no_newline_insert(line, cc, c);
    assert forall|i: int| 0 <= i < r.lines.len() implies !(#[trigger] r.lines[i]).contains('\n') by {
        if i != cl {
            assert(r.lines[i] == v.lines[i]);
        }
    }
}

proof fn lemma_insert_newline_wf(v: DocView)
    requires
        v.wf(),
    ensures
        insert_newline_at_cursor(v).wf(),
        insert_newline_at_cursor(v).lines.len() == v.lines.len() + 1,
{
    let r = insert_newline_at_cursor(v);
    let cl = v.cursor_line as int;
    let cc = v.cursor_col as int;
    let line = v.lines[cl];
    let pre = line.subrange(0, cc);
    let post = line.subrange(cc, line.len() as int);
    let cut = v.lines.update(cl, pre);
    cut.insert_ensures(cl + 1, post);
    lemma_no_newline_subrange(line, 0, cc);
    lemma_no_newline_subrange(line, cc, line.len() as int);
    assert forall|i: int| 0 <= i < r.lines.len() implies !(#[trigger] r.lines[i]).contains('\n') by {
        if i <= cl {
            assert(r.lines[i] == cut[i]);
        } else {
            if i > cl + 1 {
                assert(r.lines[(i - 1) + 1] == cut[i - 1]);
            }
        }
    }
    assert(r.lines[cl + 1] == post);
    assert(r.cursor_line < r.lines.len());
}

proof fn lemma_first_newline_bounds(s: Seq<char>)
    ensures
        0 <= first_newline(s) <= s.len(),
        s.contains('\n') ==> first_newline(s) < s.len() && s[first_newline(s)] == '\n',
        forall|j: int| 0 <= j < first_newline(s) ==> s[j] != '\n',
    decreases s.len(),
{
    if s.len() == 0 {
    } else if s[0] == '\n' {
        assert(s.contains('\n'));
    } else {
        lemma_first_newline_bounds(s.drop_first());
        if s.contains('\n') {
            let w = choose|w: int| 0 <= w < s.len() && s[w] == '\n';
            assert(s.drop_first()[w - 1] == '\n');
            assert(s.drop_first().contains('\n'));
        }
        assert forall|j: int| 0 <= j < first_newline(s) implies s[j] != '\n' by {
            if j >= 1 {
                assert(s.drop_first()[j - 1] == s[j]);
                assert(j - 1 < first_newline(s.drop_first()));
            }
        }
    }
}

/// Splitting yields at least one line, and no line contains a newline.
pub proof fn lemma_split_lines_wf(s: Seq<char>)
    ensures
        split_lines(s).len() >= 1,
        forall|i: int|
            0 <= i < split_lines(s).len() ==> !(#[trigger] split_lines(s)[i]).contains('\n'),
    decreases s.len(),
{
    lemma_first_newline_bounds(s);
    if !s.contains('\n') {
        assert forall|i: int|
            0 <= i < split_lines(s).len() implies !(#[trigger] split_lines(s)[i]).contains(
            '\n',
        ) by {
            if split_lines(s)[i].contains('\n') {
                let w = choose|w: int|
                    0 <= w < split_lines(s)[i].len() && split_lines(s)[i][w] == '\n';
                assert(s[w] == '\n');
                assert(s.contains('\n'));
            }
        }
    } else {
        let i = first_newline(s);
        let head = s.subrange(0, i);
        let tail = s.subrange(i + 1, s.len() as int);
        lemma_split_lines_wf(tail);
        assert forall|k: int|
            0 <= k < split_lines(s).len() implies !(#[trigger] split_lines(s)[k]).contains(
            '\n',
        ) by {
            if k == 0 {
                if head.contains('\n') {
                    let w = choose|w: int| 0 <= w < head.len() && head[w] == '\n';
                    assert(s[w] == '\n');
                }
            } else {
                assert(split_lines(s)[k] == split_lines(tail)[k - 1]);
            }
        }
    }
}

proof fn lemma_joined_cons(a: Seq<char>, rest: Seq<Seq<char>>)
    requires
        rest.len() >= 1,
    ensures
        joined(seq![a] + rest) == a + seq!['\n'] + joined(rest),
{
    let whole = seq![a] + rest;
    assert(whole.len() >= 2);
    assert(whole[0] == a);
    assert(whole.drop_first() =~= rest);
}

proof fn lemma_first_newline_after(a: Seq<char>, t: Seq<char>)
    requires
        !a.contains('\n'),
    ensures
        first_newline(a + seq!['\n'] + t) == a.len(),
        (a + seq!['\n'] + t).contains('\n'),
    decreases a.len(),
{
    let s = a + seq!['\n'] + t;
    assert(s[a.len() as int] == '\n');
    if a.len() == 0 {
        assert(s[0] == '\n');
    } else {
        assert(s[0] == a[0]);
        assert(a[0] != '\n');
        let a2 = a.drop_first();
        if a2.contains('\n') {
            let w = choose|w: int| 0 <= w < a2.len() && a2[w] == '\n';
            assert(a[w + 1] == '\n');
        }
        lemma_first_newline_after(a2, t);
        assert(s.drop_first() =~= a2 + seq!['\n'] + t);
    }
}

/// Round trip: splitting any text into lines and joining the lines with
/// newlines gives back exactly the original text.
pub proof fn lemma_join_split_roundtrip(s: Seq<char>)
    ensures
        joined(split_lines(s)) == s,
    decreases s.len(),
{
    lemma_first_newline_bounds(s);
    if !s.contains('\n') {
        assert(joined(seq![s]) == s);
    } else {
        let i = first_newline(s);
        let head = s.subrange(0, i);
        let tail = s.subrange(i + 1, s.len() as int);
        lemma_split_lines_wf(tail);
        lemma_join_split_roundtrip(tail);
        lemma_joined_cons(head, split_lines(tail));
        assert(head + seq!['\n'] + tail =~= s);
    }
}

/// Splitting is the inverse of joining: any non-empty sequence of lines, none
/// containing a newline, is recovered exactly by splitting its joined text.
pub proof fn lemma_split_of_joined(lines: Seq<Seq<char>>)
    requires
        lines.len() >= 1,
        forall|i: int| 0 <= i < lines.len() ==> !(#[trigger] lines[i]).contains('\n'),
    ensures
        split_lines(joined(lines)) == lines,
    decreases lines.len(),
{
    if lines.len() == 1 {
        assert(joined(lines) == lines[0]);
        assert(split_lines(joined(lines)) =~= lines);
    } else {
        let rest = lines.drop_first();
        let s = joined(lines);
        lemma_joined_cons(lines[0], rest);
        assert(seq![lines[0]] + rest =~= lines);
        assert(s == lines[0] + seq!['\n'] + joined(rest));
        lemma_first_newline_after(lines[0], joined(rest));
        lemma_first_newline_bounds(s);
        let i = first_newline(s);
        assert(i == lines[0].len());
        assert(s.subrange(0, i) =~= lines[0]);
        assert(s.subrange(i + 1, s.len() as int) =~= joined(rest));
        lemma_split_of_joined(rest);
        assert(split_lines(s) =~= seq![lines[0]] + split_lines(joined(rest)));
        assert(split_lines(s) =~= lines);
    }
}

/// Appending one more line extends the joined text by a newline and that line.
pub proof fn lemma_joined_push(lines: Seq<Seq<char>>, a: Seq<char>)
    requires
        lines.len() >= 1,
    ensures
        joined(lines.push(a)) == joined(lines) + seq!['\n'] + a,
    decreases lines.len(),
{
    if lines.len() == 1 {
        assert(lines.push(a).drop_first() =~= seq![a]);
        assert(lines.push(a)[0] == lines[0]);
        assert(joined(seq![a]) == a);
        assert(joined(lines.push(a)) == lines[0] + seq!['\n'] + a);
    } else {
        lemma_joined_push(lines.drop_first(), a);
        assert(lines.push(a).drop_first() =~= lines.drop_first().push(a));
        assert(joined(lines.push(a)) == lines[0] + seq!['\n'] + joined(lines.drop_first().push(a)));
        assert(joined(lines) + seq!['\n'] + a =~= lines[0] + seq!['\n'] + (joined(
            lines.drop_first(),
        ) + seq!['\n'] + a));
    }
}

/// The document built from any text satisfies the document invariant.
pub proof fn lemma_doc_from_text_wf(text: Seq<char>)
    ensures
        doc_from_text(text).wf(),
{
    lemma_split_lines_wf(text);
}

/// The document after inserting the given characters one by one at the
/// cursor.
pub open spec fn apply_inserts(v: DocView, cs: Seq<char>) -> DocView
    decreases cs.len(),
{
    if cs.len() == 0 {
        v
    } else {
        apply_inserts(apply_spec(v, EditAction::InsertChar(cs[0])), cs.drop_first())
    }
}

/// Law: over any sequence of ordinary character insertions the cursor column
/// increases monotonically, by exactly one per insertion, and never exceeds
/// the length of the line the cursor is on.
pub proof fn lemma_insert_chars_monotonic(v: DocView, cs: Seq<char>)
    requires
        v.wf(),
        forall|i: int| 0 <= i < cs.len() ==> cs[i] != '\n',
    ensures
        apply_inserts(v, cs).wf(),
        apply_inserts(v, cs).cursor_col == v.cursor_col + cs.len(),
        apply_inserts(v, cs).cursor_col <= apply_inserts(v, cs).cur_line_len(),
    decreases cs.len(),
{
    if cs.len() > 0 {
        let a = EditAction::InsertChar(cs[0]);
        let v1 = apply_spec(v, a);
        lemma_apply_spec_wf(v, a);
        assert(v1.cursor_col == v.cursor_col + 1);
        assert(forall|i: int|
            0 <= i < cs.drop_first().len() ==> #[trigger] cs.drop_first()[i] == cs[i + 1]);
        lemma_insert_chars_monotonic(v1, cs.drop_first());
    }
}

/// Law: along any sequence of ordinary character insertions, each step moves
/// the cursor column one further than the step before: after `i` insertions
/// it stands exactly `i` past where it began, so it grows monotonically with
/// the sequence.
pub proof fn lemma_insert_chars_prefix_monotonic(v: DocView, cs: Seq<char>)
    requires
        v.wf(),
        forall|i: int| 0 <= i < cs.len() ==> cs[i] != '\n',
    ensures
        forall|i: int|
            0 <= i <= cs.len() ==> #[trigger] apply_inserts(v, cs.take(i)).cursor_col
                == v.cursor_col + i,
{
    assert forall|i: int|
        0 <= i <= cs.len() implies #[trigger] apply_inserts(v, cs.take(i)).cursor_col
        == v.cursor_col + i by {
        assert(forall|j: int| 0 <= j < i ==> #[trigger] cs.take(i)[j] == cs[j]);
        lemma_insert_chars_monotonic(v, cs.take(i));
    }
}

/// Law: a `MoveCursorTo` action clamps any requested position, in or out of
/// bounds, to the nearest valid one, and never produces an out-of-range
/// cursor; the text is untouched.
pub proof fn lemma_move_to_clamps(v: DocView, line: usize, col: usize)
    requires
        v.wf(),
    ensures
        ({
            let r = apply_spec(v, EditAction::MoveCursorTo(line, col));
            &&& r.wf()
            &&& r.lines == v.lines
            &&& r.cursor_line == min_nat(line as nat, (v.lines.len() - 1) as nat)
            &&& r.cursor_col == min_nat(col as nat, v.lines[r.cursor_line as int].len())
        }),
{
    lemma_apply_spec_wf(v, EditAction::MoveCursorTo(line, col));
}

proof fn lemma_remove_insert_is_update<A>(s: Seq<A>, i: int, x: A)
    requires
        0 <= i < s.len(),
    ensures
        s.remove(i).insert(i, x) == s.update(i, x),
{
    s.remove_ensures(i);
    s.remove(i).insert_ensures(i, x);
    assert(s.remove(i).insert(i, x) =~= s.update(i, x));
}

/// The abstraction of a sequence of line buffers: each buffer as its
/// character sequence.
pub open spec fn lines_view(v: Seq<Vec<char>>) -> Seq<Seq<char>> {
    v.map_values(|l: Vec<char>| l@)
}

/// The editable document: its lines as character buffers, the cursor, and
/// the selection anchor. The abstract value is a [`DocView`]; every method
/// keeps [`DocView::wf`].
pub struct DocumentContent {
    lines: Vec<Vec<char>>,
    cursor_line: usize,
    cursor_col: usize,
    anchor_line: usize,
    anchor_col: usize,
}

impl View for DocumentContent {
    type V = DocView;

    closed spec fn view(&self) -> DocView {
        DocView {
            lines: lines_view(self.lines@),
            cursor_line: self.cursor_line as nat,
            cursor_col: self.cursor_col as nat,
            anchor_line: self.anchor_line as nat,
            anchor_col: self.anchor_col as nat,
        }
    }
}

impl DocumentContent {
    /// The empty document: one empty line, cursor at the origin.
    pub fn new() -> (d: DocumentContent)
        ensures
            d@ == empty_doc(),
            d@.wf(),
    {
        let mut lines: Vec<Vec<char>> = Vec::new();
        lines.push(Vec::new());
        let d = DocumentContent { lines, cursor_line: 0, cursor_col: 0, anchor_line: 0, anchor_col: 0 };
        proof {
            assert(d@.lines =~= seq![Seq::<char>::empty()]);
            assert(d@ =~= empty_doc());
        }
        d
    }

    /// The document initialized from the given text, split on newlines, with
    /// the cursor reset to the origin.
    pub fn with_text(text: &str) -> (d: DocumentContent)
        ensures
            d@ == doc_from_text(text@),
            d@.wf(),
    {
        let n = text.unicode_len();
        let mut lines: Vec<Vec<char>> = Vec::new();
        let mut cur: Vec<char> = Vec::new();
        let mut i: usize = 0;
        while i < n
            invariant
                n as nat == text@.len(),
                i <= n,
                forall|k: int|
                    0 <= k < lines@.len() ==> !(#[trigger] lines_view(lines@)[k]).contains('\n'),
                !cur@.contains('\n'),
                joined(lines_view(lines@).push(cur@)) == text@.subrange(0, i as int),
            decreases n - i,
        {
            let ghost lv = lines_view(lines@);
            let ghost cv = cur@;
            let ghost prefix = text@.subrange(0, i as int);
            let c = text.get_char(i);
            if c == '\n' {
                lines.push(cur);
                cur = Vec::new();
                proof {
                    let lv2 = lines_view(lines@);
                    assert(lv2 =~= lv.push(cv));
                    lemma_joined_push(lv2, cur@);
                    assert(joined(lv2) + seq!['\n'] + cur@ =~= prefix.push('\n'));
                    assert(text@.subrange(0, i as int + 1) =~= prefix.push(c));
                    assert(joined(lines_view(lines@).push(cur@)) == text@.subrange(
                        0,
                        i as int + 1,
                    ));
                }
            } else {
                cur.push(c);
                proof {
                    assert(cur@ == cv.push(c));
                    if cur@.contains('\n') {
                        let w = choose|w: int| 0 <= w < cur@.len() && cur@[w] == '\n';
                        assert(w < cv.len() ==> cv[w] == '\n');
                    }
                    if lv.len() == 0 {
                        assert(lv.push(cv) =~= seq![cv]);
                        assert(joined(seq![cv]) == cv);
                        assert(lv.push(cur@) =~= seq![cur@]);
                        assert(joined(seq![cur@]) == cur@);
                        assert(cur@ =~= prefix.push(c));
                    } else {
                        lemma_joined_push(lv, cv);
                        lemma_joined_push(lv, cur@);
                        assert(joined(lv) + seq!['\n'] + cur@ =~= (joined(lv) + seq!['\n']
                            + cv).push(c));
                    }
                    assert(text@.subrange(0, i as int + 1) =~= prefix.push(c));
                    assert(joined(lines_view(lines@).push(cur@)) == text@.subrange(
                        0,
                        i as int + 1,
                    ));
                }
            }
            i = i + 1;
        }
        let ghost lv = lines_view(lines@);
        let ghost cv = cur@;
        lines.push(cur);
        let d = DocumentContent {
            lines,
            cursor_line: 0,
            cursor_col: 0,
            anchor_line: 0,
            anchor_col: 0,
        };
        proof {
            assert(d@.lines =~= lv.push(cv));
            assert(text@.subrange(0, n as int) =~= text@);
            assert(joined(d@.lines) == text@);
            assert forall|k: int| 0 <= k < d@.lines.len() implies !(#[trigger] d@.lines[k]).contains(
                '\n',
            ) by {
                if k < lv.len() {
                    assert(d@.lines[k] == lv[k]);
                } else {
                    assert(d@.lines[k] == cv);
                }
            }
            lemma_split_of_joined(d@.lines);
            lemma_doc_from_text_wf(text@);
            assert(d@ =~= doc_from_text(text@));
        }
        d
    }

    /// The text the document holds: its lines joined by newlines. Together
    /// with [`lemma_join_split_roundtrip`], a document built by
    /// [`DocumentContent::with_text`] gives back exactly the text it was
    /// built from.
    pub fn text(&self) -> (r: String)
        requires
            self@.wf(),
        ensures
            r@ == joined(self@.lines),
    {
        let mut acc: Vec<char> = Vec::new();
        let n = self.lines.len();
        let mut li: usize = 0;
        while li < n
            invariant
                self@.wf(),
                n == self.lines@.len(),
                li <= n,
                li == 0 ==> acc@ == Seq::<char>::empty(),
                li >= 1 ==> acc@ == joined(lines_view(self.lines@).subrange(0, li as int)),
            decreases n - li,
        {
            if li > 0 {
                acc.push('\n');
            }
            let ghost base = acc@;
            let line = &self.lines[li];
            let m = line.len();
            let mut j: usize = 0;
            while j < m
                invariant
                    m == line@.len(),
                    j <= m,
                    acc@ == base + line@.subrange(0, j as int),
                decreases m - j,
            {
                let c = line[j];
                acc.push(c);
                proof {
                    assert(acc@ =~= base + line@.subrange(0, j as int + 1));
                }
                j = j + 1;
            }
            proof {
                let lv = lines_view(self.lines@);
                assert(line@.subrange(0, m as int) =~= line@);
                assert(line@ == lv[li as int]);
                if li == 0 {
                    assert(lv.subrange(0, 1) =~= seq![lv[0]]);
                    assert(joined(seq![lv[0]]) == lv[0]);
                    assert(acc@ == joined(lv.subrange(0, 1)));
                } else {
                    lemma_joined_push(lv.subrange(0, li as int), lv[li as int]);
                    assert(lv.subrange(0, li as int).push(lv[li as int]) =~= lv.subrange(
                        0,
                        li as int + 1,
                    ));
                    assert(acc@ == joined(lv.subrange(0, li as int)) + seq!['\n'] + lv[li as int]);
                }
            }
            li = li + 1;
        }
        proof {
            assert(lines_view(self.lines@).subrange(0, n as int) =~= self@.lines);
        }
        string_from_chars(&acc)
    }

    /// The text of one line, without any newline.
    pub fn line(&self, i: usize) -> (r: String)
        requires
            i < self@.lines.len(),
        ensures
            r@ == self@.lines[i as int],
    {
        string_from_chars(&self.lines[i])
    }

    /// The current cursor position, zero-indexed `(line, column)`.
    pub fn cursor_position(&self) -> (p: (usize, usize))
        ensures
            p.0 as nat == self@.cursor_line,
            p.1 as nat == self@.cursor_col,
    {
        (self.cursor_line, self.cursor_col)
    }

    /// The current selection anchor, zero-indexed `(line, column)`. It equals
    /// the cursor position unless the last action was a `SelectTo`.
    pub fn selection_anchor(&self) -> (p: (usize, usize))
        ensures
            p.0 as nat == self@.anchor_line,
            p.1 as nat == self@.anchor_col,
    {
        (self.anchor_line, self.anchor_col)
    }

    /// The number of lines; at least one on a well-formed document.
    pub fn line_count(&self) -> (n: usize)
        ensures
            n as nat == self@.lines.len(),
    {
        self.lines.len()
    }

    fn do_insert_char(&mut self, c: char)
        requires
            old(self)@.wf(),
            c != '\n',
        ensures
            final(self)@ == insert_char_at_cursor(old(self)@, c),
    {
        let cl = self.cursor_line;
        let cc = self.cursor_col;
        let ghost old_lines = self.lines@;
        let mut line = self.lines.remove(cl);
        line.insert(cc, c);
        let nl = line.len();
        assert(cc < nl);
        self.lines.insert(cl, line);
        self.cursor_col = cc + 1;
        self.anchor_line = cl;
        self.anchor_col = cc + 1;
        proof {
            lemma_remove_insert_is_update(old_lines, cl as int, line);
            assert(self@.lines =~= insert_char_at_cursor(old(self)@, c).lines) by {
                assert forall|i: int| 0 <= i < self.lines@.len() implies self@.lines[i]
                    == insert_char_at_cursor(old(self)@, c).lines[i] by {
                    if i != cl as int {
                        assert(self.lines@[i] == old_lines[i]);
                    }
                }
            }
            assert(self@ =~= insert_char_at_cursor(old(self)@, c));
        }
    }

    fn do_insert_newline(&mut self)
        requires
            old(self)@.wf(),
        ensures
            final(self)@ == insert_newline_at_cursor(old(self)@),
    {
        let cl = self.cursor_line;
        let cc = self.cursor_col;
        let ghost old_lines = self.lines@;
        let mut line = self.lines.remove(cl);
        let rest = line.split_off(cc);
        self.lines.insert(cl, line);
        let n = self.lines.len();
        assert(cl < n);
        self.lines.insert(cl + 1, rest);
        self.cursor_line = cl + 1;
        self.cursor_col = 0;
        self.anchor_line = cl + 1;
        self.anchor_col = 0;
        proof {
            lemma_remove_insert_is_update(old_lines, cl as int, line);
            assert(self.lines@ == old_lines.update(cl as int, line).insert(cl as int + 1, rest));
            let target = insert_newline_at_cursor(old(self)@);
            old_lines.update(cl as int, line).insert_ensures(cl as int + 1, rest);
            lines_view(old_lines).update(cl as int, line@).insert_ensures(cl as int + 1, rest@);
            assert(self@.lines =~= target.lines) by {
                assert forall|i: int| 0 <= i < self.lines@.len() implies self@.lines[i]
                    == target.lines[i] by {
                    let mid = old_lines.update(cl as int, line);
                    let midv = lines_view(old_lines).update(cl as int, line@);
                    if i < cl as int + 1 {
                        assert(self.lines@[i] == mid[i]);
                        assert(target.lines[i] == midv[i]);
                    } else if i == cl as int + 1 {
                        assert(self.lines@[i] == rest);
                        assert(target.lines[i] == rest@);
                    } else {
                        assert(self.lines@[(i - 1) + 1] == mid[i - 1]);
                        assert(target.lines[(i - 1) + 1] == midv[i - 1]);
                    }
                }
            }
            assert(self@ =~= target);
        }
    }

    fn do_backspace(&mut self)
        requires
            old(self)@.wf(),
        ensures
            final(self)@ == backspace_at_cursor(old(self)@),
    {
        let cl = self.cursor_line;
        let cc = self.cursor_col;
        let ghost old_lines = self.lines@;
        if cc > 0 {
            let mut line = self.lines.remove(cl);
            line.remove(cc - 1);
            self.lines.insert(cl, line);
            self.cursor_col = cc - 1;
            self.anchor_line = cl;
            self.anchor_col = cc - 1;
            proof {
                lemma_remove_insert_is_update(old_lines, cl as int, line);
                assert(self@.lines =~= backspace_at_cursor(old(self)@).lines) by {
                    assert forall|i: int| 0 <= i < self.lines@.len() implies self@.lines[i]
                        == backspace_at_cursor(old(self)@).lines[i] by {
                        if i != cl as int {
                            assert(self.lines@[i] == old_lines[i]);
                        }
                    }
                }
                assert(self@ =~= backspace_at_cursor(old(self)@));
            }
        } else if cl > 0 {
            let line = self.lines.remove(cl);
            let mut prev = self.lines.remove(cl - 1);
            let plen = prev.len();
            prev.extend_from_slice(line.as_slice());
            self.lines.insert(cl - 1, prev);
            self.cursor_line = cl - 1;
            self.cursor_col = plen;
            self.anchor_line = cl - 1;
            self.anchor_col = plen;
            proof {
                let target = backspace_at_cursor(old(self)@);
                old_lines.remove_ensures(cl as int);
                old_lines.remove(cl as int).remove_ensures(cl as int - 1);
                old_lines.remove(cl as int).remove(cl as int - 1).insert_ensures(
                    cl as int - 1,
                    prev,
                );
                let tlines = lines_view(old_lines).update(
                    cl as int - 1,
                    old_lines[cl as int - 1]@ + old_lines[cl as int]@,
                );
                tlines.remove_ensures(cl as int);
                assert(self@.lines =~= target.lines) by {
                    assert forall|i: int| 0 <= i < self.lines@.len() implies self@.lines[i]
                        == target.lines[i] by {
                        if i < cl as int - 1 {
                            assert(self.lines@[i] == old_lines[i]);
                            assert(target.lines[i] == tlines[i]);
                        } else if i == cl as int - 1 {
                            assert(self.lines@[i] == prev);
                            assert(target.lines[i] == tlines[i]);
                        } else {
                            assert(self.lines@[i] == old_lines[i + 1]);
                            assert(target.lines[i] == tlines[i + 1]);
                        }
                    }
                }
                assert(self@ =~= target);
            }
        } else {
            self.anchor_line = self.cursor_line;
            self.anchor_col = self.cursor_col;
            proof {
                assert(self@ =~= backspace_at_cursor(old(self)@));
            }
        }
    }

    fn do_delete(&mut self)
        requires
            old(self)@.wf(),
        ensures
            final(self)@ == delete_at_cursor(old(self)@),
    {
        let cl = self.cursor_line;
        let cc = self.cursor_col;
        let ghost old_lines = self.lines@;
        let llen = self.lines[cl].len();
        if cc < llen {
            let mut line = self.lines.remove(cl);
            line.remove(cc);
            self.lines.insert(cl, line);
            self.anchor_line = cl;
            self.anchor_col = cc;
            proof {
                lemma_remove_insert_is_update(old_lines, cl as int, line);
                assert(self@.lines =~= delete_at_cursor(old(self)@).lines) by {
                    assert forall|i: int| 0 <= i < self.lines@.len() implies self@.lines[i]
                        == delete_at_cursor(old(self)@).lines[i] by {
                        if i != cl as int {
                            assert(self.lines@[i] == old_lines[i]);
                        }
                    }
                }
                assert(self@ =~= delete_at_cursor(old(self)@));
            }
        } else if cl < self.lines.len() - 1 {
            let next = self.lines.remove(cl + 1);
            let mut line = self.lines.remove(cl);
            line.extend_from_slice(next.as_slice());
            self.lines.insert(cl, line);
            self.anchor_line = cl;
            self.anchor_col = cc;
            proof {
                let target = delete_at_cursor(old(self)@);
                old_lines.remove_ensures(cl as int + 1);
                old_lines.remove(cl as int + 1).remove_ensures(cl as int);
                old_lines.remove(cl as int + 1).remove(cl as int).insert_ensures(cl as int, line);
                let tlines = lines_view(old_lines).update(
                    cl as int,
                    old_lines[cl as int]@ + old_lines[cl as int + 1]@,
                );
                tlines.remove_ensures(cl as int + 1);
                assert(self@.lines =~= target.lines) by {
                    assert forall|i: int| 0 <= i < self.lines@.len() implies self@.lines[i]
                        == target.lines[i] by {
                        if i < cl as int {
                            assert(self.lines@[i] == old_lines[i]);
                            assert(target.lines[i] == tlines[i]);
                        } else if i == cl as int {
                            assert(self.lines@[i] == line);
                            assert(target.lines[i] == tlines[i]);
                        } else {
                            assert(self.lines@[i] == old_lines[i + 1]);
                            assert(target.lines[i] == tlines[i + 1]);
                        }
                    }
                }
                assert(self@ =~= target);
            }
        } else {
            self.anchor_line = cl;
            self.anchor_col = cc;
            proof {
                assert(self@ =~= delete_at_cursor(old(self)@));
            }
        }
    }

    fn do_move(&mut self, d: Direction)
        requires
            old(self)@.wf(),
        ensures
            final(self)@ == move_cursor(old(self)@, d),
    {
        let cl = self.cursor_line;
        let cc = self.cursor_col;
        match d {
            Direction::Left => {
                if cc > 0 {
                    self.cursor_col = cc - 1;
                } else if cl > 0 {
                    self.cursor_line = cl - 1;
                    self.cursor_col = self.lines[cl - 1].len();
                }
            },
            Direction::Right => {
                let llen = self.lines[cl].len();
                if cc < llen {
                    self.cursor_col = cc + 1;
                } else if cl < self.lines.len() - 1 {
                    self.cursor_line = cl + 1;
                    self.cursor_col = 0;
                }
            },
            Direction::Up => {
                if cl > 0 {
                    let llen = self.lines[cl - 1].len();
                    self.cursor_line = cl - 1;
                    self.cursor_col = if cc <= llen {
                        cc
                    } else {
                        llen
                    };
                }
            },
            Direction::Down => {
                if cl < self.lines.len() - 1 {
                    let llen = self.lines[cl + 1].len();
                    self.cursor_line = cl + 1;
                    self.cursor_col = if cc <= llen {
                        cc
                    } else {
                        llen
                    };
                }
            },
        }
        self.anchor_line = self.cursor_line;
        self.anchor_col = self.cursor_col;
        proof {
            assert(self@ =~= move_cursor(old(self)@, d));
        }
    }

    fn do_move_to(&mut self, line: usize, col: usize, select: bool)
        requires
            old(self)@.wf(),
        ensures
            final(self)@.cursor_line == old(self)@.clamped(line as nat, col as nat).0,
            final(self)@.cursor_col == old(self)@.clamped(line as nat, col as nat).1,
            final(self)@.lines == old(self)@.lines,
            select ==> final(self)@.anchor_line == old(self)@.anchor_line,
            select ==> final(self)@.anchor_col == old(self)@.anchor_col,
            !select ==> final(self)@.anchor_line == final(self)@.cursor_line,
            !select ==> final(self)@.anchor_col == final(self)@.cursor_col,
    {
        let count = self.lines.len();
        let nl = if line < count {
            line
        } else {
            count - 1
        };
        let llen = self.lines[nl].len();
        let nc = if col <= llen {
            col
        } else {
            llen
        };
        self.cursor_line = nl;
        self.cursor_col = nc;
        if !select {
            self.anchor_line = nl;
            self.anchor_col = nc;
        }
    }

    /// Applies one edit action. Every action is total: positions are clamped
    /// to the document bounds and an edit with nothing to do is a no-op, so
    /// the document invariant always holds afterwards.
    pub fn apply_action(&mut self, a: EditAction)
        requires
            old(self)@.wf(),
        ensures
            final(self)@ == apply_spec(old(self)@, a),
            final(self)@.wf(),
    {
        proof {
            lemma_apply_spec_wf(old(self)@, a);
        }
        match a {
            EditAction::InsertChar(c) => {
                if c == '\n' {
                    self.do_insert_newline();
                } else {
                    self.do_insert_char(c);
                }
            },
            EditAction::InsertNewline => {
                self.do_insert_newline();
            },
            EditAction::Backspace => {
                self.do_backspace();
            },
            EditAction::Delete => {
                self.do_delete();
            },
            EditAction::MoveCursor(d) => {
                self.do_move(d);
            },
            EditAction::MoveCursorTo(line, col) => {
                self.do_move_to(line, col, false);
                proof {
                    assert(self@ =~= apply_spec(old(self)@, a));
                }
            },
            EditAction::SelectTo(line, col) => {
                self.do_move_to(line, col, true);
                proof {
                    assert(self@ =~= apply_spec(old(self)@, a));
                }
            },
        }
    }
}

} // verus!
