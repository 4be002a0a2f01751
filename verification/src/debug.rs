//! The text form of a jagged array: one row per line, between brackets.

use vstd::prelude::*;
use vstd::string::StringExecFns;
use std::fmt::Debug;
use crate::jagged2::{step_within, Jagged2};

verus! {

/// The line of a row in the text of an array: two spaces, the row's text and a
/// line break.
pub open spec fn row_line(r: Seq<char>) -> Seq<char> {
    "  "@ + r + "\n"@
}

/// The lines of the rows, one per row, in order.
pub open spec fn row_lines(rows: Seq<Seq<char>>) -> Seq<Seq<char>> {
    rows.map_values(|r: Seq<char>| row_line(r))
}

/// The text of an array whose rows read `rows`: `[]` when there are no rows;
/// otherwise `[`, a line break, each row indented by two spaces on a line of
/// its own, and `]`.
pub open spec fn debug_layout(rows: Seq<Seq<char>>) -> Seq<char> {
    if rows.len() == 0 {
        "[]"@
    } else {
        "[\n"@ + row_lines(rows).flatten() + "]"@
    }
}

/// Characters taken by the lines of the first `k` rows of `rows`: each line is
/// two spaces, the row's text and a line break.
pub open spec fn lines_width(rows: Seq<Seq<char>>, k: int) -> int
    decreases k,
{
    if k <= 0 {
        0
    } else {
        lines_width(rows, k - 1) + rows[k - 1].len() + 3
    }
}

/// `s` holds, from position `at` on, two spaces, the text `r` and a line break.
pub open spec fn line_at(s: Seq<char>, at: int, r: Seq<char>) -> bool {
    &&& s[at] == ' '
    &&& s[at + 1] == ' '
    &&& s.subrange(at + 2, at + 2 + r.len()) == r
    &&& s[at + 2 + r.len()] == '\n'
}

/// The text of a non-empty array holds every row's text, in order: `[`, a line
/// break, then per row two spaces, the row's text and a line break, then `]`.
/// Row `k`'s line starts right after the lines of the rows before it.
pub open spec fn lays_out_rows(s: Seq<char>, rows: Seq<Seq<char>>) -> bool {
    &&& s.len() == lines_width(rows, rows.len() as int) + 3
    &&& s[0] == '['
    &&& s[1] == '\n'
    &&& s[s.len() - 1] == ']'
    &&& forall|k: int|
        0 <= k < rows.len() ==> #[trigger] line_at(s, 2 + lines_width(rows, k), rows[k])
}

/// Lines take at least three characters per row, and the width of the lines
/// grows with the number of rows counted.
proof fn lemma_lines_width_bounds(rows: Seq<Seq<char>>, k: int)
    requires
        0 <= k <= rows.len(),
    ensures
        lines_width(rows, k) >= 3 * k,
        forall|j: int| 0 <= j <= k ==> lines_width(rows, j) <= #[trigger] lines_width(rows, k),
    decreases k,
{
    if k > 0 {
        lemma_lines_width_bounds(rows, k - 1);
    }
}

/// A row's line is three characters longer than the row and reads as a line.
proof fn lemma_row_line(r: Seq<char>)
    ensures
        row_line(r).len() == r.len() + 3,
        line_at(row_line(r), 0, r),
{
    reveal_strlit("  ");
    reveal_strlit("\n");
    let l = row_line(r);
    assert(l =~= seq![' ', ' '] + r + seq!['\n']);
    assert(l.subrange(2, 2int + r.len()) =~= r);
}

/// A line in `a` stays where it is when text is added after `a`, and moves by
/// `c.len()` when `c` is put before `a`.
proof fn lemma_line_in_concat(c: Seq<char>, a: Seq<char>, b: Seq<char>, at: int, r: Seq<char>)
    requires
        line_at(a, at, r),
        0 <= at,
        at + 3 + r.len() <= a.len(),
    ensures
        line_at(a + b, at, r),
        line_at(c + a, c.len() + at, r),
{
    assert((a + b).subrange(at + 2, at + 2 + r.len()) =~= a.subrange(at + 2, at + 2 + r.len()));
    assert((c + a).subrange(c.len() + at + 2, c.len() + at + 2 + r.len()) =~= a.subrange(
        at + 2,
        at + 2 + r.len(),
    ));
}

/// The lines of the first `k` rows, joined, take `lines_width(rows, k)`
/// characters, and row `j`'s line starts at `lines_width(rows, j)`.
proof fn lemma_lines_prefix(rows: Seq<Seq<char>>, k: int)
    requires
        0 <= k <= rows.len(),
    ensures
        row_lines(rows).take(k).flatten().len() == lines_width(rows, k),
        forall|j: int|
            0 <= j < k ==> #[trigger] line_at(
                row_lines(rows).take(k).flatten(),
                lines_width(rows, j),
                rows[j],
            ),
    decreases k,
{
    let lines = row_lines(rows);
    if k == 0 {
        assert(lines.take(0) =~= Seq::<Seq<char>>::empty());
    } else {
        lemma_lines_prefix(rows, k - 1);
        lemma_lines_width_bounds(rows, k - 1);
        let prev = lines.take(k - 1).flatten();
        let t = rows[k - 1];
        assert(lines.take(k) =~= lines.take(k - 1).push(lines[k - 1]));
        lines.take(k - 1).lemma_flatten_push(lines[k - 1]);
        let body = lines.take(k).flatten();
        assert(body == prev + row_line(t));
        lemma_row_line(t);
        lemma_line_in_concat(prev, row_line(t), Seq::<char>::empty(), 0, t);
        assert(prev + row_line(t) =~= body);
        assert forall|j: int| 0 <= j < k implies #[trigger] line_at(body, lines_width(rows, j), rows[j]) by {
            lemma_lines_width_bounds(rows, j);
            if j < k - 1 {
                lemma_lines_width_bounds(rows, j + 1);
                assert(lines_width(rows, j + 1) <= lines_width(rows, k - 1));
                assert(line_at(prev, lines_width(rows, j), rows[j]));
                lemma_line_in_concat(Seq::<char>::empty(), prev, row_line(t), lines_width(rows, j), rows[j]);
            }
        }
    }
}

/// The text that `debug_layout` gives is `[]` exactly when there are no rows;
/// for one row or more it holds every row's text, in order, each on a line of
/// its own after two spaces, between a first line `[` and a last line `]`, and
/// so it has at least three characters per row besides the rows' texts and the
/// brackets.
pub proof fn lemma_debug_layout_shows_rows(rows: Seq<Seq<char>>)
    ensures
        rows.len() == 0 <==> debug_layout(rows) == "[]"@,
        rows.len() > 0 ==> lays_out_rows(debug_layout(rows), rows),
        rows.len() > 0 ==> debug_layout(rows).len() >= 3 + 3 * rows.len(),
{
    reveal_strlit("[]");
    reveal_strlit("[\n");
    reveal_strlit("]");
    let lines = row_lines(rows);
    lemma_lines_prefix(rows, rows.len() as int);
    lemma_lines_width_bounds(rows, rows.len() as int);
    assert(lines.take(rows.len() as int) =~= lines);
    if rows.len() > 0 {
        let body = lines.flatten();
        let s = debug_layout(rows);
        let head = seq!['[', '\n'];
        assert(s =~= head + (body + seq![']']));
        assert forall|k: int| 0 <= k < rows.len() implies #[trigger] line_at(
            s,
            2 + lines_width(rows, k),
            rows[k],
        ) by {
            lemma_lines_width_bounds(rows, k);
            lemma_lines_width_bounds(rows, k + 1);
            assert(line_at(body, lines_width(rows, k), rows[k]));
            lemma_line_in_concat(head, body, seq![']'], lines_width(rows, k), rows[k]);
            lemma_line_in_concat(
                head,
                body + seq![']'],
                Seq::<char>::empty(),
                lines_width(rows, k),
                rows[k],
            );
        }
        assert(s.len() != 2);
    }
}

/// Lays out the texts of the rows as `debug_layout` says: `[]` exactly when
/// there are no rows; otherwise every row's text on a line of its own, in
/// order, as `lays_out_rows` says.
pub fn format_rows(rows: &Vec<String>) -> (s: String)
    ensures
        s@ == debug_layout(rows@.map_values(|r: String| r@)),
        rows@.len() == 0 <==> s@ == "[]"@,
        rows@.len() > 0 ==> lays_out_rows(s@, rows@.map_values(|r: String| r@)),
        rows@.len() > 0 ==> s@.len() >= 3 + 3 * rows@.len(),
{
    let ghost texts = rows@.map_values(|r: String| r@);
    let ghost lines = row_lines(texts);
    let mut s = String::new();
    if rows.len() == 0 {
        s.append("[]");
        proof {
            lemma_debug_layout_shows_rows(texts);
        }
        return s;
    }
    s.append("[\n");
    let mut i: usize = 0;
    while i < rows.len()
        invariant
            i <= rows@.len(),
            texts == rows@.map_values(|r: String| r@),
            lines == row_lines(texts),
            s@ == "[\n"@ + lines.take(i as int).flatten(),
        decreases rows@.len() - i,
    {
        proof {
            assert(lines.take(i + 1) =~= lines.take(i as int).push(lines[i as int]));
            lines.take(i as int).lemma_flatten_push(lines[i as int]);
        }
        s.append("  ");
        s.append(rows[i].as_str());
        s.append("\n");
        i = i + 1;
    }
    assert(lines.take(rows@.len() as int) =~= lines);
    s.append("]");
    proof {
        lemma_debug_layout_shows_rows(texts);
    }
    s
}

/// Calls std's `format!("{:?}", ..)` on a row: the text of the row as a
/// slice, which rests on `T`'s own `Debug`. Nothing is stated of that text.
#[verifier::external_body]
pub fn row_debug<T: Debug>(row: &[T]) -> String {
    format!("{:?}", row)
}

impl<T: Debug> Jagged2<T> {
    /// The text of the array under plain `{:?}`: each row as std writes a
    /// slice with `{:?}`, laid out as `debug_layout` says: `[]` exactly when
    /// the array has no rows, and otherwise every row's text on a line of its
    /// own, in order. (Formatting with other flags, which reach each row,
    /// needs a `Formatter`.)
    pub fn debug_string(&self) -> (s: String)
        requires
            self.wf(),
        ensures
            self@.len() == 0 <==> s@ == "[]"@,
            exists|texts: Seq<Seq<char>>|
                {
                    &&& texts.len() == self@.len()
                    &&& s@ == debug_layout(texts)
                    &&& texts.len() > 0 ==> lays_out_rows(s@, texts)
                    &&& forall|k: int|
                        #[trigger] step_within(self@.len() as int, k) ==> exists|r: &[T], out: String|
                            {
                                &&& r@ == self@[k]
                                &&& out@ == texts[k]
                                &&& call_ensures(row_debug::<T>, (r,), out)
                            }
                },
    {
        let mut texts: Vec<String> = Vec::new();
        let mut stream = self.stream();
        let mut done = false;
        while !done
            invariant
                stream.wf(),
                stream.array() == *self,
                !done ==> texts@.len() + stream.remaining() == self@.len(),
                done ==> texts@.len() == self@.len(),
                forall|k: int|
                    #[trigger] step_within(texts@.len() as int, k) ==> exists|r: &[T], out: String|
                        {
                            &&& r@ == self@[k]
                            &&& out@ == texts@[k]@
                            &&& call_ensures(row_debug::<T>, (r,), out)
                        },
            decreases stream.remaining() + (if done { 0int } else { 1int }),
        {
            let ghost rem = stream.remaining();
            stream.advance();
            match stream.get() {
                None => {
                    done = true;
                },
                Some(row) => {
                    let ghost old_texts = texts@;
                    let text = row_debug(row);
                    proof {
                        assert(rem > 0);
                        assert(stream.current() == Some(old_texts.len() as usize));
                        assert(old_texts.len() == texts.len());
                        assert(row@ == self@[old_texts.len() as int]);
                    }
                    texts.push(text);
                    proof {
                        assert forall|k: int| #[trigger] step_within(texts@.len() as int, k) implies exists|
                            r: &[T],
                            out: String,
                        |
                            {
                                &&& r@ == self@[k]
                                &&& out@ == texts@[k]@
                                &&& call_ensures(row_debug::<T>, (r,), out)
                            } by {
                            if k < old_texts.len() {
                                assert(step_within(old_texts.len() as int, k));
                                assert(texts@[k] == old_texts[k]);
                            } else {
                                assert(texts@[k] == text);
                            }
                        }
                    }
                },
            }
        }
        let s = format_rows(&texts);
        let ghost strs = texts@.map_values(|r: String| r@);
        assert(strs.len() == self@.len());
        assert forall|k: int| #[trigger] step_within(self@.len() as int, k) implies exists|r: &[T], out: String|
            {
                &&& r@ == self@[k]
                &&& out@ == strs[k]
                &&& call_ensures(row_debug::<T>, (r,), out)
            } by {
            assert(step_within(texts@.len() as int, k));
        }
        s
    }
}

} // verus!
