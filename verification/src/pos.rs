//! Line/column positions over a text, under the UTF-8 code-unit counting
//! convention: a column counts code units (bytes) since the last line break.
use vstd::prelude::*;

verus! {

/// Width in UTF-8 code units of one character's encoding.
pub open spec fn char_width(c: char) -> nat {
    if (c as u32) < 0x80 {
        1
    } else if (c as u32) < 0x800 {
        2
    } else if (c as u32) < 0x10000 {
        3
    } else {
        4
    }
}

/// Total width in UTF-8 code units of a character sequence.
pub open spec fn width(t: Seq<char>) -> nat
    decreases t.len(),
{
    if t.len() == 0 {
        0
    } else {
        char_width(t[0]) + width(t.drop_first())
    }
}

/// Number of line breaks in a character sequence.
pub open spec fn line_breaks(t: Seq<char>) -> nat
    decreases t.len(),
{
    if t.len() == 0 {
        0
    } else {
        (if t[0] == '\n' {
            1nat
        } else {
            0nat
        }) + line_breaks(t.drop_first())
    }
}

/// A zero-based (line, column) pair anchored in some text.
#[derive(Clone, Copy, Debug, PartialEq, Eq, Structural)]
pub struct Position {
    pub line: u32,
    pub column: u32,
}

impl Position {
    pub fn new(line: u32, column: u32) -> (p: Position)
        ensures
            p.line == line,
            p.column == column,
    {
        Position { line, column }
    }
}

impl View for Position {
    type V = (nat, nat);

    open spec fn view(&self) -> (nat, nat) {
        (self.line as nat, self.column as nat)
    }
}

/// Moving a cursor across `t`: a line break opens a new line at column zero,
/// any other character widens the column by its code-unit width.
pub open spec fn advance(p: (nat, nat), t: Seq<char>) -> (nat, nat)
    decreases t.len(),
{
    if t.len() == 0 {
        p
    } else if t[0] == '\n' {
        advance(((p.0 + 1) as nat, 0nat), t.drop_first())
    } else {
        advance((p.0, (p.1 + char_width(t[0])) as nat), t.drop_first())
    }
}

/// The cursor position after the first `i` characters of `s`.
pub open spec fn pos_at(s: Seq<char>, i: int) -> (nat, nat) {
    advance((0nat, 0nat), s.take(i))
}

/// Document order on positions.
pub open spec fn pos_le(a: (nat, nat), b: (nat, nat)) -> bool {
    a.0 < b.0 || (a.0 == b.0 && a.1 <= b.1)
}

pub proof fn lemma_width_concat(a: Seq<char>, b: Seq<char>)
    ensures
        width(a + b) == width(a) + width(b),
        line_breaks(a + b) == line_breaks(a) + line_breaks(b),
    decreases a.len(),
{
    if a.len() == 0 {
        assert(a + b =~= b);
    } else {
        assert((a + b).drop_first() =~= a.drop_first() + b);
        lemma_width_concat(a.drop_first(), b);
    }
}

pub proof fn lemma_line_breaks_le_width(t: Seq<char>)
    ensures
        line_breaks(t) <= width(t),
    decreases t.len(),
{
    if t.len() > 0 {
        lemma_line_breaks_le_width(t.drop_first());
    }
}

pub proof fn lemma_advance_concat(p: (nat, nat), a: Seq<char>, b: Seq<char>)
    ensures
        advance(p, a + b) == advance(advance(p, a), b),
    decreases a.len(),
{
    if a.len() == 0 {
        assert(a + b =~= b);
    } else {
        assert((a + b).drop_first() =~= a.drop_first() + b);
        if a[0] == '\n' {
            lemma_advance_concat(((p.0 + 1) as nat, 0nat), a.drop_first(), b);
        } else {
            lemma_advance_concat((p.0, (p.1 + char_width(a[0])) as nat), a.drop_first(), b);
        }
    }
}

pub proof fn lemma_advance_bounds(p: (nat, nat), t: Seq<char>)
    ensures
        advance(p, t).0 <= p.0 + line_breaks(t),
        advance(p, t).1 <= p.1 + width(t),
    decreases t.len(),
{
    if t.len() > 0 {
        if t[0] == '\n' {
            lemma_advance_bounds(((p.0 + 1) as nat, 0nat), t.drop_first());
        } else {
            lemma_advance_bounds((p.0, (p.1 + char_width(t[0])) as nat), t.drop_first());
        }
    }
}

pub proof fn lemma_advance_pos_le(p: (nat, nat), t: Seq<char>)
    ensures
        pos_le(p, advance(p, t)),
    decreases t.len(),
{
    if t.len() > 0 {
        if t[0] == '\n' {
            lemma_advance_pos_le(((p.0 + 1) as nat, 0nat), t.drop_first());
        } else {
            lemma_advance_pos_le((p.0, (p.1 + char_width(t[0])) as nat), t.drop_first());
        }
    }
}

/// Cursor order follows text order: an earlier cut of `s` sits at or before a later one.
pub proof fn lemma_pos_at_le(s: Seq<char>, i: int, j: int)
    requires
        0 <= i <= j <= s.len(),
    ensures
        pos_le(pos_at(s, i), pos_at(s, j)),
{
    assert(s.take(j) =~= s.take(i) + s.subrange(i, j));
    lemma_advance_concat((0nat, 0nat), s.take(i), s.subrange(i, j));
    lemma_advance_pos_le(pos_at(s, i), s.subrange(i, j));
}

fn char_width_exec(c: char) -> (w: u32)
    ensures
        w == char_width(c),
{
    let u = c as u32;
    if u < 0x80 {
        1
    } else if u < 0x800 {
        2
    } else if u < 0x10000 {
        3
    } else {
        4
    }
}

/// Advances a cursor across `text`, line by line and code unit by code unit.
pub fn count_text(line: &mut u32, column: &mut u32, text: &str)
    requires
        *old(line) + line_breaks(text@) <= u32::MAX,
        *old(column) + width(text@) <= u32::MAX,
    ensures
        (*final(line) as nat, *final(column) as nat) == advance(
            (*old(line) as nat, *old(column) as nat),
            text@,
        ),
{
    let ghost p0: (nat, nat) = (*line as nat, *column as nat);
    let mut l: u32 = *line;
    let mut c: u32 = *column;
    let n = text.unicode_len();
    let mut i: usize = 0;
    while i < n
        invariant
            i <= n,
            n == text@.len(),
            *old(line) + line_breaks(text@) <= u32::MAX,
            *old(column) + width(text@) <= u32::MAX,
            p0 == (*old(line) as nat, *old(column) as nat),
            (l as nat, c as nat) == advance(p0, text@.take(i as int)),
        decreases n - i,
    {
        let ch = text.get_char(i);
        proof {
            assert(text@.take(i + 1) =~= text@.take(i as int) + seq![text@[i as int]]);
            lemma_advance_concat(p0, text@.take(i as int), seq![text@[i as int]]);
            assert(seq![text@[i as int]].drop_first() =~= Seq::<char>::empty());
            assert(text@ =~= text@.take(i + 1) + text@.skip(i + 1));
            lemma_width_concat(text@.take(i + 1), text@.skip(i + 1));
            lemma_width_concat(text@.take(i as int), seq![text@[i as int]]);
        }
        if ch == '\n' {
            proof {
                lemma_advance_bounds(p0, text@.take(i as int));
                assert(advance((l as nat, c as nat), seq![ch]) == advance(
                    ((l + 1) as nat, 0nat),
                    seq![ch].drop_first(),
                ));
                assert(advance(((l + 1) as nat, 0nat), seq![ch].drop_first()) == ((l + 1) as nat,
                0nat));
            }
            l = l + 1;
            c = 0;
        } else {
            let w = char_width_exec(ch);
            proof {
                lemma_advance_bounds(p0, text@.take(i as int));
                assert(advance((l as nat, c as nat), seq![ch]) == advance(
                    (l as nat, (c + char_width(ch)) as nat),
                    seq![ch].drop_first(),
                ));
                assert(advance((l as nat, (c + char_width(ch)) as nat), seq![ch].drop_first()) == (
                l as nat,
                (c + char_width(ch)) as nat,
                ));
            }
            c = c + w;
        }
        i = i + 1;
    }
    proof {
        assert(text@.take(n as int) =~= text@);
    }
    *line = l;
    *column = c;
}

} // verus!
