//! The diff engine: aligns two texts at word granularity and re-expresses the
//! difference as an ordered list of non-overlapping edits anchored to the
//! original text's line/column coordinates.
use vstd::prelude::*;

use crate::pos::{
    advance, count_text, lemma_advance_bounds, lemma_advance_concat, lemma_line_breaks_le_width,
    lemma_pos_at_le, lemma_width_concat, line_breaks, pos_at, pos_le, width, Position,
};

verus! {

/// A half-open span of the original text, in line/column coordinates.
#[derive(Clone, Copy, Debug, PartialEq, Eq, Structural)]
pub struct Range {
    pub start: Position,
    pub end: Position,
}

/// One edit: replace the text in `range` (a span of the original document)
/// with `new_text`.
#[derive(Debug, PartialEq, Eq)]
pub struct TextEdit {
    pub range: Range,
    pub new_text: String,
}

/// Mathematical image of a `TextEdit`.
#[verifier::ext_equal]
pub ghost struct EditV {
    pub start: (nat, nat),
    pub end: (nat, nat),
    pub text: Seq<char>,
}

impl View for TextEdit {
    type V = EditV;

    open spec fn view(&self) -> EditV {
        EditV { start: self.range.start@, end: self.range.end@, text: self.new_text@ }
    }
}

pub open spec fn edits_view(s: Seq<TextEdit>) -> Seq<EditV> {
    s.map_values(|e: TextEdit| e@)
}

/// Tag of one aligned run of the two texts.
#[derive(Clone, Copy, Debug, PartialEq, Eq, Structural)]
pub enum RunTag {
    Equal,
    Delete,
    Insert,
}

/// A maximal aligned run: text present in both documents (`Equal`), only in
/// the old one (`Delete`), or only in the new one (`Insert`).
#[derive(Debug)]
pub struct Run {
    pub tag: RunTag,
    pub text: String,
}

/// Mathematical image of a `Run`.
#[verifier::ext_equal]
pub ghost struct RunV {
    pub tag: RunTag,
    pub text: Seq<char>,
}

impl View for Run {
    type V = RunV;

    open spec fn view(&self) -> RunV {
        RunV { tag: self.tag, text: self.text@ }
    }
}

pub open spec fn runs_view(s: Seq<Run>) -> Seq<RunV> {
    s.map_values(|r: Run| r@)
}

/// The old text as the run sequence presents it: everything but insertions.
pub open spec fn old_side(runs: Seq<RunV>) -> Seq<char>
    decreases runs.len(),
{
    if runs.len() == 0 {
        Seq::empty()
    } else {
        (if runs[0].tag == RunTag::Insert {
            Seq::empty()
        } else {
            runs[0].text
        }) + old_side(runs.drop_first())
    }
}

/// The new text as the run sequence presents it: everything but deletions.
pub open spec fn new_side(runs: Seq<RunV>) -> Seq<char>
    decreases runs.len(),
{
    if runs.len() == 0 {
        Seq::empty()
    } else {
        (if runs[0].tag == RunTag::Delete {
            Seq::empty()
        } else {
            runs[0].text
        }) + new_side(runs.drop_first())
    }
}

pub open spec fn all_equal(runs: Seq<RunV>) -> bool {
    forall|k: int| 0 <= k < runs.len() ==> (#[trigger] runs[k]).tag == RunTag::Equal
}

/// The word-granularity alignment of two texts, as the diff engine consumes
/// it. Its exact value is pinned only by the sequence-alignment method.
pub uninterp spec fn word_diff(old: Seq<char>, new: Seq<char>) -> Seq<RunV>;

/// Relies on similar::TextDiff::from_unicode_words with
/// similar::utils::TextDiffRemapper::iter_slices: a word-granularity
/// alignment of the two texts as tagged slices, in document order, whose
/// non-insert slices concatenate to `old`, whose non-delete slices
/// concatenate to `new`, and which reports identical inputs as equal runs
/// only. The alignment depends on the two texts alone.
#[verifier::external_body]
fn diff_word_runs(old: &str, new: &str) -> (r: Vec<Run>)
    ensures
        runs_view(r@) == word_diff(old@, new@),
        old_side(runs_view(r@)) == old@,
        new_side(runs_view(r@)) == new@,
        old@ == new@ ==> all_equal(runs_view(r@)),
{
    let diff = similar::TextDiff::from_unicode_words(old, new);
    let remapper = similar::utils::TextDiffRemapper::from_text_diff(&diff, old, new);
    let mut runs = Vec::new();
    for op in diff.ops() {
        for (tag, text) in remapper.iter_slices(op) {
            let tag = match tag {
                similar::ChangeTag::Equal => RunTag::Equal,
                similar::ChangeTag::Delete => RunTag::Delete,
                similar::ChangeTag::Insert => RunTag::Insert,
            };
            runs.push(Run { tag, text: text.to_string() });
        }
    }
    runs
}

/// The edit list that the run walk produces from cursor position `p`:
/// equal runs only move the cursor, a deletion becomes a replacement with
/// the directly following insertion (or with nothing), and a bare insertion
/// becomes a zero-width edit at the cursor.
pub open spec fn edits_spec(runs: Seq<RunV>, p: (nat, nat)) -> Seq<EditV>
    decreases runs.len(),
{
    if runs.len() == 0 {
        Seq::empty()
    } else if runs[0].tag == RunTag::Equal {
        edits_spec(runs.drop_first(), advance(p, runs[0].text))
    } else if runs[0].tag == RunTag::Delete {
        let q = advance(p, runs[0].text);
        if runs.len() >= 2 && runs[1].tag == RunTag::Insert {
            seq![EditV { start: p, end: q, text: runs[1].text }] + edits_spec(
                runs.subrange(2, runs.len() as int),
                q,
            )
        } else {
            seq![EditV { start: p, end: q, text: Seq::empty() }] + edits_spec(
                runs.drop_first(),
                q,
            )
        }
    } else {
        seq![EditV { start: p, end: p, text: runs[0].text }] + edits_spec(runs.drop_first(), p)
    }
}

/// An edit whose span is given as character offsets into the original text.
#[verifier::ext_equal]
pub ghost struct OffEdit {
    pub start: nat,
    pub end: nat,
    pub text: Seq<char>,
}

/// Offsets are in bounds, each span is forward, and spans do not overlap:
/// each edit ends at or before the next one starts.
pub open spec fn offs_wf(len: nat, base: nat, es: Seq<OffEdit>) -> bool {
    &&& base <= len
    &&& (forall|k: int| 0 <= k < es.len() ==> (#[trigger] es[k]).start <= es[k].end)
    &&& (forall|k: int| 0 <= k < es.len() ==> (#[trigger] es[k]).end <= len)
    &&& (forall|k: int| 0 <= k < es.len() - 1 ==> (#[trigger] es[k]).end <= es[k + 1].start)
    &&& (es.len() > 0 ==> base <= es[0].start)
}

/// One atomic multi-range replace: the text of `old` from `base` on, with
/// every span swapped for its replacement.
pub open spec fn apply_edits(old: Seq<char>, base: nat, es: Seq<OffEdit>) -> Seq<char>
    decreases es.len(),
{
    if es.len() == 0 {
        old.subrange(base as int, old.len() as int)
    } else {
        old.subrange(base as int, es[0].start as int) + es[0].text + apply_edits(
            old,
            es[0].end,
            es.drop_first(),
        )
    }
}

/// The offset image of the run walk: the same edits as `edits_spec`, with
/// spans as character offsets into the old text instead of positions.
pub open spec fn edits_offsets(runs: Seq<RunV>, o: nat) -> Seq<OffEdit>
    decreases runs.len(),
{
    if runs.len() == 0 {
        Seq::empty()
    } else if runs[0].tag == RunTag::Equal {
        edits_offsets(runs.drop_first(), (o + runs[0].text.len()) as nat)
    } else if runs[0].tag == RunTag::Delete {
        let q = (o + runs[0].text.len()) as nat;
        if runs.len() >= 2 && runs[1].tag == RunTag::Insert {
            seq![OffEdit { start: o, end: q, text: runs[1].text }] + edits_offsets(
                runs.subrange(2, runs.len() as int),
                q,
            )
        } else {
            seq![OffEdit { start: o, end: q, text: Seq::empty() }] + edits_offsets(
                runs.drop_first(),
                q,
            )
        }
    } else {
        seq![OffEdit { start: o, end: o, text: runs[0].text }] + edits_offsets(
            runs.drop_first(),
            o,
        )
    }
}

/// Position edits and offset edits describe the same spans of `old`.
pub open spec fn located(old: Seq<char>, es: Seq<EditV>, offs: Seq<OffEdit>) -> bool {
    &&& es.len() == offs.len()
    &&& (forall|k: int| 0 <= k < es.len() ==> {
        &&& (#[trigger] es[k]).start == pos_at(old, offs[k].start as int)
        &&& es[k].end == pos_at(old, offs[k].end as int)
        &&& es[k].text == offs[k].text
    })
}

/// The round-trip statement: some in-bounds, ordered family of offset spans
/// carries exactly the returned positions and texts, and replacing those
/// spans inside `old`, all at once, yields `new`.
pub open spec fn applies_to(old: Seq<char>, es: Seq<EditV>, new: Seq<char>) -> bool {
    exists|offs: Seq<OffEdit>|
        located(old, es, offs) && offs_wf(old.len(), 0, offs) && apply_edits(old, 0, offs) == new
}

/// Edits are forward spans, listed in document order without overlap.
pub open spec fn edits_ordered(es: Seq<EditV>) -> bool {
    &&& (forall|k: int| 0 <= k < es.len() ==> pos_le((#[trigger] es[k]).start, es[k].end))
    &&& (forall|k: int| 0 <= k < es.len() - 1 ==> pos_le((#[trigger] es[k]).end, es[k + 1].start))
}

proof fn lemma_run_unfold(runs: Seq<RunV>)
    requires
        runs.len() > 0,
    ensures
        runs[0].tag != RunTag::Insert ==> old_side(runs) == runs[0].text + old_side(
            runs.drop_first(),
        ),
        runs[0].tag == RunTag::Insert ==> old_side(runs) == old_side(runs.drop_first()),
        runs[0].tag != RunTag::Delete ==> new_side(runs) == runs[0].text + new_side(
            runs.drop_first(),
        ),
        runs[0].tag == RunTag::Delete ==> new_side(runs) == new_side(runs.drop_first()),
{
    assert(Seq::<char>::empty() + old_side(runs.drop_first()) =~= old_side(runs.drop_first()));
    assert(Seq::<char>::empty() + new_side(runs.drop_first()) =~= new_side(runs.drop_first()));
}

proof fn lemma_skip2(runs: Seq<RunV>)
    requires
        runs.len() >= 2,
    ensures
        runs.drop_first().drop_first() =~= runs.subrange(2, runs.len() as int),
{
}

/// Splitting off a known stretch of kept text in front of the edited region.
proof fn lemma_suffix_split(old: Seq<char>, o: nat, t: Seq<char>, rest: Seq<char>)
    requires
        o <= old.len(),
        old.subrange(o as int, old.len() as int) == t + rest,
    ensures
        o + t.len() <= old.len(),
        old.subrange(o as int, (o + t.len()) as int) == t,
        old.subrange((o + t.len()) as int, old.len() as int) == rest,
        old.take((o + t.len()) as int) == old.take(o as int) + t,
{
    assert(old.subrange(o as int, old.len() as int).len() == old.len() - o);
    assert(o + t.len() + rest.len() == old.len());
    assert forall|k: int| 0 <= k < old.len() - o implies old[o + k] == (t + rest)[k] by {
        assert(old.subrange(o as int, old.len() as int)[k] == old[o + k]);
    }
    assert(old.subrange(o as int, (o + t.len()) as int) =~= t) by {
        assert forall|k: int| 0 <= k < t.len() implies old.subrange(
            o as int,
            (o + t.len()) as int,
        )[k] == t[k] by {
            assert(old.subrange(o as int, (o + t.len()) as int)[k] == old[o + k]);
            assert((t + rest)[k] == t[k]);
        }
    }
    assert(old.subrange((o + t.len()) as int, old.len() as int) =~= rest) by {
        assert forall|k: int| 0 <= k < rest.len() implies old.subrange(
            (o + t.len()) as int,
            old.len() as int,
        )[k] == rest[k] by {
            assert(old.subrange((o + t.len()) as int, old.len() as int)[k] == old[o + t.len()
                + k]);
            assert((t + rest)[t.len() + k] == rest[k]);
        }
    }
    assert(old.take((o + t.len()) as int) =~= old.take(o as int) + t) by {
        assert forall|k: int| o <= k < o + t.len() implies old[k] == t[k - o] by {
            assert((t + rest)[k - o] == t[k - o]);
        }
    }
}

proof fn lemma_offs_cons(len: nat, base: nat, f0: OffEdit, es: Seq<OffEdit>)
    requires
        base <= f0.start,
        f0.start <= f0.end,
        f0.end <= len,
        offs_wf(len, f0.end, es),
    ensures
        offs_wf(len, base, seq![f0] + es),
{
    let s = seq![f0] + es;
    assert(s[0] == f0);
    assert(forall|k: int| 1 <= k < s.len() ==> s[k] == es[k - 1]);
    assert forall|k: int| 0 <= k < s.len() - 1 implies (#[trigger] s[k]).end <= s[k + 1].start by {
        if k == 0 {
            assert(es[0].start >= f0.end);
        } else {
            assert(s[k] == es[k - 1] && s[k + 1] == es[k]);
        }
    }
}

/// Every offset edit of the run walk is in bounds and in order.
proof fn lemma_offsets_wf(runs: Seq<RunV>, o: nat, len: nat)
    requires
        o + old_side(runs).len() <= len,
    ensures
        offs_wf(len, o, edits_offsets(runs, o)),
    decreases runs.len(),
{
    if runs.len() == 0 {
    } else {
        lemma_run_unfold(runs);
        let t = runs[0].text;
        let q = (o + t.len()) as nat;
        if runs[0].tag == RunTag::Equal {
            lemma_offsets_wf(runs.drop_first(), q, len);
            let es = edits_offsets(runs.drop_first(), q);
            assert(offs_wf(len, o, es)) by {
                assert(es.len() > 0 ==> es[0].start >= q >= o);
            }
        } else if runs[0].tag == RunTag::Delete {
            if runs.len() >= 2 && runs[1].tag == RunTag::Insert {
                lemma_skip2(runs);
                let rest = runs.subrange(2, runs.len() as int);
                lemma_run_unfold(runs.drop_first());
                lemma_offsets_wf(rest, q, len);
                lemma_offs_cons(len, o, OffEdit { start: o, end: q, text: runs[1].text }, edits_offsets(rest, q));
            } else {
                lemma_offsets_wf(runs.drop_first(), q, len);
                lemma_offs_cons(
                    len,
                    o,
                    OffEdit { start: o, end: q, text: Seq::empty() },
                    edits_offsets(runs.drop_first(), q),
                );
            }
        } else {
            lemma_offsets_wf(runs.drop_first(), o, len);
            lemma_offs_cons(
                len,
                o,
                OffEdit { start: o, end: o, text: t },
                edits_offsets(runs.drop_first(), o),
            );
        }
    }
}

/// Text kept before the first edit can be split off the applied result.
proof fn lemma_apply_split(old: Seq<char>, i: nat, j: nat, es: Seq<OffEdit>)
    requires
        i <= j <= old.len(),
        offs_wf(old.len(), j, es),
    ensures
        apply_edits(old, i, es) == old.subrange(i as int, j as int) + apply_edits(old, j, es),
    decreases es.len(),
{
    if es.len() == 0 {
        assert(old.subrange(i as int, old.len() as int) =~= old.subrange(i as int, j as int)
            + old.subrange(j as int, old.len() as int));
    } else {
        let f0 = es[0];
        assert(old.subrange(i as int, f0.start as int) =~= old.subrange(i as int, j as int)
            + old.subrange(j as int, f0.start as int));
        assert((old.subrange(i as int, j as int) + old.subrange(j as int, f0.start as int))
            + f0.text + apply_edits(old, f0.end, es.drop_first()) =~= old.subrange(
            i as int,
            j as int,
        ) + (old.subrange(j as int, f0.start as int) + f0.text + apply_edits(
            old,
            f0.end,
            es.drop_first(),
        )));
    }
}

/// Replacing the walked spans inside the old text yields exactly the new text.
proof fn lemma_round_trip(runs: Seq<RunV>, old: Seq<char>, o: nat)
    requires
        o <= old.len(),
        old.subrange(o as int, old.len() as int) == old_side(runs),
    ensures
        apply_edits(old, o, edits_offsets(runs, o)) == new_side(runs),
    decreases runs.len(),
{
    if runs.len() == 0 {
    } else {
        lemma_run_unfold(runs);
        let t = runs[0].text;
        let q = (o + t.len()) as nat;
        if runs[0].tag == RunTag::Equal {
            lemma_suffix_split(old, o, t, old_side(runs.drop_first()));
            lemma_round_trip(runs.drop_first(), old, q);
            lemma_offsets_wf(runs.drop_first(), q, old.len());
            lemma_apply_split(old, o, q, edits_offsets(runs.drop_first(), q));
        } else if runs[0].tag == RunTag::Delete {
            lemma_suffix_split(old, o, t, old_side(runs.drop_first()));
            if runs.len() >= 2 && runs[1].tag == RunTag::Insert {
                lemma_skip2(runs);
                let rest = runs.subrange(2, runs.len() as int);
                lemma_run_unfold(runs.drop_first());
                let u = runs[1].text;
                let es = seq![OffEdit { start: o, end: q, text: u }] + edits_offsets(rest, q);
                assert(es[0] == OffEdit { start: o, end: q, text: u });
                assert(es.drop_first() =~= edits_offsets(rest, q));
                lemma_round_trip(rest, old, q);
                assert(old.subrange(o as int, o as int) =~= Seq::<char>::empty());
                assert(Seq::<char>::empty() + u + new_side(rest) =~= u + new_side(rest));
            } else {
                let es = seq![OffEdit { start: o, end: q, text: Seq::<char>::empty() }]
                    + edits_offsets(runs.drop_first(), q);
                assert(es[0] == OffEdit { start: o, end: q, text: Seq::<char>::empty() });
                assert(es.drop_first() =~= edits_offsets(runs.drop_first(), q));
                lemma_round_trip(runs.drop_first(), old, q);
                assert(old.subrange(o as int, o as int) =~= Seq::<char>::empty());
                assert(Seq::<char>::empty() + Seq::<char>::empty() + new_side(runs.drop_first())
                    =~= new_side(runs.drop_first()));
            }
        } else {
            let u = t;
            let es = seq![OffEdit { start: o, end: o, text: u }] + edits_offsets(
                runs.drop_first(),
                o,
            );
            assert(es[0] == OffEdit { start: o, end: o, text: u });
            assert(es.drop_first() =~= edits_offsets(runs.drop_first(), o));
            lemma_round_trip(runs.drop_first(), old, o);
            assert(old.subrange(o as int, o as int) =~= Seq::<char>::empty());
            assert(Seq::<char>::empty() + u + new_side(runs.drop_first()) =~= u + new_side(
                runs.drop_first(),
            ));
        }
    }
}

proof fn lemma_located_cons(
    old: Seq<char>,
    e0: EditV,
    f0: OffEdit,
    es: Seq<EditV>,
    offs: Seq<OffEdit>,
)
    requires
        e0.start == pos_at(old, f0.start as int),
        e0.end == pos_at(old, f0.end as int),
        e0.text == f0.text,
        located(old, es, offs),
    ensures
        located(old, seq![e0] + es, seq![f0] + offs),
{
    let s = seq![e0] + es;
    let f = seq![f0] + offs;
    assert(s[0] == e0 && f[0] == f0);
    assert(forall|k: int| 1 <= k < s.len() ==> s[k] == es[k - 1] && f[k] == offs[k - 1]);
}

/// The positions the walk reports name exactly the offsets the walk covers.
proof fn lemma_located(runs: Seq<RunV>, old: Seq<char>, o: nat)
    requires
        o <= old.len(),
        old.subrange(o as int, old.len() as int) == old_side(runs),
    ensures
        located(old, edits_spec(runs, pos_at(old, o as int)), edits_offsets(runs, o)),
    decreases runs.len(),
{
    if runs.len() == 0 {
    } else {
        lemma_run_unfold(runs);
        let t = runs[0].text;
        let q = (o + t.len()) as nat;
        let p = pos_at(old, o as int);
        if runs[0].tag == RunTag::Equal {
            lemma_suffix_split(old, o, t, old_side(runs.drop_first()));
            lemma_advance_concat((0nat, 0nat), old.take(o as int), t);
            assert(advance(p, t) == pos_at(old, q as int));
            lemma_located(runs.drop_first(), old, q);
        } else if runs[0].tag == RunTag::Delete {
            lemma_suffix_split(old, o, t, old_side(runs.drop_first()));
            lemma_advance_concat((0nat, 0nat), old.take(o as int), t);
            assert(advance(p, t) == pos_at(old, q as int));
            if runs.len() >= 2 && runs[1].tag == RunTag::Insert {
                lemma_skip2(runs);
                let rest = runs.subrange(2, runs.len() as int);
                lemma_run_unfold(runs.drop_first());
                lemma_located(rest, old, q);
                lemma_located_cons(
                    old,
                    EditV { start: p, end: advance(p, t), text: runs[1].text },
                    OffEdit { start: o, end: q, text: runs[1].text },
                    edits_spec(rest, pos_at(old, q as int)),
                    edits_offsets(rest, q),
                );
            } else {
                lemma_located(runs.drop_first(), old, q);
                lemma_located_cons(
                    old,
                    EditV { start: p, end: advance(p, t), text: Seq::empty() },
                    OffEdit { start: o, end: q, text: Seq::empty() },
                    edits_spec(runs.drop_first(), pos_at(old, q as int)),
                    edits_offsets(runs.drop_first(), q),
                );
            }
        } else {
            lemma_located(runs.drop_first(), old, o);
            lemma_located_cons(
                old,
                EditV { start: p, end: p, text: t },
                OffEdit { start: o, end: o, text: t },
                edits_spec(runs.drop_first(), p),
                edits_offsets(runs.drop_first(), o),
            );
        }
    }
}

/// Ordered offsets give ordered positions.
proof fn lemma_located_ordered(old: Seq<char>, es: Seq<EditV>, offs: Seq<OffEdit>)
    requires
        located(old, es, offs),
        offs_wf(old.len(), 0, offs),
    ensures
        edits_ordered(es),
{
    assert forall|k: int| 0 <= k < es.len() implies pos_le(
        (#[trigger] es[k]).start,
        es[k].end,
    ) by {
        lemma_pos_at_le(old, offs[k].start as int, offs[k].end as int);
    }
    assert forall|k: int| 0 <= k < es.len() - 1 implies pos_le(
        (#[trigger] es[k]).end,
        es[k + 1].start,
    ) by {
        lemma_pos_at_le(old, offs[k].end as int, offs[k + 1].start as int);
        assert(offs[k + 1].start <= offs[k + 1].end <= old.len());
    }
}

proof fn lemma_old_side_concat(a: Seq<RunV>, b: Seq<RunV>)
    ensures
        old_side(a + b) == old_side(a) + old_side(b),
    decreases a.len(),
{
    if a.len() == 0 {
        assert(a + b =~= b);
        assert(old_side(a) + old_side(b) =~= old_side(b));
    } else {
        assert((a + b).drop_first() =~= a.drop_first() + b);
        lemma_old_side_concat(a.drop_first(), b);
        let h = if a[0].tag == RunTag::Insert {
            Seq::<char>::empty()
        } else {
            a[0].text
        };
        assert((a + b)[0] == a[0]);
        assert(h + (old_side(a.drop_first()) + old_side(b)) =~= (h + old_side(a.drop_first()))
            + old_side(b));
    }
}

/// The cursor never outruns the code-unit budget of the old text.
proof fn lemma_cursor_budget(rv: Seq<RunV>, i: int, p: (nat, nat))
    requires
        0 <= i < rv.len(),
        rv[i].tag != RunTag::Insert,
        width(old_side(rv)) <= u32::MAX,
        p == advance((0nat, 0nat), old_side(rv.take(i))),
    ensures
        p.0 + line_breaks(rv[i].text) <= u32::MAX,
        p.1 + width(rv[i].text) <= u32::MAX,
{
    let a = old_side(rv.take(i));
    let sk = rv.skip(i);
    assert(rv =~= rv.take(i) + sk);
    lemma_old_side_concat(rv.take(i), sk);
    assert(sk[0] == rv[i]);
    lemma_run_unfold(sk);
    lemma_width_concat(a, old_side(sk));
    lemma_width_concat(rv[i].text, old_side(sk.drop_first()));
    lemma_advance_bounds((0nat, 0nat), a);
    lemma_line_breaks_le_width(old_side(rv));
}

/// Consuming a non-insert run extends the consumed old text by its run text.
proof fn lemma_cursor_step(rv: Seq<RunV>, i: int)
    requires
        0 <= i < rv.len(),
        rv[i].tag != RunTag::Insert,
    ensures
        old_side(rv.take(i + 1)) == old_side(rv.take(i)) + rv[i].text,
{
    assert(rv.take(i + 1) =~= rv.take(i) + seq![rv[i]]);
    lemma_old_side_concat(rv.take(i), seq![rv[i]]);
    assert(seq![rv[i]].drop_first() =~= Seq::<RunV>::empty());
    lemma_run_unfold(seq![rv[i]]);
    assert(old_side(Seq::<RunV>::empty()) == Seq::<char>::empty());
    assert(rv[i].text + Seq::<char>::empty() =~= rv[i].text);
}

/// A consumed insertion right after a deletion adds nothing to the old text.
proof fn lemma_cursor_step2(rv: Seq<RunV>, i: int)
    requires
        0 <= i,
        i + 1 < rv.len(),
        rv[i].tag != RunTag::Insert,
        rv[i + 1].tag == RunTag::Insert,
    ensures
        old_side(rv.take(i + 2)) == old_side(rv.take(i)) + rv[i].text,
{
    lemma_cursor_step(rv, i);
    assert(rv.take(i + 2) =~= rv.take(i + 1) + seq![rv[i + 1]]);
    lemma_old_side_concat(rv.take(i + 1), seq![rv[i + 1]]);
    assert(seq![rv[i + 1]].drop_first() =~= Seq::<RunV>::empty());
    lemma_run_unfold(seq![rv[i + 1]]);
    assert(old_side(Seq::<RunV>::empty()) == Seq::<char>::empty());
    assert((old_side(rv.take(i)) + rv[i].text) + Seq::<char>::empty() =~= old_side(rv.take(i))
        + rv[i].text);
}

proof fn lemma_edits_view_push(s: Seq<TextEdit>, e: TextEdit)
    ensures
        edits_view(s.push(e)) == edits_view(s).push(e@),
{
    assert(edits_view(s.push(e)) =~= edits_view(s).push(e@));
}

/// A fully equal alignment produces no edits at all.
proof fn lemma_all_equal_empty(runs: Seq<RunV>, p: (nat, nat))
    requires
        all_equal(runs),
    ensures
        edits_spec(runs, p) == Seq::<EditV>::empty(),
    decreases runs.len(),
{
    if runs.len() > 0 {
        assert(runs[0].tag == RunTag::Equal);
        assert(forall|k: int| 0 <= k < runs.drop_first().len() ==> #[trigger] runs.drop_first()[k]
            == runs[k + 1]);
        lemma_all_equal_empty(runs.drop_first(), advance(p, runs[0].text));
    }
}

/// Walks an alignment left to right and renders it as edits: the cursor
/// tracks the original text across equal and deleted runs, a deletion (with
/// the insertion that directly follows it, if any) becomes a replacement of
/// its span, and a bare insertion becomes a zero-width edit at the cursor.
pub fn runs_to_edits(runs: &Vec<Run>) -> (r: Vec<TextEdit>)
    requires
        width(old_side(runs_view(runs@))) <= u32::MAX,
    ensures
        edits_view(r@) == edits_spec(runs_view(runs@), (0nat, 0nat)),
{
    let ghost rv = runs_view(runs@);
    let mut edits: Vec<TextEdit> = Vec::new();
    let mut line: u32 = 0;
    let mut column: u32 = 0;
    let mut i: usize = 0;
    proof {
        assert(rv.skip(0) =~= rv);
        assert(rv.take(0) =~= Seq::<RunV>::empty());
        assert(old_side(Seq::<RunV>::empty()) == Seq::<char>::empty());
        assert(advance((0nat, 0nat), Seq::<char>::empty()) == (0nat, 0nat));
        assert(edits_view(edits@) =~= Seq::<EditV>::empty());
        assert(Seq::<EditV>::empty() + edits_spec(rv, (0nat, 0nat)) =~= edits_spec(
            rv,
            (0nat, 0nat),
        ));
    }
    while i < runs.len()
        invariant
            i <= runs.len(),
            rv == runs_view(runs@),
            width(old_side(rv)) <= u32::MAX,
            (line as nat, column as nat) == advance((0nat, 0nat), old_side(rv.take(i as int))),
            edits_view(edits@) + edits_spec(rv.skip(i as int), (line as nat, column as nat))
                == edits_spec(rv, (0nat, 0nat)),
        decreases runs.len() - i,
    {
        let ghost sk = rv.skip(i as int);
        let ghost p: (nat, nat) = (line as nat, column as nat);
        let ghost acc = edits_view(edits@);
        proof {
            assert(sk[0] == rv[i as int]);
            assert(rv[i as int] == runs@[i as int]@);
        }
        let tag = runs[i].tag;
        match tag {
            RunTag::Equal => {
                proof {
                    lemma_cursor_budget(rv, i as int, p);
                }
                count_text(&mut line, &mut column, runs[i].text.as_str());
                proof {
                    lemma_cursor_step(rv, i as int);
                    lemma_advance_concat((0nat, 0nat), old_side(rv.take(i as int)), sk[0].text);
                    assert(sk.drop_first() =~= rv.skip(i + 1));
                    assert(edits_spec(sk, p) == edits_spec(
                        rv.skip(i + 1),
                        (line as nat, column as nat),
                    ));
                }
                i = i + 1;
            },
            RunTag::Delete => {
                let start = Position::new(line, column);
                proof {
                    lemma_cursor_budget(rv, i as int, p);
                }
                count_text(&mut line, &mut column, runs[i].text.as_str());
                let end = Position::new(line, column);
                proof {
                    lemma_advance_concat((0nat, 0nat), old_side(rv.take(i as int)), sk[0].text);
                }
                let merge = i + 1 < runs.len() && (match runs[i + 1].tag {
                    RunTag::Insert => true,
                    _ => false,
                });
                let new_text = if merge {
                    runs[i + 1].text.clone()
                } else {
                    String::new()
                };
                let e = TextEdit { range: Range { start, end }, new_text };
                let ghost q: (nat, nat) = (line as nat, column as nat);
                proof {
                    lemma_edits_view_push(edits@, e);
                    if merge {
                        assert(sk[1] == rv[i + 1]);
                        assert(e@ == EditV { start: p, end: q, text: sk[1].text });
                        assert(sk.subrange(2, sk.len() as int) =~= rv.skip(i + 2));
                        assert(edits_spec(sk, p) == seq![e@] + edits_spec(rv.skip(i + 2), q));
                        lemma_cursor_step2(rv, i as int);
                        assert(acc.push(e@) + edits_spec(rv.skip(i + 2), q) =~= acc + (seq![e@]
                            + edits_spec(rv.skip(i + 2), q)));
                    } else {
                        assert(sk.len() >= 2 ==> sk[1] == rv[i + 1]);
                        assert(!(sk.len() >= 2 && sk[1].tag == RunTag::Insert));
                        assert(e@ == EditV { start: p, end: q, text: Seq::empty() });
                        assert(sk.drop_first() =~= rv.skip(i + 1));
                        assert(edits_spec(sk, p) == seq![e@] + edits_spec(rv.skip(i + 1), q));
                        lemma_cursor_step(rv, i as int);
                        assert(acc.push(e@) + edits_spec(rv.skip(i + 1), q) =~= acc + (seq![e@]
                            + edits_spec(rv.skip(i + 1), q)));
                    }
                }
                edits.push(e);
                if merge {
                    i = i + 2;
                } else {
                    i = i + 1;
                }
            },
            RunTag::Insert => {
                let start = Position::new(line, column);
                let e = TextEdit {
                    range: Range { start, end: start },
                    new_text: runs[i].text.clone(),
                };
                proof {
                    lemma_edits_view_push(edits@, e);
                    assert(e@ == EditV { start: p, end: p, text: sk[0].text });
                    assert(sk.drop_first() =~= rv.skip(i + 1));
                    assert(edits_spec(sk, p) == seq![e@] + edits_spec(rv.skip(i + 1), p));
                    assert(acc.push(e@) + edits_spec(rv.skip(i + 1), p) =~= acc + (seq![e@]
                        + edits_spec(rv.skip(i + 1), p)));
                    assert(rv.take(i + 1) =~= rv.take(i as int).push(rv[i as int]));
                    assert(rv.take(i + 1) =~= rv.take(i as int) + seq![rv[i as int]]);
                    lemma_old_side_concat(rv.take(i as int), seq![rv[i as int]]);
                    assert(seq![rv[i as int]].drop_first() =~= Seq::<RunV>::empty());
                    lemma_run_unfold(seq![rv[i as int]]);
                    assert(old_side(Seq::<RunV>::empty()) == Seq::<char>::empty());
                    assert(old_side(rv.take(i as int)) + Seq::<char>::empty() =~= old_side(
                        rv.take(i as int),
                    ));
                }
                edits.push(e);
                i = i + 1;
            },
        }
    }
    proof {
        assert(rv.skip(runs@.len() as int) =~= Seq::<RunV>::empty());
        assert(edits_view(edits@) + Seq::<EditV>::empty() =~= edits_view(edits@));
    }
    edits
}

/// Translates a full-text rewrite into an ordered list of edits against the
/// original text: applying them to `old` as one atomic multi-range replace
/// yields `new`, identical texts yield no edits, and the list is pinned by
/// the word-granularity alignment of the two texts alone.
pub fn format_to_text_edits(old: &str, new: &str) -> (r: Vec<TextEdit>)
    requires
        width(old@) <= u32::MAX,
    ensures
        edits_view(r@) == edits_spec(word_diff(old@, new@), (0nat, 0nat)),
        applies_to(old@, edits_view(r@), new@),
        edits_ordered(edits_view(r@)),
        old@ == new@ ==> r@.len() == 0,
{
    let runs = diff_word_runs(old, new);
    let ghost rv = runs_view(runs@);
    proof {
        assert(old@.subrange(0, old@.len() as int) =~= old@);
        assert(old@.take(0) =~= Seq::<char>::empty());
        assert(advance((0nat, 0nat), Seq::<char>::empty()) == (0nat, 0nat));
        assert(pos_at(old@, 0) == (0nat, 0nat));
        lemma_round_trip(rv, old@, 0);
        lemma_offsets_wf(rv, 0, old@.len());
        lemma_located(rv, old@, 0);
        lemma_located_ordered(old@, edits_spec(rv, (0nat, 0nat)), edits_offsets(rv, 0));
        if old@ == new@ {
            lemma_all_equal_empty(rv, (0nat, 0nat));
        }
    }
    let r = runs_to_edits(&runs);
    proof {
        let offs = edits_offsets(rv, 0);
        assert(located(old@, edits_view(r@), offs));
        assert(applies_to(old@, edits_view(r@), new@));
    }
    r
}

} // verus!
