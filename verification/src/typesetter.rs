//! The typesetter: orchestrates one document's trip through the shaping
//! engine and reassembles the engine's flat answer into lines of runs.
//!
//! A typesetter starts `Fresh`. The caller obtains the document's
//! [`ShapeRequest`], has the external engine answer it, and commits the
//! [`ShapeResult`] — the one-way transition to `Typeset`. From then on,
//! [`Typesetter::create_line`] is a pure function of the cached answer
//! and the requested byte range: it clips the flat per-code-unit output
//! to the range, groups it into runs of constant face assignment, and
//! never mixes faces within a run.

use vstd::prelude::*;
use vstd::string::StrSliceExecFns;

use crate::line::{
    glyph_total, lemma_glyph_total_concat, lemma_glyph_total_push, Line, LineView,
};
use crate::offsets::{
    byte_len, byte_to_unit, is_byte_boundary, lemma_unit_len_le_byte_len, unit_len,
    OffsetTranslator,
};
use crate::run::{Run, RunView};
use crate::shaping::{build_request, utf16_encode, ShapeRequest, ShapeResult};
use crate::style::{current_style, style_stack, EffectiveStyle, StyleResolver};
use crate::styled_text::{
    all_chars, balanced, collect_chars, depth_after, lemma_all_chars_step, lemma_depth_step,
    node_chars, InitialStyle, NodeView, Scalar, StyledText, StyledTextNodeBuf,
};

verus! {

/// Accumulator of the face-grouping pass over one stretch of code units:
/// the runs already closed, and the still-open run, if any.
#[verifier::ext_equal]
pub struct FaceAccum {
    pub done: Seq<RunView>,
    pub cur: Option<RunView>,
}

/// Closes the open run, if any.
pub open spec fn accum_flush(acc: FaceAccum) -> Seq<RunView> {
    match acc.cur {
        Some(r) => acc.done.push(r),
        None => acc.done,
    }
}

/// Consumes one code unit. A negative face assignment closes the open
/// run and produces nothing; the same face as the open run extends it;
/// any other face closes the open run and opens a new one.
pub open spec fn face_step(acc: FaceAccum, g: u32, a: Scalar, f: i32, size: Scalar) -> FaceAccum {
    if f < 0 {
        FaceAccum { done: accum_flush(acc), cur: None }
    } else {
        match acc.cur {
            Some(r) => {
                if r.face_index == f {
                    FaceAccum {
                        done: acc.done,
                        cur: Some(
                            RunView {
                                glyphs: r.glyphs.push(g),
                                advances: r.advances.push(a),
                                face_index: r.face_index,
                                size: r.size,
                            },
                        ),
                    }
                } else {
                    FaceAccum {
                        done: acc.done.push(r),
                        cur: Some(
                            RunView {
                                glyphs: seq![g],
                                advances: seq![a],
                                face_index: f,
                                size,
                            },
                        ),
                    }
                }
            },
            None => FaceAccum {
                done: acc.done,
                cur: Some(
                    RunView { glyphs: seq![g], advances: seq![a], face_index: f, size },
                ),
            },
        }
    }
}

/// The accumulator after consuming code units `[lo, p)` of the given
/// per-code-unit arrays.
pub open spec fn face_accum(
    g: Seq<u32>,
    a: Seq<Scalar>,
    f: Seq<i32>,
    lo: int,
    p: int,
    size: Scalar,
) -> FaceAccum
    decreases p - lo,
{
    if p <= lo {
        FaceAccum { done: Seq::empty(), cur: None }
    } else {
        face_step(face_accum(g, a, f, lo, p - 1, size), g[p - 1], a[p - 1], f[p - 1], size)
    }
}

/// The glyph runs produced for the code-unit interval `[lo, hi)`: the
/// grouping pass run to completion and its last run closed.
pub open spec fn face_runs(
    g: Seq<u32>,
    a: Seq<Scalar>,
    f: Seq<i32>,
    lo: int,
    hi: int,
    size: Scalar,
) -> Seq<RunView> {
    accum_flush(face_accum(g, a, f, lo, hi, size))
}

/// Appends to `runs` the face-grouped runs of code units `[lo, hi)`.
fn emit_face_runs(runs: &mut Vec<Run>, shape: &ShapeResult, lo: usize, hi: usize, size: Scalar)
    requires
        lo <= hi,
        hi <= shape.glyphs@.len(),
        shape.advances@.len() == shape.glyphs@.len(),
        shape.face_indices@.len() == shape.glyphs@.len(),
    ensures
        final(runs)@.map_values(|r: Run| r@) == old(runs)@.map_values(|r: Run| r@) + face_runs(
            shape.glyphs@,
            shape.advances@,
            shape.face_indices@,
            lo as int,
            hi as int,
            size,
        ),
{
    let ghost g = shape.glyphs@;
    let ghost a = shape.advances@;
    let ghost f = shape.face_indices@;
    let ghost base = runs@.map_values(|r: Run| r@);
    let mut cur_glyphs: Vec<u32> = Vec::new();
    let mut cur_advs: Vec<Scalar> = Vec::new();
    let mut cur_face: i32 = 0;
    let mut has_cur: bool = false;
    let mut p: usize = lo;
    while p < hi
        invariant
            lo <= p <= hi,
            hi <= g.len(),
            a.len() == g.len(),
            f.len() == g.len(),
            g == shape.glyphs@,
            a == shape.advances@,
            f == shape.face_indices@,
            ({
                let acc = face_accum(g, a, f, lo as int, p as int, size);
                &&& runs@.map_values(|r: Run| r@) == base + acc.done
                &&& has_cur == (acc.cur is Some)
                &&& (has_cur ==> acc.cur == Some(
                    RunView {
                        glyphs: cur_glyphs@,
                        advances: cur_advs@,
                        face_index: cur_face,
                        size,
                    },
                ))
                &&& (!has_cur ==> cur_glyphs@ == Seq::<u32>::empty() && cur_advs@
                    == Seq::<Scalar>::empty())
            }),
        decreases hi - p,
    {
        let ghost acc = face_accum(g, a, f, lo as int, p as int, size);
        let ghost acc2 = face_accum(g, a, f, lo as int, p as int + 1, size);
        proof {
            assert(acc2 == face_step(acc, g[p as int], a[p as int], f[p as int], size));
        }
        let fp = shape.face_indices[p];
        if fp < 0 {
            if has_cur {
                let run = Run::new(cur_glyphs, cur_advs, cur_face, size);
                cur_glyphs = Vec::new();
                cur_advs = Vec::new();
                has_cur = false;
                let ghost prev = runs@.map_values(|r: Run| r@);
                runs.push(run);
                proof {
                    assert(runs@.map_values(|r: Run| r@) =~= prev.push(run@));
                    assert(base + acc2.done =~= (base + acc.done).push(run@));
                }
            }
        } else if has_cur && cur_face == fp {
            cur_glyphs.push(shape.glyphs[p]);
            cur_advs.push(shape.advances[p]);
            proof {
                assert(acc2.cur =~= Some(
                    RunView {
                        glyphs: cur_glyphs@,
                        advances: cur_advs@,
                        face_index: cur_face,
                        size,
                    },
                ));
            }
        } else {
            if has_cur {
                let run = Run::new(cur_glyphs, cur_advs, cur_face, size);
                cur_glyphs = Vec::new();
                cur_advs = Vec::new();
                let ghost prev = runs@.map_values(|r: Run| r@);
                runs.push(run);
                proof {
                    assert(runs@.map_values(|r: Run| r@) =~= prev.push(run@));
                    assert(base + acc2.done =~= (base + acc.done).push(run@));
                }
            }
            cur_glyphs.push(shape.glyphs[p]);
            cur_advs.push(shape.advances[p]);
            cur_face = fp;
            has_cur = true;
            proof {
                assert(cur_glyphs@ =~= seq![g[p as int]]);
                assert(cur_advs@ =~= seq![a[p as int]]);
            }
        }
        p = p + 1;
    }
    let ghost acc = face_accum(g, a, f, lo as int, hi as int, size);
    if has_cur {
        let run = Run::new(cur_glyphs, cur_advs, cur_face, size);
        let ghost prev = runs@.map_values(|r: Run| r@);
        runs.push(run);
        proof {
            assert(runs@.map_values(|r: Run| r@) =~= prev.push(run@));
            assert(base + accum_flush(acc) =~= (base + acc.done).push(run@));
        }
    }
}

/// The runs of a line covering the code-unit range `[lo, hi)`: each text
/// node's overlap with the range, face-grouped under the style in effect
/// at that node — unless that style is replaced content, which produces
/// no glyph runs. Style markers and non-overlapping nodes produce
/// nothing.
pub open spec fn line_runs(
    init: InitialStyle,
    nodes: Seq<NodeView>,
    g: Seq<u32>,
    a: Seq<Scalar>,
    f: Seq<i32>,
    lo: int,
    hi: int,
) -> Seq<RunView>
    decreases nodes.len(),
{
    if nodes.len() == 0 {
        Seq::empty()
    } else {
        let prefix = nodes.drop_last();
        let prev = line_runs(init, prefix, g, a, f, lo, hi);
        match nodes.last() {
            NodeView::Text(_) => {
                let cu0 = unit_len(all_chars(prefix)) as int;
                let cu1 = unit_len(all_chars(nodes)) as int;
                let nlo = if cu0 > lo {
                    cu0
                } else {
                    lo
                };
                let nhi = if cu1 < hi {
                    cu1
                } else {
                    hi
                };
                if nlo < nhi {
                    match current_style(init, prefix) {
                        EffectiveStyle::Inline { font_size, .. } => prev + face_runs(
                            g,
                            a,
                            f,
                            nlo,
                            nhi,
                            font_size,
                        ),
                        EffectiveStyle::Replaced { .. } => prev,
                    }
                } else {
                    prev
                }
            },
            _ => prev,
        }
    }
}

/// Consuming more nodes never shortens the text.
pub proof fn lemma_unit_prefix_mono(nodes: Seq<NodeView>, i: int, j: int)
    requires
        0 <= i <= j <= nodes.len(),
    ensures
        unit_len(all_chars(nodes.take(i))) <= unit_len(all_chars(nodes.take(j))),
    decreases j - i,
{
    if i < j {
        lemma_all_chars_step(nodes, i);
        crate::offsets::lemma_unit_len_concat(
            all_chars(nodes.take(i)),
            node_chars(nodes[i]),
        );
        lemma_unit_prefix_mono(nodes, i + 1, j);
    }
}

/// Empty-range behavior: a line over an empty code-unit range has no
/// runs.
pub proof fn lemma_line_runs_empty(
    init: InitialStyle,
    nodes: Seq<NodeView>,
    g: Seq<u32>,
    a: Seq<Scalar>,
    f: Seq<i32>,
    lo: int,
    hi: int,
)
    requires
        lo >= hi,
    ensures
        line_runs(init, nodes, g, a, f, lo, hi) == Seq::<RunView>::empty(),
    decreases nodes.len(),
{
    if nodes.len() > 0 {
        lemma_line_runs_empty(init, nodes.drop_last(), g, a, f, lo, hi);
    }
}

/// Range idempotence: any two lines that satisfy `create_line`'s
/// contract for the same typeset state and the same byte range are
/// identical, so repeated calls return bit-identical lines.
pub proof fn lemma_create_line_idempotent(
    l1: LineView,
    l2: LineView,
    init: InitialStyle,
    nodes: Seq<NodeView>,
    g: Seq<u32>,
    a: Seq<Scalar>,
    f: Seq<i32>,
    start: int,
    end: int,
)
    requires
        l1.start == start,
        l1.end == end,
        l1.runs == line_runs(init, nodes, g, a, f, byte_to_unit(all_chars(nodes), start) as int,
            byte_to_unit(all_chars(nodes), end) as int),
        l2.start == start,
        l2.end == end,
        l2.runs == line_runs(init, nodes, g, a, f, byte_to_unit(all_chars(nodes), start) as int,
            byte_to_unit(all_chars(nodes), end) as int),
    ensures
        l1 == l2,
{
    assert(l1 =~= l2);
}

/// One run drawn verbatim from the interval `[s2, e2)` of the engine's
/// arrays, every position of which was assigned face `r.face_index`.
pub open spec fn run_from_interval(
    r: RunView,
    g: Seq<u32>,
    a: Seq<Scalar>,
    f: Seq<i32>,
    s2: int,
    e2: int,
) -> bool {
    &&& r.glyphs == g.subrange(s2, e2)
    &&& r.advances == a.subrange(s2, e2)
    &&& r.face_index >= 0
    &&& forall|p: int| s2 <= p < e2 ==> f[p] == r.face_index
}

/// The run covers some non-empty code-unit interval within `[lo, hi)`
/// whose every position shares the run's face: no run ever mixes faces.
pub open spec fn pure_run(
    r: RunView,
    g: Seq<u32>,
    a: Seq<Scalar>,
    f: Seq<i32>,
    lo: int,
    hi: int,
) -> bool {
    exists|s2: int, e2: int|
        lo <= s2 < e2 <= hi && run_from_interval(r, g, a, f, s2, e2)
}

proof fn lemma_face_accum_pure(
    g: Seq<u32>,
    a: Seq<Scalar>,
    f: Seq<i32>,
    lo: int,
    p: int,
    size: Scalar,
)
    requires
        0 <= lo <= p <= f.len(),
        g.len() == f.len(),
        a.len() == f.len(),
    ensures
        ({
            let acc = face_accum(g, a, f, lo, p, size);
            &&& forall|k: int|
                0 <= k < acc.done.len() ==> pure_run(#[trigger] acc.done[k], g, a, f, lo, p)
            &&& match acc.cur {
                Some(r) => exists|s2: int|
                    lo <= s2 < p && run_from_interval(r, g, a, f, s2, p),
                None => true,
            }
        }),
    decreases p - lo,
{
    if p > lo {
        let pm1 = p - 1;
        lemma_face_accum_pure(g, a, f, lo, pm1, size);
        let acc = face_accum(g, a, f, lo, pm1, size);
        let acc2 = face_accum(g, a, f, lo, p, size);
        assert(acc2 == face_step(acc, g[pm1], a[pm1], f[pm1], size));
        // a run that is pure within [lo, p-1) is pure within [lo, p)
        assert forall|k: int|
            0 <= k < acc.done.len() implies pure_run(#[trigger] acc.done[k], g, a, f, lo, p) by {
            let (s2, e2) = choose|s2: int, e2: int|
                lo <= s2 < e2 <= pm1 && run_from_interval(acc.done[k], g, a, f, s2, e2);
            assert(run_from_interval(acc.done[k], g, a, f, s2, e2));
        }
        if f[pm1] < 0 {
            match acc.cur {
                Some(r) => {
                    let s2 = choose|s2: int|
                        lo <= s2 < pm1 && run_from_interval(r, g, a, f, s2, pm1);
                    assert(run_from_interval(r, g, a, f, s2, pm1));
                    assert(acc2.done == acc.done.push(r));
                }
                None => {}
            }
        } else {
            match acc.cur {
                Some(r) => {
                    let s2 = choose|s2: int|
                        lo <= s2 < pm1 && run_from_interval(r, g, a, f, s2, pm1);
                    if r.face_index == f[pm1] {
                        let r2 = acc2.cur->Some_0;
                        assert(r2.glyphs =~= g.subrange(s2, p)) by {
                            assert(g.subrange(s2, pm1).push(g[pm1]) =~= g.subrange(s2, p));
                        }
                        assert(r2.advances =~= a.subrange(s2, p)) by {
                            assert(a.subrange(s2, pm1).push(a[pm1]) =~= a.subrange(s2, p));
                        }
                        assert(run_from_interval(r2, g, a, f, s2, p));
                    } else {
                        assert(run_from_interval(r, g, a, f, s2, pm1));
                        let r2 = acc2.cur->Some_0;
                        assert(r2.glyphs =~= g.subrange(pm1, p));
                        assert(r2.advances =~= a.subrange(pm1, p));
                        assert(run_from_interval(r2, g, a, f, pm1, p));
                    }
                }
                None => {
                    let r2 = acc2.cur->Some_0;
                    assert(r2.glyphs =~= g.subrange(pm1, p));
                    assert(r2.advances =~= a.subrange(pm1, p));
                    assert(run_from_interval(r2, g, a, f, pm1, p));
                }
            }
        }
    }
}

/// Run face-purity for one grouped stretch: every produced run draws all
/// its glyphs from positions the engine assigned to one single face.
pub proof fn lemma_face_runs_pure(
    g: Seq<u32>,
    a: Seq<Scalar>,
    f: Seq<i32>,
    lo: int,
    hi: int,
    size: Scalar,
)
    requires
        0 <= lo <= hi <= f.len(),
        g.len() == f.len(),
        a.len() == f.len(),
    ensures
        forall|k: int|
            0 <= k < face_runs(g, a, f, lo, hi, size).len() ==> pure_run(
                #[trigger] face_runs(g, a, f, lo, hi, size)[k],
                g,
                a,
                f,
                lo,
                hi,
            ),
{
    lemma_face_accum_pure(g, a, f, lo, hi, size);
    let acc = face_accum(g, a, f, lo, hi, size);
    let rs = face_runs(g, a, f, lo, hi, size);
    assert forall|k: int| 0 <= k < rs.len() implies pure_run(#[trigger] rs[k], g, a, f, lo, hi) by {
        match acc.cur {
            Some(r) => {
                assert(rs == acc.done.push(r));
                if k < acc.done.len() {
                    assert(rs[k] == acc.done[k]);
                } else {
                    assert(rs[k] == r);
                    let s2 = choose|s2: int|
                        lo <= s2 < hi && run_from_interval(r, g, a, f, s2, hi);
                    assert(run_from_interval(r, g, a, f, s2, hi));
                }
            }
            None => {
                assert(rs == acc.done);
            }
        }
    }
}

/// Run face-purity for a whole line: every run of the line covers one
/// contiguous code-unit interval of the requested range, all of whose
/// positions the engine assigned to that run's face. No downstream
/// consumer ever needs to split a run on font-identity grounds.
pub proof fn lemma_line_face_purity(
    init: InitialStyle,
    nodes: Seq<NodeView>,
    g: Seq<u32>,
    a: Seq<Scalar>,
    f: Seq<i32>,
    lo: int,
    hi: int,
)
    requires
        0 <= lo,
        hi <= f.len(),
        g.len() == f.len(),
        a.len() == f.len(),
    ensures
        forall|k: int|
            0 <= k < line_runs(init, nodes, g, a, f, lo, hi).len() ==> pure_run(
                #[trigger] line_runs(init, nodes, g, a, f, lo, hi)[k],
                g,
                a,
                f,
                lo,
                hi,
            ),
    decreases nodes.len(),
{
    if nodes.len() > 0 {
        let prefix = nodes.drop_last();
        lemma_line_face_purity(init, prefix, g, a, f, lo, hi);
        let prev = line_runs(init, prefix, g, a, f, lo, hi);
        let rs = line_runs(init, nodes, g, a, f, lo, hi);
        match nodes.last() {
            NodeView::Text(_) => {
                let cu0 = unit_len(all_chars(prefix)) as int;
                let cu1 = unit_len(all_chars(nodes)) as int;
                let nlo = if cu0 > lo {
                    cu0
                } else {
                    lo
                };
                let nhi = if cu1 < hi {
                    cu1
                } else {
                    hi
                };
                if nlo < nhi {
                    match current_style(init, prefix) {
                        EffectiveStyle::Inline { font_size, .. } => {
                            lemma_face_runs_pure(g, a, f, nlo, nhi, font_size);
                            let fr = face_runs(g, a, f, nlo, nhi, font_size);
                            assert forall|k: int| 0 <= k < rs.len() implies pure_run(
                                #[trigger] rs[k],
                                g,
                                a,
                                f,
                                lo,
                                hi,
                            ) by {
                                if k < prev.len() {
                                    assert(rs[k] == prev[k]);
                                } else {
                                    let rk = fr[k - prev.len()];
                                    assert(rs[k] == rk);
                                    assert(pure_run(rk, g, a, f, nlo, nhi));
                                    let (s2, e2) = choose|s2: int, e2: int|
                                        nlo <= s2 < e2 <= nhi && run_from_interval(
                                            rk,
                                            g,
                                            a,
                                            f,
                                            s2,
                                            e2,
                                        );
                                    assert(run_from_interval(rs[k], g, a, f, s2, e2));
                                }
                            }
                        }
                        EffectiveStyle::Replaced { .. } => {}
                    }
                }
            }
            _ => {}
        }
    }
}

/// How many positions of `[lo, hi)` the engine assigned a face — the
/// positions that produced a glyph.
pub open spec fn count_shaped(f: Seq<i32>, lo: int, hi: int) -> nat
    decreases hi - lo,
{
    if lo >= hi {
        0
    } else {
        count_shaped(f, lo, hi - 1) + if f[hi - 1] >= 0 {
            1nat
        } else {
            0nat
        }
    }
}

proof fn lemma_face_accum_count(
    g: Seq<u32>,
    a: Seq<Scalar>,
    f: Seq<i32>,
    lo: int,
    p: int,
    size: Scalar,
)
    requires
        0 <= lo <= p <= f.len(),
        g.len() == f.len(),
        a.len() == f.len(),
    ensures
        glyph_total(accum_flush(face_accum(g, a, f, lo, p, size))) == count_shaped(f, lo, p),
    decreases p - lo,
{
    if p > lo {
        let pm1 = p - 1;
        lemma_face_accum_count(g, a, f, lo, pm1, size);
        let acc = face_accum(g, a, f, lo, pm1, size);
        let acc2 = face_accum(g, a, f, lo, p, size);
        assert(acc2 == face_step(acc, g[pm1], a[pm1], f[pm1], size));
        if f[pm1] < 0 {
            match acc.cur {
                Some(r) => {
                    lemma_glyph_total_push(acc.done, r);
                }
                None => {}
            }
        } else {
            match acc.cur {
                Some(r) => {
                    if r.face_index == f[pm1] {
                        let r2 = acc2.cur->Some_0;
                        lemma_glyph_total_push(acc.done, r);
                        lemma_glyph_total_push(acc2.done, r2);
                    } else {
                        let r2 = acc2.cur->Some_0;
                        lemma_glyph_total_push(acc.done, r);
                        lemma_glyph_total_push(acc2.done, r2);
                        lemma_glyph_total_push(acc.done.push(r), r2);
                    }
                }
                None => {
                    let r2 = acc2.cur->Some_0;
                    lemma_glyph_total_push(acc2.done, r2);
                }
            }
        }
    }
}

/// The face-grouping pass loses no glyph and invents none: its runs hold
/// exactly one glyph per face-assigned position of the interval.
pub proof fn lemma_face_runs_count(
    g: Seq<u32>,
    a: Seq<Scalar>,
    f: Seq<i32>,
    lo: int,
    hi: int,
    size: Scalar,
)
    requires
        0 <= lo <= hi <= f.len(),
        g.len() == f.len(),
        a.len() == f.len(),
    ensures
        glyph_total(face_runs(g, a, f, lo, hi, size)) == count_shaped(f, lo, hi),
{
    lemma_face_accum_count(g, a, f, lo, hi, size);
}

/// How many glyph-producing code units the range `[lo, hi)` holds: the
/// face-assigned positions of every text-node overlap shaped under an
/// inline style. Replaced-content spans produce none.
pub open spec fn line_shaped_count(
    init: InitialStyle,
    nodes: Seq<NodeView>,
    f: Seq<i32>,
    lo: int,
    hi: int,
) -> nat
    decreases nodes.len(),
{
    if nodes.len() == 0 {
        0
    } else {
        let prefix = nodes.drop_last();
        let prev = line_shaped_count(init, prefix, f, lo, hi);
        match nodes.last() {
            NodeView::Text(_) => {
                let cu0 = unit_len(all_chars(prefix)) as int;
                let cu1 = unit_len(all_chars(nodes)) as int;
                let nlo = if cu0 > lo {
                    cu0
                } else {
                    lo
                };
                let nhi = if cu1 < hi {
                    cu1
                } else {
                    hi
                };
                if nlo < nhi {
                    match current_style(init, prefix) {
                        EffectiveStyle::Inline { .. } => prev + count_shaped(f, nlo, nhi),
                        EffectiveStyle::Replaced { .. } => prev,
                    }
                } else {
                    prev
                }
            },
            _ => prev,
        }
    }
}

/// Glyph conservation: a line's total glyph count equals the number of
/// glyph-producing code units of the requested range.
pub proof fn lemma_line_glyph_count(
    init: InitialStyle,
    nodes: Seq<NodeView>,
    g: Seq<u32>,
    a: Seq<Scalar>,
    f: Seq<i32>,
    lo: int,
    hi: int,
)
    requires
        0 <= lo,
        hi <= f.len(),
        g.len() == f.len(),
        a.len() == f.len(),
    ensures
        glyph_total(line_runs(init, nodes, g, a, f, lo, hi)) == line_shaped_count(
            init,
            nodes,
            f,
            lo,
            hi,
        ),
    decreases nodes.len(),
{
    if nodes.len() > 0 {
        let prefix = nodes.drop_last();
        lemma_line_glyph_count(init, prefix, g, a, f, lo, hi);
        let prev = line_runs(init, prefix, g, a, f, lo, hi);
        match nodes.last() {
            NodeView::Text(_) => {
                let cu0 = unit_len(all_chars(prefix)) as int;
                let cu1 = unit_len(all_chars(nodes)) as int;
                let nlo = if cu0 > lo {
                    cu0
                } else {
                    lo
                };
                let nhi = if cu1 < hi {
                    cu1
                } else {
                    hi
                };
                if nlo < nhi {
                    match current_style(init, prefix) {
                        EffectiveStyle::Inline { font_size, .. } => {
                            lemma_face_runs_count(g, a, f, nlo, nhi, font_size);
                            lemma_glyph_total_concat(
                                prev,
                                face_runs(g, a, f, nlo, nhi, font_size),
                            );
                        }
                        EffectiveStyle::Replaced { .. } => {}
                    }
                }
            }
            _ => {}
        }
    }
}

/// The values of `vals` at the face-assigned positions of `[lo, hi)`,
/// in position order — the engine's output restricted to the positions
/// that produced a glyph.
pub open spec fn shaped_values(vals: Seq<u32>, f: Seq<i32>, lo: int, hi: int) -> Seq<u32>
    decreases hi - lo,
{
    if lo >= hi {
        Seq::empty()
    } else {
        shaped_values(vals, f, lo, hi - 1) + if f[hi - 1] >= 0 {
            seq![vals[hi - 1]]
        } else {
            Seq::empty()
        }
    }
}

/// The concatenation of all runs' glyphs, in run order.
pub open spec fn runs_glyphs(runs: Seq<RunView>) -> Seq<u32>
    decreases runs.len(),
{
    if runs.len() == 0 {
        Seq::empty()
    } else {
        runs_glyphs(runs.drop_last()) + runs.last().glyphs
    }
}

/// The concatenation of all runs' advances, in run order.
pub open spec fn runs_advances(runs: Seq<RunView>) -> Seq<Scalar>
    decreases runs.len(),
{
    if runs.len() == 0 {
        Seq::empty()
    } else {
        runs_advances(runs.drop_last()) + runs.last().advances
    }
}

proof fn lemma_runs_values_push(runs: Seq<RunView>, r: RunView)
    ensures
        runs_glyphs(runs.push(r)) == runs_glyphs(runs) + r.glyphs,
        runs_advances(runs.push(r)) == runs_advances(runs) + r.advances,
{
    assert(runs.push(r).drop_last() =~= runs);
    assert(runs.push(r).last() == r);
}

proof fn lemma_runs_values_concat(x: Seq<RunView>, y: Seq<RunView>)
    ensures
        runs_glyphs(x + y) == runs_glyphs(x) + runs_glyphs(y),
        runs_advances(x + y) == runs_advances(x) + runs_advances(y),
    decreases y.len(),
{
    if y.len() == 0 {
        assert(x + y =~= x);
        assert(runs_glyphs(x) + runs_glyphs(y) =~= runs_glyphs(x));
        assert(runs_advances(x) + runs_advances(y) =~= runs_advances(x));
    } else {
        assert((x + y).drop_last() =~= x + y.drop_last());
        assert((x + y).last() == y.last());
        lemma_runs_values_concat(x, y.drop_last());
        assert((runs_glyphs(x) + runs_glyphs(y.drop_last())) + y.last().glyphs =~= runs_glyphs(x)
            + (runs_glyphs(y.drop_last()) + y.last().glyphs));
        assert((runs_advances(x) + runs_advances(y.drop_last())) + y.last().advances
            =~= runs_advances(x) + (runs_advances(y.drop_last()) + y.last().advances));
    }
}

proof fn lemma_face_accum_splice(
    g: Seq<u32>,
    a: Seq<Scalar>,
    f: Seq<i32>,
    lo: int,
    p: int,
    size: Scalar,
)
    requires
        0 <= lo <= p <= f.len(),
        g.len() == f.len(),
        a.len() == f.len(),
    ensures
        runs_glyphs(accum_flush(face_accum(g, a, f, lo, p, size))) == shaped_values(g, f, lo, p),
        runs_advances(accum_flush(face_accum(g, a, f, lo, p, size))) == shaped_values(
            a,
            f,
            lo,
            p,
        ),
    decreases p - lo,
{
    if p > lo {
        let pm1 = p - 1;
        lemma_face_accum_splice(g, a, f, lo, pm1, size);
        let acc = face_accum(g, a, f, lo, pm1, size);
        let acc2 = face_accum(g, a, f, lo, p, size);
        assert(acc2 == face_step(acc, g[pm1], a[pm1], f[pm1], size));
        if f[pm1] < 0 {
            match acc.cur {
                Some(r) => {
                    lemma_runs_values_push(acc.done, r);
                }
                None => {}
            }
            assert(shaped_values(g, f, lo, p) =~= shaped_values(g, f, lo, pm1));
            assert(shaped_values(a, f, lo, p) =~= shaped_values(a, f, lo, pm1));
        } else {
            match acc.cur {
                Some(r) => {
                    if r.face_index == f[pm1] {
                        let r2 = acc2.cur->Some_0;
                        lemma_runs_values_push(acc.done, r);
                        lemma_runs_values_push(acc2.done, r2);
                        assert(runs_glyphs(acc.done) + r2.glyphs =~= (runs_glyphs(acc.done)
                            + r.glyphs) + seq![g[pm1]]);
                        assert(runs_advances(acc.done) + r2.advances =~= (runs_advances(acc.done)
                            + r.advances) + seq![a[pm1]]);
                    } else {
                        let r2 = acc2.cur->Some_0;
                        lemma_runs_values_push(acc.done, r);
                        lemma_runs_values_push(acc.done.push(r), r2);
                        lemma_runs_values_push(acc2.done, r2);
                        assert(runs_glyphs(acc.done.push(r)) + r2.glyphs =~= (runs_glyphs(acc.done)
                            + r.glyphs) + seq![g[pm1]]);
                        assert(runs_advances(acc.done.push(r)) + r2.advances =~= (runs_advances(
                            acc.done,
                        ) + r.advances) + seq![a[pm1]]);
                    }
                }
                None => {
                    let r2 = acc2.cur->Some_0;
                    lemma_runs_values_push(acc2.done, r2);
                    assert(runs_glyphs(acc2.done) + r2.glyphs =~= runs_glyphs(acc.done) + seq![
                        g[pm1],
                    ]);
                    assert(runs_advances(acc2.done) + r2.advances =~= runs_advances(acc.done)
                        + seq![a[pm1]]);
                }
            }
        }
    }
}

/// Splice faithfulness for one grouped stretch: reading the produced
/// runs in order yields exactly the engine's glyphs and advances at the
/// face-assigned positions of the interval, in position order.
pub proof fn lemma_face_runs_splice(
    g: Seq<u32>,
    a: Seq<Scalar>,
    f: Seq<i32>,
    lo: int,
    hi: int,
    size: Scalar,
)
    requires
        0 <= lo <= hi <= f.len(),
        g.len() == f.len(),
        a.len() == f.len(),
    ensures
        runs_glyphs(face_runs(g, a, f, lo, hi, size)) == shaped_values(g, f, lo, hi),
        runs_advances(face_runs(g, a, f, lo, hi, size)) == shaped_values(a, f, lo, hi),
{
    lemma_face_accum_splice(g, a, f, lo, hi, size);
}

/// The engine's output for the range `[lo, hi)` that a line must carry:
/// the face-assigned positions of every text-node overlap shaped under
/// an inline style, in document order, read out of `vals`.
pub open spec fn line_spliced(
    init: InitialStyle,
    nodes: Seq<NodeView>,
    vals: Seq<u32>,
    f: Seq<i32>,
    lo: int,
    hi: int,
) -> Seq<u32>
    decreases nodes.len(),
{
    if nodes.len() == 0 {
        Seq::empty()
    } else {
        let prefix = nodes.drop_last();
        let prev = line_spliced(init, prefix, vals, f, lo, hi);
        match nodes.last() {
            NodeView::Text(_) => {
                let cu0 = unit_len(all_chars(prefix)) as int;
                let cu1 = unit_len(all_chars(nodes)) as int;
                let nlo = if cu0 > lo {
                    cu0
                } else {
                    lo
                };
                let nhi = if cu1 < hi {
                    cu1
                } else {
                    hi
                };
                if nlo < nhi {
                    match current_style(init, prefix) {
                        EffectiveStyle::Inline { .. } => prev + shaped_values(vals, f, nlo, nhi),
                        EffectiveStyle::Replaced { .. } => prev,
                    }
                } else {
                    prev
                }
            },
            _ => prev,
        }
    }
}

/// Splice faithfulness for a whole line: reading the line's runs in
/// order yields exactly the engine's glyphs and advances for the
/// glyph-producing code units of the requested range, in document
/// order. The assembly loses nothing, invents nothing, and reorders
/// nothing.
pub proof fn lemma_line_splice(
    init: InitialStyle,
    nodes: Seq<NodeView>,
    g: Seq<u32>,
    a: Seq<Scalar>,
    f: Seq<i32>,
    lo: int,
    hi: int,
)
    requires
        0 <= lo,
        hi <= f.len(),
        g.len() == f.len(),
        a.len() == f.len(),
    ensures
        runs_glyphs(line_runs(init, nodes, g, a, f, lo, hi)) == line_spliced(
            init,
            nodes,
            g,
            f,
            lo,
            hi,
        ),
        runs_advances(line_runs(init, nodes, g, a, f, lo, hi)) == line_spliced(
            init,
            nodes,
            a,
            f,
            lo,
            hi,
        ),
    decreases nodes.len(),
{
    if nodes.len() > 0 {
        let prefix = nodes.drop_last();
        lemma_line_splice(init, prefix, g, a, f, lo, hi);
        let prev = line_runs(init, prefix, g, a, f, lo, hi);
        match nodes.last() {
            NodeView::Text(_) => {
                let cu0 = unit_len(all_chars(prefix)) as int;
                let cu1 = unit_len(all_chars(nodes)) as int;
                let nlo = if cu0 > lo {
                    cu0
                } else {
                    lo
                };
                let nhi = if cu1 < hi {
                    cu1
                } else {
                    hi
                };
                if nlo < nhi {
                    match current_style(init, prefix) {
                        EffectiveStyle::Inline { font_size, .. } => {
                            lemma_face_runs_splice(g, a, f, nlo, nhi, font_size);
                            lemma_runs_values_concat(
                                prev,
                                face_runs(g, a, f, nlo, nhi, font_size),
                            );
                        }
                        EffectiveStyle::Replaced { .. } => {}
                    }
                }
            }
            _ => {}
        }
    }
}

/// The typesetter: owns one immutable styled text, the wrap width the
/// text is to be broken at, and — once the external engine has answered —
/// the memoized [`ShapeResult`]. The `Fresh` to `Typeset` transition
/// happens exactly once, in [`Self::commit_shaping`], and is never
/// reverted.
pub struct Typesetter<T: StyledText> {
    text: T,
    width: Scalar,
    typeset: Option<(OffsetTranslator, ShapeResult)>,
}

impl<T: StyledText> Typesetter<T> {
    /// The document's node sequence.
    pub closed spec fn nodes(&self) -> Seq<NodeView> {
        self.text.node_seq()
    }

    /// The document's initial style.
    pub closed spec fn init(&self) -> InitialStyle {
        self.text.initial()
    }

    /// The wrap width this typesetter was created with.
    pub closed spec fn width_spec(&self) -> Scalar {
        self.width
    }

    /// The text source this typesetter owns.
    pub closed spec fn text_spec(&self) -> T {
        self.text
    }

    /// Whether the shaping answer has been committed.
    pub closed spec fn is_typeset(&self) -> bool {
        self.typeset is Some
    }

    /// The committed shaping answer.
    pub closed spec fn shape(&self) -> ShapeResult {
        match self.typeset {
            Some((_, s)) => s,
            None => arbitrary(),
        }
    }

    /// Internal consistency: the text source is well formed, and a
    /// committed answer addresses exactly the document's code units.
    pub closed spec fn wf(&self) -> bool {
        &&& self.text.wf()
        &&& match self.typeset {
            Some((tr, s)) => {
                &&& tr@ == all_chars(self.text.node_seq())
                &&& tr.wf()
                &&& s.consistent_with(unit_len(all_chars(self.text.node_seq())))
            },
            None => true,
        }
    }

    /// A fresh typesetter over `text`, to be broken at `width`.
    pub fn new(text: T, width: Scalar) -> (t: Typesetter<T>)
        requires
            text.wf(),
        ensures
            t.wf(),
            t.nodes() == text.node_seq(),
            t.init() == text.initial(),
            t.width_spec() == width,
            t.text_spec() == text,
            !t.is_typeset(),
    {
        Typesetter { text, width, typeset: None }
    }

    /// The text this typesetter owns.
    pub fn text(&self) -> (r: &T)
        ensures
            *r == self.text_spec(),
    {
        &self.text
    }

    /// The text, mutably — only while the typesetter is still fresh:
    /// once the shaping answer is committed the text is immutable for
    /// this typesetter's lifetime.
    pub fn text_mut(&mut self) -> (r: &mut T)
        requires
            !old(self).is_typeset(),
        ensures
            *r == old(self).text_spec(),
            final(self).text_spec() == *final(r),
            final(self).width_spec() == old(self).width_spec(),
            !final(self).is_typeset(),
            (*final(r)).wf() ==> final(self).wf(),
    {
        &mut self.text
    }

    /// Whether the shaping answer has been committed yet.
    pub fn typeset_done(&self) -> (r: bool)
        ensures
            r == self.is_typeset(),
    {
        match &self.typeset {
            Some(_) => true,
            None => false,
        }
    }

    /// The request to put to the external shaping engine: the document's
    /// UTF-16 buffer, its style runs, and the wrap width.
    pub fn shaping_request(&self) -> (req: ShapeRequest)
        requires
            balanced(self.nodes()),
        ensures
            req.buffer@ == utf16_encode(all_chars(self.nodes())),
            req.runs@.map_values(|r: crate::shaping::StyleRun| r@) == crate::shaping::style_runs_of(
                self.init(),
                self.nodes(),
            ),
            req.wrap_width == self.width_spec(),
    {
        build_request(&self.text, self.width)
    }

    /// Commits the engine's answer: the one-way transition from `Fresh`
    /// to `Typeset`. Succeeds exactly when the answer addresses one
    /// entry per code unit of the document; a malformed answer is
    /// refused and the typesetter stays fresh.
    pub fn commit_shaping(&mut self, result: ShapeResult) -> (ok: bool)
        requires
            old(self).wf(),
            !old(self).is_typeset(),
        ensures
            final(self).wf(),
            final(self).nodes() == old(self).nodes(),
            final(self).init() == old(self).init(),
            final(self).width_spec() == old(self).width_spec(),
            ok == result.consistent_with(unit_len(all_chars(old(self).nodes()))),
            ok ==> final(self).is_typeset() && final(self).shape() == result,
            !ok ==> !final(self).is_typeset(),
    {
        let byte_total = self.text.byte_length();
        let chars = collect_chars(&self.text);
        let translator = OffsetTranslator::from_chars(chars);
        let cu_len = translator.code_unit_length();
        proof {
            lemma_unit_len_le_byte_len(all_chars(self.text.node_seq()));
        }
        if result.check_consistent(cu_len) {
            self.typeset = Some((translator, result));
            true
        } else {
            false
        }
    }

    /// Whether `b` is a character boundary of the document's text — the
    /// only byte offsets `create_line` accepts. A caller holding an
    /// arbitrary offset checks it here and treats a misaligned one as
    /// its own contract violation.
    pub fn is_char_boundary(&self, b: usize) -> (r: bool)
        requires
            self.wf(),
            self.is_typeset(),
        ensures
            r == is_byte_boundary(all_chars(self.nodes()), b as int),
    {
        match &self.typeset {
            Some(p) => p.0.is_boundary(b),
            None => unreached(),
        }
    }

    /// The engine's suggested line-break offsets, in code units.
    pub fn line_breaks(&self) -> (b: &Vec<i32>)
        requires
            self.wf(),
            self.is_typeset(),
        ensures
            b@ == self.shape().breaks@,
    {
        match &self.typeset {
            Some(p) => &p.1.breaks,
            None => unreached(),
        }
    }

    /// Assembles the line covering `byte_range`: translates the range to
    /// code units, clips every text node's overlap against it, and groups
    /// the engine's per-code-unit output into runs of constant face.
    ///
    /// The line reports the tightest byte extent consistent with what was
    /// assembled. A requested range must lie on character boundaries
    /// within the document, so that extent always coincides with the
    /// request itself — including an empty range, which yields a line
    /// with no runs whose extent is the empty range at the requested
    /// position.
    pub fn create_line(&self, byte_range: core::ops::Range<usize>) -> (line: Line)
        requires
            self.wf(),
            self.is_typeset(),
            balanced(self.nodes()),
            byte_range.start <= byte_range.end,
            byte_range.end as int <= byte_len(all_chars(self.nodes())),
            is_byte_boundary(all_chars(self.nodes()), byte_range.start as int),
            is_byte_boundary(all_chars(self.nodes()), byte_range.end as int),
        ensures
            line@.start == byte_range.start as int,
            line@.end == byte_range.end as int,
            line@.runs == line_runs(
                self.init(),
                self.nodes(),
                self.shape().glyphs@,
                self.shape().advances@,
                self.shape().face_indices@,
                byte_to_unit(all_chars(self.nodes()), byte_range.start as int) as int,
                byte_to_unit(all_chars(self.nodes()), byte_range.end as int) as int,
            ),
    {
        let ghost nodes = self.nodes();
        let ghost init = self.init();
        let ghost s = all_chars(nodes);
        let (translator, shape): (&OffsetTranslator, &ShapeResult) = match &self.typeset {
            Some(p) => (&p.0, &p.1),
            None => unreached(),
        };
        let ghost g = shape.glyphs@;
        let ghost a = shape.advances@;
        let ghost f = shape.face_indices@;
        proof {
            assert(translator@ == s);
            assert(translator.wf());
            lemma_unit_len_le_byte_len(s);
            assert(unit_len(s) <= usize::MAX);
        }
        let cu_start = translator.byte_to_code_unit(byte_range.start);
        let cu_end = translator.byte_to_code_unit(byte_range.end);
        proof {
            let j = choose|j: int|
                0 <= j <= s.len() && crate::offsets::unit_of_char_index(s, j) == cu_end as int;
            crate::offsets::lemma_offset_monotone(s, j, s.len() as int);
            crate::offsets::lemma_offset_at_end(s);
            assert(cu_end as int <= unit_len(s));
        }
        let init_style = self.text.initial_style();
        let mut resolver = StyleResolver::new(&init_style);
        let mut runs: Vec<Run> = Vec::new();
        let mut cu: usize = 0;
        let n = self.text.node_count();
        let mut i: usize = 0;
        proof {
            assert(nodes.take(0) =~= Seq::<NodeView>::empty());
            assert(all_chars(nodes.take(0)) =~= Seq::<char>::empty());
            assert(runs@.map_values(|r: Run| r@) =~= line_runs(
                init,
                nodes.take(0),
                g,
                a,
                f,
                cu_start as int,
                cu_end as int,
            ));
        }
        while i < n
            invariant
                0 <= i <= n,
                n == nodes.len(),
                nodes == self.nodes(),
                init == self.init(),
                s == all_chars(nodes),
                g == self.shape().glyphs@,
                a == self.shape().advances@,
                f == self.shape().face_indices@,
                shape.glyphs@ == g,
                shape.advances@ == a,
                shape.face_indices@ == f,
                g.len() == unit_len(s),
                a.len() == g.len(),
                f.len() == g.len(),
                unit_len(s) <= usize::MAX,
                cu_end as int <= unit_len(s),
                balanced(nodes),
                self.wf(),
                self.is_typeset(),
                resolver@ == style_stack(init, nodes.take(i as int)),
                cu == unit_len(all_chars(nodes.take(i as int))),
                runs@.map_values(|r: Run| r@) == line_runs(
                    init,
                    nodes.take(i as int),
                    g,
                    a,
                    f,
                    cu_start as int,
                    cu_end as int,
                ),
            decreases n - i,
        {
            proof {
                crate::style::lemma_well_nested_take(nodes, i as int);
                crate::style::lemma_style_stack_cascade(init, nodes.take(i as int));
                crate::style::lemma_well_nested_take(nodes, i as int + 1);
                crate::style::lemma_style_stack_cascade(init, nodes.take(i as int + 1));
                crate::style::lemma_style_stack_step(init, nodes, i as int);
                lemma_all_chars_step(nodes, i as int);
                crate::offsets::lemma_unit_len_concat(
                    all_chars(nodes.take(i as int)),
                    node_chars(nodes[i as int]),
                );
                lemma_unit_prefix_mono(nodes, i as int + 1, nodes.len() as int);
                assert(nodes.take(nodes.len() as int) =~= nodes);
                if nodes[i as int] is End {
                    assert(depth_after(nodes.take(i as int + 1)) >= 0);
                    lemma_depth_step(nodes, i as int);
                }
            }
            let ghost prefix = nodes.take(i as int);
            let node = self.text.get(i);
            match node {
                StyledTextNodeBuf::Text(text_content) => {
                    let ghost content = text_content@;
                    proof {
                        assert(nodes[i as int] == NodeView::Text(content));
                        assert(node_chars(nodes[i as int]) == content);
                    }
                    // measure this node's code units
                    let m = text_content.as_str().unicode_len();
                    let mut j: usize = 0;
                    let mut node_units: usize = 0;
                    proof {
                        assert(content.take(0) =~= Seq::<char>::empty());
                        crate::offsets::lemma_offset_at_end(content);
                    }
                    while j < m
                        invariant
                            0 <= j <= m,
                            m == content.len(),
                            content == text_content@,
                            node_units == unit_len(content.take(j as int)),
                            cu + unit_len(content) <= usize::MAX,
                        decreases m - j,
                    {
                        proof {
                            crate::offsets::lemma_offset_step(content, j as int);
                            crate::offsets::lemma_offset_monotone(
                                content,
                                j as int + 1,
                                content.len() as int,
                            );
                            crate::offsets::lemma_offset_at_end(content);
                        }
                        let c = text_content.as_str().get_char(j);
                        node_units = node_units + crate::offsets::char_unit_width(c);
                        j = j + 1;
                    }
                    proof {
                        assert(content.take(m as int) =~= content);
                    }
                    // the node's overlap with the requested range
                    let node_end = cu + node_units;
                    proof {
                        assert(node_end == unit_len(all_chars(nodes.take(i as int + 1))));
                        assert(node_end <= unit_len(s));
                    }
                    let nlo = if cu > cu_start {
                        cu
                    } else {
                        cu_start
                    };
                    let nhi = if node_end < cu_end {
                        node_end
                    } else {
                        cu_end
                    };
                    let ghost prev_runs = runs@.map_values(|r: Run| r@);
                    if nlo < nhi {
                        let style = resolver.current();
                        proof {
                            assert(style == current_style(init, prefix));
                        }
                        match style {
                            EffectiveStyle::Inline { font_size, .. } => {
                                emit_face_runs(&mut runs, shape, nlo, nhi, font_size);
                            }
                            EffectiveStyle::Replaced { .. } => {}
                        }
                    }
                    cu = node_end;
                    proof {
                        let ext = nodes.take(i as int + 1);
                        assert(ext.drop_last() =~= prefix);
                        assert(ext.last() == nodes[i as int]);
                        assert(unit_len(all_chars(ext)) == cu);
                        assert(runs@.map_values(|r: Run| r@) =~= line_runs(
                            init,
                            ext,
                            g,
                            a,
                            f,
                            cu_start as int,
                            cu_end as int,
                        ));
                    }
                }
                StyledTextNodeBuf::Start(_) | StyledTextNodeBuf::End => {
                    resolver.advance(node);
                    proof {
                        let ext = nodes.take(i as int + 1);
                        assert(ext.drop_last() =~= prefix);
                        assert(ext.last() == nodes[i as int]);
                        assert(all_chars(ext) =~= all_chars(prefix));
                        assert(runs@.map_values(|r: Run| r@) =~= line_runs(
                            init,
                            ext,
                            g,
                            a,
                            f,
                            cu_start as int,
                            cu_end as int,
                        ));
                    }
                }
            }
            i = i + 1;
        }
        proof {
            assert(nodes.take(n as int) =~= nodes);
        }
        Line::from_runs_and_range(runs, byte_range.start, byte_range.end)
    }

    /// Assembles the single line covering the whole document.
    pub fn create_single_line(&self) -> (line: Line)
        requires
            self.wf(),
            self.is_typeset(),
            balanced(self.nodes()),
        ensures
            line@.start == 0,
            line@.end == byte_len(all_chars(self.nodes())),
            line@.runs == line_runs(
                self.init(),
                self.nodes(),
                self.shape().glyphs@,
                self.shape().advances@,
                self.shape().face_indices@,
                0,
                byte_to_unit(
                    all_chars(self.nodes()),
                    byte_len(all_chars(self.nodes())) as int,
                ) as int,
            ),
    {
        let ghost s = all_chars(self.nodes());
        let end = self.text.byte_length();
        proof {
            assert(crate::offsets::byte_of_char_index(s, 0) == 0) by {
                assert(s.take(0) =~= Seq::<char>::empty());
            }
            assert(is_byte_boundary(s, 0));
            crate::offsets::lemma_offset_at_end(s);
            assert(is_byte_boundary(s, byte_len(s) as int));
            assert(byte_to_unit(s, 0) == 0);
        }
        self.create_line(0..end)
    }
}

} // verus!
