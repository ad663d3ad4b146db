use vstd::prelude::*;
use crate::elements::PathElementLabel;
use crate::lexer::Span;
use crate::syntax::{laid_out, parse_segments, parsed, segments_within, spans_within, Segment};

verus! {

/// One sub-path of a parse: the segments `first..end`. A sub-path that is
/// `seeded` did not begin with a move and starts from the cursor as it
/// stood; one that is `closed` was ended by the close command at `end`.
#[derive(Debug, Copy, Clone, PartialEq, Eq, Structural)]
pub struct SubPath {
    pub closed: bool,
    pub seeded: bool,
    pub first: usize,
    pub end: usize,
}

/// The sub-path that `active` describes, ended at `end`.
pub open spec fn finished(active: (bool, usize), end: int, closed: bool) -> SubPath {
    SubPath { closed, seeded: active.0, first: active.1, end: end as usize }
}

/// The sub-paths of `segs` from `i` on, appended to `acc`, where `active` is
/// the open sub-path (whether it is seeded, and its first segment). A move
/// ends the open sub-path and opens a new one; a close ends the open one as
/// closed, and does nothing where none is open; any other command opens a
/// seeded sub-path where none is open. The end of the segments ends the open one.
pub open spec fn group_from(
    segs: Seq<Segment>,
    i: int,
    active: Option<(bool, usize)>,
    acc: Seq<SubPath>,
) -> Seq<SubPath>
    decreases segs.len() - i,
{
    if i >= segs.len() {
        match active {
            Some(a) => acc.push(finished(a, segs.len() as int, false)),
            None => acc,
        }
    } else {
        let label = segs[i].command.label;
        if label == PathElementLabel::Move {
            let acc2 = match active {
                Some(a) => acc.push(finished(a, i, false)),
                None => acc,
            };
            group_from(segs, i + 1, Some((false, i as usize)), acc2)
        } else if label == PathElementLabel::End {
            match active {
                Some(a) => group_from(segs, i + 1, None, acc.push(finished(a, i, true))),
                None => group_from(segs, i + 1, None, acc),
            }
        } else {
            match active {
                Some(_) => group_from(segs, i + 1, active, acc),
                None => group_from(segs, i + 1, Some((true, i as usize)), acc),
            }
        }
    }
}

/// The sub-paths of a whole list of segments.
pub open spec fn grouped(segs: Seq<Segment>) -> Seq<SubPath> {
    group_from(segs, 0, None, seq![])
}

/// Groups parsed segments into sub-paths, in the order in which they begin.
pub fn group_subpaths(segs: &Vec<Segment>) -> (r: Vec<SubPath>)
    ensures
        r@ == grouped(segs@),
{
    let mut out: Vec<SubPath> = Vec::new();
    let mut active: Option<(bool, usize)> = None;
    let mut i: usize = 0;
    while i < segs.len()
        invariant
            i <= segs.len(),
            grouped(segs@) == group_from(segs@, i as int, active, out@),
        decreases segs.len() - i,
    {
        match segs[i].command.label() {
            PathElementLabel::Move => {
                if let Some((seeded, first)) = active {
                    out.push(SubPath { closed: false, seeded, first, end: i });
                }
                active = Some((false, i));
            },
            PathElementLabel::End => {
                if let Some((seeded, first)) = active {
                    out.push(SubPath { closed: true, seeded, first, end: i });
                }
                active = None;
            },
            _ => {
                if active.is_none() {
                    active = Some((true, i));
                }
            },
        }
        i = i + 1;
    }
    if let Some((seeded, first)) = active {
        out.push(SubPath { closed: false, seeded, first, end: i });
    }
    out
}

pub open spec fn label_at(segs: Seq<Segment>, j: int) -> PathElementLabel {
    segs[j].command.label
}

/// What holds of each sub-path `sub` of `segs` that ends at or before `bound`.
pub open spec fn subpath_holds(segs: Seq<Segment>, sub: SubPath, bound: int) -> bool {
    &&& sub.first < sub.end <= bound
    &&& sub.seeded == (label_at(segs, sub.first as int) != PathElementLabel::Move)
    &&& label_at(segs, sub.first as int) != PathElementLabel::End
    &&& sub.closed == (sub.end < segs.len() && label_at(segs, sub.end as int)
        == PathElementLabel::End)
    &&& forall|j: int|
        sub.first < j < sub.end ==> label_at(segs, j) != PathElementLabel::Move && #[trigger] label_at(
            segs,
            j,
        ) != PathElementLabel::End
}

/// The sub-paths `subs` of `segs`, ending at or before `bound`, each hold
/// what a sub-path does, and follow one another without overlap.
pub open spec fn subpaths_hold(segs: Seq<Segment>, subs: Seq<SubPath>, bound: int) -> bool {
    &&& forall|k: int| 0 <= k < subs.len() ==> subpath_holds(segs, #[trigger] subs[k], bound)
    &&& forall|k: int| 0 <= k < subs.len() - 1 ==> #[trigger] subs[k].end <= subs[k + 1].first
}

/// Every move before `i` begins one of `subs`, or the open sub-path `active`.
pub open spec fn moves_begin(
    segs: Seq<Segment>,
    i: int,
    active: Option<(bool, usize)>,
    subs: Seq<SubPath>,
) -> bool {
    forall|j: int|
        0 <= j < i && #[trigger] label_at(segs, j) == PathElementLabel::Move ==> (exists|k: int|
            0 <= k < subs.len() && #[trigger] subs[k].first == j) || active == Some((false, j as usize))
}

/// The state of grouping before segment `i`.
pub open spec fn group_state(
    segs: Seq<Segment>,
    i: int,
    active: Option<(bool, usize)>,
    acc: Seq<SubPath>,
) -> bool {
    &&& 0 <= i <= segs.len() <= usize::MAX
    &&& subpaths_hold(segs, acc, i)
    &&& moves_begin(segs, i, active, acc)
    &&& active matches Some(a) ==> {
        &&& a.1 < i
        &&& a.0 == (label_at(segs, a.1 as int) != PathElementLabel::Move)
        &&& label_at(segs, a.1 as int) != PathElementLabel::End
        &&& forall|j: int|
            a.1 < j < i ==> label_at(segs, j) != PathElementLabel::Move && #[trigger] label_at(
                segs,
                j,
            ) != PathElementLabel::End
        &&& acc.len() > 0 ==> acc.last().end <= a.1
    }
}

proof fn lemma_push_holds(segs: Seq<Segment>, acc: Seq<SubPath>, sub: SubPath, bound: int)
    requires
        subpaths_hold(segs, acc, bound),
        subpath_holds(segs, sub, bound),
        acc.len() > 0 ==> acc.last().end <= sub.first,
    ensures
        subpaths_hold(segs, acc.push(sub), bound),
{
    let r = acc.push(sub);
    assert forall|k: int| 0 <= k < r.len() implies subpath_holds(segs, #[trigger] r[k], bound) by {
        if k < acc.len() {
            assert(r[k] == acc[k]);
        }
    }
    assert forall|k: int| 0 <= k < r.len() - 1 implies #[trigger] r[k].end <= r[k + 1].first by {
        assert(r[k] == acc[k]);
        if k + 1 < acc.len() {
            assert(r[k + 1] == acc[k + 1]);
            assert(acc[k].end <= acc[k + 1].first);
        }
    }
}

proof fn lemma_holds_wider(segs: Seq<Segment>, acc: Seq<SubPath>, bound: int, wider: int)
    requires
        subpaths_hold(segs, acc, bound),
        bound <= wider,
    ensures
        subpaths_hold(segs, acc, wider),
{
    assert forall|k: int| 0 <= k < acc.len() implies subpath_holds(segs, #[trigger] acc[k], wider) by {
        assert(subpath_holds(segs, acc[k], bound));
    }
}

proof fn lemma_group_from(
    segs: Seq<Segment>,
    i: int,
    active: Option<(bool, usize)>,
    acc: Seq<SubPath>,
)
    requires
        group_state(segs, i, active, acc),
    ensures
        subpaths_hold(segs, group_from(segs, i, active, acc), segs.len() as int),
        moves_begin(segs, segs.len() as int, None, group_from(segs, i, active, acc)),
    decreases segs.len() - i,
{
    let n = segs.len() as int;
    if i >= n {
        lemma_holds_wider(segs, acc, i, n);
        match active {
            Some(a) => {
                let sub = finished(a, n, false);
                lemma_push_holds(segs, acc, sub, n);
                let r = acc.push(sub);
                assert forall|j: int|
                    0 <= j < n && #[trigger] label_at(segs, j) == PathElementLabel::Move implies (exists|
                    k: int,
                | 0 <= k < r.len() && #[trigger] r[k].first == j) by {
                    if active == Some((false, j as usize)) {
                        assert(r[acc.len() as int].first == j);
                    } else {
                        let k = choose|k: int| 0 <= k < acc.len() && #[trigger] acc[k].first == j;
                        assert(r[k] == acc[k]);
                    }
                }
            },
            None => {},
        }
    } else {
        let label = label_at(segs, i);
        if label == PathElementLabel::Move {
            let acc2 = match active {
                Some(a) => acc.push(finished(a, i, false)),
                None => acc,
            };
            lemma_holds_wider(segs, acc, i, i + 1);
            if let Some(a) = active {
                lemma_push_holds(segs, acc, finished(a, i, false), i + 1);
            }
            let act2 = Some((false, i as usize));
            assert forall|j: int|
                0 <= j < i + 1 && #[trigger] label_at(segs, j) == PathElementLabel::Move implies (exists|
                k: int,
            | 0 <= k < acc2.len() && #[trigger] acc2[k].first == j) || act2 == Some(
                (false, j as usize),
            ) by {
                if j < i {
                    if active == Some((false, j as usize)) {
                        assert(acc2[acc.len() as int].first == j);
                    } else {
                        let k = choose|k: int| 0 <= k < acc.len() && #[trigger] acc[k].first == j;
                        assert(acc2[k] == acc[k]);
                    }
                }
            }
            lemma_group_from(segs, i + 1, act2, acc2);
        } else if label == PathElementLabel::End {
            lemma_holds_wider(segs, acc, i, i + 1);
            match active {
                Some(a) => {
                    let acc2 = acc.push(finished(a, i, true));
                    lemma_push_holds(segs, acc, finished(a, i, true), i + 1);
                    assert forall|j: int|
                        0 <= j < i + 1 && #[trigger] label_at(segs, j) == PathElementLabel::Move implies (exists|
                        k: int,
                    | 0 <= k < acc2.len() && #[trigger] acc2[k].first == j) by {
                        if active == Some((false, j as usize)) {
                            assert(acc2[acc.len() as int].first == j);
                        } else {
                            let k = choose|k: int| 0 <= k < acc.len() && #[trigger] acc[k].first == j;
                            assert(acc2[k] == acc[k]);
                        }
                    }
                    lemma_group_from(segs, i + 1, None, acc2);
                },
                None => {
                    lemma_group_from(segs, i + 1, None, acc);
                },
            }
        } else {
            lemma_holds_wider(segs, acc, i, i + 1);
            match active {
                Some(_) => {
                    lemma_group_from(segs, i + 1, active, acc);
                },
                None => {
                    lemma_group_from(segs, i + 1, Some((true, i as usize)), acc);
                },
            }
        }
    }
}

/// Every sub-path of a grouping is a non-empty run of segments, and the
/// sub-paths follow one another without overlap. A sub-path begins with a
/// move exactly when it is not seeded; it is closed exactly when a close
/// command ends it; no move and no close stands inside it. Every move
/// begins a sub-path of its own.
pub proof fn lemma_grouped(segs: Seq<Segment>)
    requires
        segs.len() <= usize::MAX,
    ensures
        subpaths_hold(segs, grouped(segs), segs.len() as int),
        forall|j: int|
            0 <= j < segs.len() && #[trigger] label_at(segs, j) == PathElementLabel::Move ==> exists|
                k: int,
            |
                0 <= k < grouped(segs).len() && #[trigger] grouped(segs)[k].first == j
                    && !grouped(segs)[k].seeded,
{
    lemma_group_from(segs, 0, None, seq![]);
    let r = grouped(segs);
    assert forall|j: int|
        0 <= j < segs.len() && #[trigger] label_at(segs, j) == PathElementLabel::Move implies exists|
        k: int,
    | 0 <= k < r.len() && #[trigger] r[k].first == j && !r[k].seeded by {
        let k = choose|k: int| 0 <= k < r.len() && #[trigger] r[k].first == j;
        assert(subpath_holds(segs, r[k], segs.len() as int));
    }
}

/// A parsed path text: the spans of its numbers, its commands, and its sub-paths.
pub struct PathOutline {
    pub numbers: Vec<Span>,
    pub segments: Vec<Segment>,
    pub subpaths: Vec<SubPath>,
}

/// Parses a path text and groups its commands into sub-paths.
pub fn parse_outline(s: &Vec<char>) -> (r: PathOutline)
    ensures
        (r.numbers@, r.segments@) == parsed(s@),
        r.subpaths@ == grouped(r.segments@),
        spans_within(r.numbers@, s@.len()),
        segments_within(r.segments@, r.numbers@.len()),
        laid_out(r.numbers@, r.segments@),
        subpaths_hold(r.segments@, r.subpaths@, r.segments@.len() as int),
{
    let (numbers, segments) = parse_segments(s);
    let subpaths = group_subpaths(&segments);
    // The length of a vector fits in a usize, as the lemma asks.
    let count = segments.len();
    proof {
        lemma_grouped(segments@);
    }
    PathOutline { numbers, segments, subpaths }
}

} // verus!
