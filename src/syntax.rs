use vstd::prelude::*;
use crate::elements::{command_of, PathElementCommand, PathElementLabel};
use crate::lexer::{
    flag_of, flag_value, lemma_number_at_bounds, lemma_skip_end_bounds, number_at, scan_number,
    skip_end, skip_separators, Span,
};
use crate::utils::{is_number_part, number_part};

verus! {

/// One parsed command: its operands are `numbers[first..first + count]` of
/// the parse, where `count` is the operand count of its label.
#[derive(Debug, Copy, Clone, PartialEq, Eq, Structural)]
pub struct Segment {
    pub command: PathElementCommand,
    pub first: usize,
    pub count: usize,
    /// The large-arc flag of an arc; `false` for every other command.
    pub large: bool,
    /// The sweep flag of an arc; `false` for every other command.
    pub sweep: bool,
    /// For a smooth curve: whether the command before it was a curve of the
    /// same degree, whose last control point is then reflected through the
    /// cursor. `false` for every other command.
    pub reflect: bool,
}

/// How many numbers a command of this label takes.
pub open spec fn arity(label: PathElementLabel) -> nat {
    match label {
        PathElementLabel::Move => 2,
        PathElementLabel::Line => 2,
        PathElementLabel::Horizontal => 1,
        PathElementLabel::Vertical => 1,
        PathElementLabel::CubicBezier => 6,
        PathElementLabel::SmoothCubicBezier => 4,
        PathElementLabel::QuadraticBezier => 4,
        PathElementLabel::SmoothQuadraticBezier => 2,
        PathElementLabel::Arc => 7,
        PathElementLabel::End => 0,
    }
}

pub fn operand_count(label: PathElementLabel) -> (r: usize)
    ensures
        r == arity(label),
{
    match label {
        PathElementLabel::Move => 2,
        PathElementLabel::Line => 2,
        PathElementLabel::Horizontal => 1,
        PathElementLabel::Vertical => 1,
        PathElementLabel::CubicBezier => 6,
        PathElementLabel::SmoothCubicBezier => 4,
        PathElementLabel::QuadraticBezier => 4,
        PathElementLabel::SmoothQuadraticBezier => 2,
        PathElementLabel::Arc => 7,
        PathElementLabel::End => 0,
    }
}

/// Whether a smooth command of label `label` that follows a command of label
/// `previous` reflects that command's last control point.
pub open spec fn reflects(previous: Option<PathElementLabel>, label: PathElementLabel) -> bool {
    match previous {
        Some(p) => (label == PathElementLabel::SmoothCubicBezier && (p
            == PathElementLabel::CubicBezier || p == PathElementLabel::SmoothCubicBezier)) || (
        label == PathElementLabel::SmoothQuadraticBezier && (p == PathElementLabel::QuadraticBezier
            || p == PathElementLabel::SmoothQuadraticBezier)),
        None => false,
    }
}

pub fn smooth_reflects(previous: Option<PathElementLabel>, label: PathElementLabel) -> (r: bool)
    ensures
        r == reflects(previous, label),
{
    match previous {
        Some(p) => match label {
            PathElementLabel::SmoothCubicBezier => match p {
                PathElementLabel::CubicBezier | PathElementLabel::SmoothCubicBezier => true,
                _ => false,
            },
            PathElementLabel::SmoothQuadraticBezier => match p {
                PathElementLabel::QuadraticBezier | PathElementLabel::SmoothQuadraticBezier => true,
                _ => false,
            },
            _ => false,
        },
        None => false,
    }
}

/// The command that stands at `pos`, after any separators, and the position
/// after its letter. A number there repeats the `current` command (a move as
/// a line); a number after a close, or before any command, is malformed, as
/// is a letter that names no command, or the end of the text.
pub open spec fn next_command(s: Seq<char>, pos: int, current: Option<PathElementCommand>) -> Option<
    (PathElementCommand, int),
> {
    let p = skip_end(s, pos);
    if p >= s.len() {
        None
    } else if number_part(s[p]) {
        match current {
            Some(c) => if c.label == PathElementLabel::End {
                None
            } else {
                Some((c.repeated(), p))
            },
            None => None,
        }
    } else {
        match command_of(s[p]) {
            Some(c) => Some((c, p + 1)),
            None => None,
        }
    }
}

/// Reads `k` numbers from `pos` on, appending them to `acc`; none where one
/// of them is missing.
pub open spec fn read_numbers(s: Seq<char>, pos: int, k: nat, acc: Seq<Span>) -> Option<
    (Seq<Span>, int),
>
    decreases k,
{
    if k == 0 {
        Some((acc, pos))
    } else {
        match number_at(s, pos) {
            Some(sp) => read_numbers(s, sp.end as int, (k - 1) as nat, acc.push(sp)),
            None => None,
        }
    }
}

/// The segments of the text from `pos` on, appended to `segs`, with their
/// operands appended to `nums`. Parsing stops at the end of the text and at
/// the first malformed command, which is dropped with all that follows it.
pub open spec fn parse_from(
    s: Seq<char>,
    pos: int,
    current: Option<PathElementCommand>,
    nums: Seq<Span>,
    segs: Seq<Segment>,
) -> (Seq<Span>, Seq<Segment>)
    decreases s.len() - pos,
{
    match next_command(s, pos, current) {
        None => (nums, segs),
        Some((c, p)) => match read_numbers(s, p, arity(c.label), nums) {
            None => (nums, segs),
            Some((nums2, q)) => {
                let large = if c.label == PathElementLabel::Arc {
                    flag_of(s, nums2[nums.len() + 3int])
                } else {
                    Some(false)
                };
                let sweep = if c.label == PathElementLabel::Arc {
                    flag_of(s, nums2[nums.len() + 4int])
                } else {
                    Some(false)
                };
                if large is None || sweep is None || !(pos < q <= s.len()) {
                    (nums, segs)
                } else {
                    let previous = if segs.len() > 0 {
                        Some(segs.last().command.label)
                    } else {
                        None
                    };
                    let seg = Segment {
                        command: c,
                        first: nums.len() as usize,
                        count: arity(c.label) as usize,
                        large: large->Some_0,
                        sweep: sweep->Some_0,
                        reflect: reflects(previous, c.label),
                    };
                    parse_from(s, q, Some(c), nums2, segs.push(seg))
                }
            },
        },
    }
}

/// The numbers and the segments of a whole path text.
pub open spec fn parsed(s: Seq<char>) -> (Seq<Span>, Seq<Segment>) {
    parse_from(s, 0, None, seq![], seq![])
}

pub proof fn lemma_read_numbers(s: Seq<char>, pos: int, k: nat, acc: Seq<Span>)
    requires
        0 <= pos <= s.len() <= usize::MAX,
    ensures
        read_numbers(s, pos, k, acc) matches Some((nums, q)) ==> {
            &&& pos <= q <= s.len()
            &&& k > 0 ==> pos < q
            &&& nums.len() == acc.len() + k
            &&& k <= q - pos
            &&& nums.subrange(0, acc.len() as int) == acc
            &&& forall|i: int|
                acc.len() <= i < nums.len() ==> #[trigger] nums[i].start < nums[i].end <= q
        },
    decreases k,
{
    if k > 0 {
        lemma_number_at_bounds(s, pos);
        if let Some(sp) = number_at(s, pos) {
            let acc2 = acc.push(sp);
            lemma_read_numbers(s, sp.end as int, (k - 1) as nat, acc2);
            if let Some((nums, q)) = read_numbers(s, pos, k, acc) {
                assert(nums.subrange(0, acc.len() as int) =~= nums.subrange(
                    0,
                    acc2.len() as int,
                ).subrange(0, acc.len() as int));
                assert(acc2.subrange(0, acc.len() as int) =~= acc);
                assert(nums[acc.len() as int] == acc2[acc.len() as int]);
            }
        }
    }
}

/// The label of the segment before `j`, if there is one.
pub open spec fn previous_label(segs: Seq<Segment>, j: int) -> Option<PathElementLabel> {
    if j > 0 {
        Some(segs[j - 1].command.label)
    } else {
        None
    }
}

/// The segments `segs` take the numbers `nums` in order, each its own run
/// right after the run of the segment before; and each smooth curve reflects
/// exactly where the segment right before it is a curve of its degree.
pub open spec fn laid_out(nums: Seq<Span>, segs: Seq<Segment>) -> bool {
    &&& forall|j: int|
        0 <= j < segs.len() ==> #[trigger] segs[j].reflect == reflects(
            previous_label(segs, j),
            segs[j].command.label,
        )
    &&& forall|j: int|
        0 <= j < segs.len() - 1 ==> #[trigger] segs[j + 1].first == segs[j].first + segs[j].count
    &&& segs.len() == 0 ==> nums.len() == 0
    &&& segs.len() > 0 ==> segs[0].first == 0 && segs.last().first + segs.last().count
        == nums.len()
}

proof fn lemma_parse_from(
    s: Seq<char>,
    pos: int,
    current: Option<PathElementCommand>,
    nums: Seq<Span>,
    segs: Seq<Segment>,
)
    requires
        0 <= pos <= s.len() <= usize::MAX,
        nums.len() <= pos,
        laid_out(nums, segs),
    ensures
        laid_out(parse_from(s, pos, current, nums, segs).0, parse_from(s, pos, current, nums, segs).1),
    decreases s.len() - pos,
{
    lemma_skip_end_bounds(s, pos);
    if let Some((c, p)) = next_command(s, pos, current) {
        lemma_read_numbers(s, p, arity(c.label), nums);
        if let Some((nums2, q)) = read_numbers(s, p, arity(c.label), nums) {
            let large = if c.label == PathElementLabel::Arc {
                flag_of(s, nums2[nums.len() + 3int])
            } else {
                Some(false)
            };
            let sweep = if c.label == PathElementLabel::Arc {
                flag_of(s, nums2[nums.len() + 4int])
            } else {
                Some(false)
            };
            if !(large is None || sweep is None || !(pos < q <= s.len())) {
                let previous = if segs.len() > 0 {
                    Some(segs.last().command.label)
                } else {
                    None
                };
                let seg = Segment {
                    command: c,
                    first: nums.len() as usize,
                    count: arity(c.label) as usize,
                    large: large->Some_0,
                    sweep: sweep->Some_0,
                    reflect: reflects(previous, c.label),
                };
                let segs2 = segs.push(seg);
                assert forall|j: int| 0 <= j < segs2.len() implies #[trigger] segs2[j].reflect
                    == reflects(previous_label(segs2, j), segs2[j].command.label) by {
                    if j < segs.len() {
                        assert(segs2[j] == segs[j]);
                        if j > 0 {
                            assert(segs2[j - 1] == segs[j - 1]);
                        }
                    }
                }
                assert forall|j: int| 0 <= j < segs2.len() - 1 implies #[trigger] segs2[j + 1].first
                    == segs2[j].first + segs2[j].count by {
                    assert(segs2[j] == segs[j]);
                    if j + 1 < segs.len() {
                        assert(segs2[j + 1] == segs[j + 1]);
                    }
                }
                if segs.len() > 0 {
                    assert(segs2[0] == segs[0]);
                }
                lemma_parse_from(s, q, Some(c), nums2, segs2);
            }
        }
    }
}

/// The segments of a parse take its numbers in order, each its own run
/// right after the run of the segment before; and a smooth curve reflects
/// the control point of the command before it exactly where that command
/// is a curve of the same degree.
pub proof fn lemma_parsed(s: Seq<char>)
    requires
        s.len() <= usize::MAX,
    ensures
        laid_out(parsed(s).0, parsed(s).1),
{
    lemma_parse_from(s, 0, None, seq![], seq![]);
}

/// Each span is a non-empty stretch of a text of length `len`.
pub open spec fn spans_within(nums: Seq<Span>, len: nat) -> bool {
    forall|i: int| 0 <= i < nums.len() ==> #[trigger] nums[i].start < nums[i].end <= len
}

/// Each segment has its operands among `len` numbers, as many as its label takes.
pub open spec fn segments_within(segs: Seq<Segment>, len: nat) -> bool {
    forall|j: int|
        0 <= j < segs.len() ==> #[trigger] segs[j].first + segs[j].count <= len && segs[j].count
            == arity(segs[j].command.label)
}

/// Decodes the command that stands at `pos`.
fn command_at(s: &Vec<char>, pos: usize, current: Option<PathElementCommand>) -> (r: Option<
    (PathElementCommand, usize),
>)
    requires
        pos <= s.len(),
    ensures
        match r {
            Some((c, p)) => next_command(s@, pos as int, current) == Some((c, p as int)) && pos
                <= p <= s.len() && (pos < p || c.label != PathElementLabel::End),
            None => next_command(s@, pos as int, current) is None,
        },
{
    let p = skip_separators(s, pos);
    proof {
        lemma_skip_end_bounds(s@, pos as int);
    }
    if p >= s.len() {
        None
    } else if is_number_part(s[p]) {
        match current {
            Some(c) => match c.label() {
                PathElementLabel::End => None,
                _ => Some((c.updated(), p)),
            },
            None => None,
        }
    } else {
        match PathElementCommand::from_ch(s[p]) {
            Some(c) => Some((c, p + 1)),
            None => None,
        }
    }
}

/// Reads `k` numbers from `pos` on into `nums`, and returns the position
/// after the last; on failure `nums` keeps what it held before, and may have more.
fn read_operands(s: &Vec<char>, pos: usize, k: usize, nums: &mut Vec<Span>) -> (r: Option<usize>)
    requires
        pos <= s.len(),
    ensures
        match read_numbers(s@, pos as int, k as nat, old(nums)@) {
            Some((n2, q)) => r == Some(q as usize) && final(nums)@ == n2,
            None => r is None && final(nums)@.len() >= old(nums)@.len() && final(nums)@.subrange(
                0,
                old(nums)@.len() as int,
            ) == old(nums)@,
        },
{
    let ghost start = nums@;
    let mut p: usize = pos;
    let mut i: usize = 0;
    while i < k
        invariant
            start == old(nums)@,
            i <= k,
            p <= s.len(),
            nums@.len() >= start.len(),
            nums@.subrange(0, start.len() as int) == start,
            read_numbers(s@, pos as int, k as nat, start) == read_numbers(
                s@,
                p as int,
                (k - i) as nat,
                nums@,
            ),
        decreases k - i,
    {
        match scan_number(s, p) {
            Some(sp) => {
                proof {
                    assert(nums@.push(sp).subrange(0, start.len() as int) =~= nums@.subrange(
                        0,
                        start.len() as int,
                    ));
                }
                nums.push(sp);
                p = sp.end;
                i = i + 1;
            },
            None => {
                assert(read_numbers(s@, p as int, (k - i) as nat, nums@) is None);
                return None;
            },
        }
    }
    Some(p)
}

/// Splits a path text into its commands with their operands. Parsing stops
/// silently at the first malformed command; what came before it is kept.
pub fn parse_segments(s: &Vec<char>) -> (r: (Vec<Span>, Vec<Segment>))
    ensures
        (r.0@, r.1@) == parsed(s@),
        spans_within(r.0@, s@.len()),
        segments_within(r.1@, r.0@.len()),
        laid_out(r.0@, r.1@),
{
    // The length of a vector fits in a usize, as the lemma asks.
    let length = s.len();
    proof {
        lemma_parsed(s@);
    }
    let mut nums: Vec<Span> = Vec::new();
    let mut segs: Vec<Segment> = Vec::new();
    let mut pos: usize = 0;
    let mut current: Option<PathElementCommand> = None;
    loop
        invariant
            pos <= s.len(),
            parsed(s@) == parse_from(s@, pos as int, current, nums@, segs@),
            spans_within(nums@, s@.len()),
            segments_within(segs@, nums@.len()),
        ensures
            parsed(s@) == (nums@, segs@),
        decreases s.len() - pos,
    {
        let (c, p) = match command_at(s, pos, current) {
            Some(cp) => cp,
            None => {
                assert(parse_from(s@, pos as int, current, nums@, segs@) == (nums@, segs@));
                break;
            },
        };
        let first = nums.len();
        let count = operand_count(c.label());
        proof {
            lemma_read_numbers(s@, p as int, count as nat, nums@);
            lemma_skip_end_bounds(s@, pos as int);
        }
        let ghost old_nums = nums@;
        assert(old_nums.len() == first);
        assert(spans_within(old_nums, s@.len()));
        let q = match read_operands(s, p, count, &mut nums) {
            Some(q) => q,
            None => {
                let ghost grown = nums@;
                nums.truncate(first);
                assert(grown.subrange(0, first as int) == old_nums);
                assert(nums@ =~= old_nums);
                assert(parse_from(s@, pos as int, current, nums@, segs@) == (nums@, segs@));
                break;
            },
        };
        proof {
            assert(nums@.len() == first + count);
            assert(nums@.subrange(0, first as int) == old_nums);
            assert forall|i: int| 0 <= i < nums@.len() implies #[trigger] nums@[i].start
                < nums@[i].end <= s.len() by {
                if i < first {
                    assert(nums@[i] == nums@.subrange(0, first as int)[i]);
                    assert(0 <= i < old_nums.len());
                    assert(spans_within(old_nums, s@.len()));
                    assert(old_nums[i].start < old_nums[i].end);
                    assert(old_nums[i].end <= s@.len());
                }
            }
            assert(pos < q <= s.len());
        }
        let filled = nums.len();
        assert(filled == first + count);
        let (large, sweep) = match c.label() {
            PathElementLabel::Arc => (flag_value(s, nums[first + 3]), flag_value(s, nums[first + 4])),
            _ => (Some(false), Some(false)),
        };
        let (large, sweep) = match (large, sweep) {
            (Some(l), Some(w)) => (l, w),
            _ => {
                let ghost grown = nums@;
                nums.truncate(first);
                assert(nums@ =~= old_nums);
                assert(parse_from(s@, pos as int, current, nums@, segs@) == (nums@, segs@));
                break;
            },
        };
        let previous = if segs.len() > 0 {
            Some(segs[segs.len() - 1].command.label())
        } else {
            None
        };
        let reflect = smooth_reflects(previous, c.label());
        let ghost old_segs = segs@;
        segs.push(Segment { command: c, first, count, large, sweep, reflect });
        proof {
            assert(segments_within(old_segs, old_nums.len()));
            assert forall|j: int| 0 <= j < segs@.len() implies #[trigger] segs@[j].first
                + segs@[j].count <= nums@.len() && segs@[j].count == arity(
                segs@[j].command.label,
            ) by {
                if j < old_segs.len() {
                    assert(segs@[j] == old_segs[j]);
                }
            }
        }
        pos = q;
        current = Some(c);
    }
    (nums, segs)
}

} // verus!
