//! Line-level comparison of an expected text with an actual one.
use vstd::prelude::*;

verus! {

/// The text that a sequence of lines spells out when joined end to end.
pub open spec fn concat_lines(lines: Seq<Seq<char>>) -> Seq<char>
    decreases lines.len(),
{
    if lines.len() == 0 {
        seq![]
    } else {
        concat_lines(lines.drop_last()) + lines.last()
    }
}

/// The characters of each line.
pub open spec fn line_views(lines: Seq<String>) -> Seq<Seq<char>> {
    lines.map_values(|l: String| l@)
}

/// The lines into which the differ splits a text, each with its terminator.
pub uninterp spec fn lines_of(text: Seq<char>) -> Seq<Seq<char>>;

/// Relies on similar's `DiffableStr::tokenize_lines` for `str`: the text is cut
/// after each `\n`, `\r\n` or lone `\r`, the last line possibly unterminated.
/// The cut depends on the text alone, no line is empty, and the lines joined
/// give back the text.
#[verifier::external_body]
fn split_lines(text: &str) -> (r: Vec<String>)
    ensures
        line_views(r@) == lines_of(text@),
        concat_lines(line_views(r@)) == text@,
        forall|i: int| 0 <= i < r@.len() ==> r@[i]@.len() > 0,
{
    similar::DiffableStr::tokenize_lines(text).into_iter().map(|l| l.to_string()).collect()
}

/// What a diff operation does to its range of lines.
#[derive(Clone, Copy, Debug, PartialEq, Eq, Structural)]
pub enum OpTag {
    Equal,
    Delete,
    Insert,
    Replace,
}

/// One operation of a line diff: the old lines `old_start..old_end` become
/// the new lines `new_start..new_end`.
#[derive(Clone, Copy, Debug, PartialEq, Eq, Structural)]
pub struct LineOp {
    pub tag: OpTag,
    pub old_start: usize,
    pub old_end: usize,
    pub new_start: usize,
    pub new_end: usize,
}

/// `op` stays within both texts and its tag agrees with its ranges: an equal
/// run joins identical lines, a deletion keeps no new line, an insertion takes
/// no old line, and every operation covers at least one line.
pub open spec fn op_fits(op: LineOp, old: Seq<Seq<char>>, new: Seq<Seq<char>>) -> bool {
    &&& op.old_start <= op.old_end <= old.len()
    &&& op.new_start <= op.new_end <= new.len()
    &&& match op.tag {
        OpTag::Equal => {
            &&& op.old_end - op.old_start == op.new_end - op.new_start
            &&& op.old_start < op.old_end
            &&& old.subrange(op.old_start as int, op.old_end as int) == new.subrange(
                op.new_start as int,
                op.new_end as int,
            )
        },
        OpTag::Delete => op.old_start < op.old_end && op.new_start == op.new_end,
        OpTag::Insert => op.old_start == op.old_end && op.new_start < op.new_end,
        OpTag::Replace => op.old_start < op.old_end && op.new_start < op.new_end,
    }
}

/// `ops`, in order, rewrite the lines `old` into the lines `new`: each
/// operation fits, and their ranges follow one another from the start of both
/// texts to their ends.
pub open spec fn edit_script(ops: Seq<LineOp>, old: Seq<Seq<char>>, new: Seq<Seq<char>>) -> bool {
    &&& forall|k: int| 0 <= k < ops.len() ==> op_fits(#[trigger] ops[k], old, new)
    &&& forall|k: int|
        0 < k < ops.len() ==> ops[k - 1].old_end == #[trigger] ops[k].old_start && ops[k
            - 1].new_end == ops[k].new_start
    &&& ops.len() == 0 ==> old.len() == 0 && new.len() == 0
    &&& ops.len() > 0 ==> {
        &&& ops[0].old_start == 0
        &&& ops[0].new_start == 0
        &&& ops.last().old_end == old.len()
        &&& ops.last().new_end == new.len()
    }
}

/// Relies on `similar::capture_diff_slices` with Myers' algorithm: the
/// operations it returns rewrite `old` into `new` in order, lines under an
/// equal run are equal strings, and two equal sequences give equal runs only.
#[verifier::external_body]
fn diff_line_ops(old: &Vec<String>, new: &Vec<String>) -> (r: Vec<LineOp>)
    ensures
        edit_script(r@, line_views(old@), line_views(new@)),
        line_views(old@) == line_views(new@) ==> forall|k: int|
            0 <= k < r@.len() ==> #[trigger] r@[k].tag == OpTag::Equal,
{
    let ops = similar::capture_diff_slices(similar::Algorithm::Myers, old, new);
    ops.iter().map(|op| {
        let (tag, o, n) = op.as_tag_tuple();
        let tag = match tag {
            similar::DiffTag::Equal => OpTag::Equal,
            similar::DiffTag::Delete => OpTag::Delete,
            similar::DiffTag::Insert => OpTag::Insert,
            similar::DiffTag::Replace => OpTag::Replace,
        };
        LineOp { tag, old_start: o.start, old_end: o.end, new_start: n.start, new_end: n.end }
    }).collect()
}


/// One region where the actual output departs from the expected one: its
/// kind, the actual lines `at..at + len`, and the expected text it stands for
/// (none for an insertion).
#[derive(Clone, Debug)]
pub struct IncorrectSpan {
    pub kind: OpTag,
    pub expected: Option<String>,
    pub at: usize,
    pub len: usize,
}

/// The operations of `ops` that are not equal runs, in order.
pub open spec fn mismatch_ops(ops: Seq<LineOp>) -> Seq<LineOp>
    decreases ops.len(),
{
    if ops.len() == 0 {
        seq![]
    } else if ops.last().tag == OpTag::Equal {
        mismatch_ops(ops.drop_last())
    } else {
        mismatch_ops(ops.drop_last()).push(ops.last())
    }
}

/// `span` reports `op`, whose old lines are taken from `old`.
pub open spec fn span_describes(span: IncorrectSpan, op: LineOp, old: Seq<Seq<char>>) -> bool {
    &&& span.kind == op.tag
    &&& span.at == op.new_start
    &&& span.len == op.new_end - op.new_start
    &&& if op.tag == OpTag::Insert {
        span.expected is None
    } else {
        &&& span.expected is Some
        &&& span.expected->0@ == concat_lines(old.subrange(op.old_start as int, op.old_end as int))
    }
}

/// `spans` report, one for one and in order, the operations of `ops` that are
/// not equal runs.
pub open spec fn spans_describe(spans: Seq<IncorrectSpan>, ops: Seq<LineOp>, old: Seq<Seq<char>>) -> bool {
    let m = mismatch_ops(ops);
    &&& spans.len() == m.len()
    &&& forall|i: int| 0 <= i < spans.len() ==> span_describes(#[trigger] spans[i], m[i], old)
}

/// `spans` report a line diff of the text `expected` into the text `actual`.
pub open spec fn spans_of_diff(spans: Seq<IncorrectSpan>, expected: Seq<char>, actual: Seq<char>) -> bool {
    exists|ops: Seq<LineOp>|
        edit_script(ops, lines_of(expected), lines_of(actual)) && #[trigger] spans_describe(
            spans,
            ops,
            lines_of(expected),
        )
}

/// Every operation's old range lies within `n` lines, and no range is
/// reversed.
pub open spec fn old_ranges_within(ops: Seq<LineOp>, n: nat) -> bool {
    forall|k: int|
        0 <= k < ops.len() ==> #[trigger] ops[k].old_start <= ops[k].old_end <= n
            && ops[k].new_start <= ops[k].new_end
}

/// The lines `start..end` joined into one text.
pub fn joined_lines(lines: &Vec<String>, start: usize, end: usize) -> (r: String)
    requires
        start <= end <= lines@.len(),
    ensures
        r@ == concat_lines(line_views(lines@).subrange(start as int, end as int)),
{
    let ghost views = line_views(lines@);
    let mut s = String::new();
    let mut j: usize = start;
    while j < end
        invariant
            start <= j <= end <= lines@.len(),
            views == line_views(lines@),
            s@ == concat_lines(views.subrange(start as int, j as int)),
        decreases end - j,
    {
        proof {
            assert(views.subrange(start as int, j + 1).drop_last() =~= views.subrange(
                start as int,
                j as int,
            ));
        }
        s.append(lines[j].as_str());
        j += 1;
    }
    s
}

/// Turns every operation of `ops` that is not an equal run into a span, in
/// order; the expected text of a span is taken from `old_lines`.
pub fn spans_from_ops(old_lines: &Vec<String>, ops: &Vec<LineOp>) -> (r: Vec<IncorrectSpan>)
    requires
        old_ranges_within(ops@, old_lines@.len()),
    ensures
        spans_describe(r@, ops@, line_views(old_lines@)),
{
    let ghost old = line_views(old_lines@);
    let mut spans: Vec<IncorrectSpan> = Vec::new();
    let mut k: usize = 0;
    while k < ops.len()
        invariant
            k <= ops@.len(),
            old == line_views(old_lines@),
            old_ranges_within(ops@, old_lines@.len()),
            spans_describe(spans@, ops@.subrange(0, k as int), old),
        decreases ops@.len() - k,
    {
        let op = ops[k];
        let ghost before = spans@;
        proof {
            assert(ops@.subrange(0, k + 1).drop_last() =~= ops@.subrange(0, k as int));
        }
        if op.tag != OpTag::Equal {
            let expected = if op.tag == OpTag::Insert {
                None
            } else {
                Some(joined_lines(old_lines, op.old_start, op.old_end))
            };
            spans.push(IncorrectSpan { kind: op.tag, expected, at: op.new_start, len: op.new_end - op.new_start });
            proof {
                let m = mismatch_ops(ops@.subrange(0, k + 1));
                assert forall|i: int| 0 <= i < spans@.len() implies span_describes(
                    #[trigger] spans@[i],
                    m[i],
                    old,
                ) by {
                    if i < before.len() {
                        assert(spans@[i] == before[i]);
                    }
                }
            }
        } else {
            proof {
                let m = mismatch_ops(ops@.subrange(0, k + 1));
                assert forall|i: int| 0 <= i < spans@.len() implies span_describes(
                    #[trigger] spans@[i],
                    m[i],
                    old,
                ) by {}
            }
        }
        k += 1;
    }
    proof {
        assert(ops@.subrange(0, ops@.len() as int) =~= ops@);
    }
    spans
}

/// No operation is left once the equal runs are taken out exactly when every
/// operation is an equal run.
pub proof fn lemma_no_mismatch_iff_all_equal(ops: Seq<LineOp>)
    ensures
        mismatch_ops(ops).len() == 0 <==> forall|k: int|
            0 <= k < ops.len() ==> #[trigger] ops[k].tag == OpTag::Equal,
    decreases ops.len(),
{
    if ops.len() > 0 {
        let rest = ops.drop_last();
        lemma_no_mismatch_iff_all_equal(rest);
        if ops.last().tag == OpTag::Equal {
            if mismatch_ops(ops).len() == 0 {
                assert forall|k: int| 0 <= k < ops.len() implies #[trigger] ops[k].tag
                    == OpTag::Equal by {
                    if k < ops.len() - 1 {
                        assert(rest[k] == ops[k]);
                    }
                }
            }
            if forall|k: int| 0 <= k < ops.len() ==> #[trigger] ops[k].tag == OpTag::Equal {
                assert forall|k: int| 0 <= k < rest.len() implies #[trigger] rest[k].tag
                    == OpTag::Equal by {
                    assert(ops[k].tag == OpTag::Equal);
                }
            }
        } else {
            assert(ops[ops.len() - 1].tag != OpTag::Equal);
        }
    }
}

/// The lines before the end of the `k`-th operation agree, when all
/// operations up to it are equal runs.
proof fn lemma_equal_prefix(ops: Seq<LineOp>, old: Seq<Seq<char>>, new: Seq<Seq<char>>, k: int)
    requires
        edit_script(ops, old, new),
        0 <= k < ops.len(),
        forall|j: int| 0 <= j <= k ==> #[trigger] ops[j].tag == OpTag::Equal,
    ensures
        old.subrange(0, ops[k].old_end as int) == new.subrange(0, ops[k].new_end as int),
    decreases k,
{
    let op = ops[k];
    let (os, oe, ns, ne) = (op.old_start as int, op.old_end as int, op.new_start as int, op.new_end as int);
    assert(op_fits(op, old, new));
    assert(op.tag == OpTag::Equal);
    assert(old.subrange(os, oe) == new.subrange(ns, ne));
    if k > 0 {
        lemma_equal_prefix(ops, old, new, k - 1);
        assert(ops[k - 1].old_end == os && ops[k - 1].new_end == ns);
        assert(old.subrange(0, os) == new.subrange(0, ns));
        assert(old.subrange(0, oe) =~= old.subrange(0, os) + old.subrange(os, oe));
        assert(new.subrange(0, ne) =~= new.subrange(0, ns) + new.subrange(ns, ne));
    } else {
        assert(os == 0 && ns == 0);
    }
}

/// An edit script made of equal runs only rewrites a text into itself.
pub proof fn lemma_all_equal_same_lines(ops: Seq<LineOp>, old: Seq<Seq<char>>, new: Seq<Seq<char>>)
    requires
        edit_script(ops, old, new),
        forall|k: int| 0 <= k < ops.len() ==> #[trigger] ops[k].tag == OpTag::Equal,
    ensures
        old == new,
{
    if ops.len() > 0 {
        lemma_equal_prefix(ops, old, new, ops.len() - 1);
        assert(old.subrange(0, old.len() as int) =~= old);
        assert(new.subrange(0, new.len() as int) =~= new);
    } else {
        assert(old =~= new);
    }
}

/// The expected texts of `spans` joined in order.
pub open spec fn expected_texts(spans: Seq<IncorrectSpan>) -> Seq<char>
    decreases spans.len(),
{
    if spans.len() == 0 {
        seq![]
    } else {
        expected_texts(spans.drop_last()) + match spans.last().expected {
            Some(t) => t@,
            None => seq![],
        }
    }
}

/// Joining two runs of lines joins their texts.
pub proof fn lemma_concat_lines_append(a: Seq<Seq<char>>, b: Seq<Seq<char>>)
    ensures
        concat_lines(a + b) == concat_lines(a) + concat_lines(b),
    decreases b.len(),
{
    if b.len() == 0 {
        assert(a + b =~= a);
        assert(concat_lines(a) + concat_lines(b) =~= concat_lines(a));
    } else {
        lemma_concat_lines_append(a, b.drop_last());
        assert((a + b).drop_last() =~= a + b.drop_last());
        assert((a + b).last() == b.last());
        assert(concat_lines(a) + concat_lines(b.drop_last()) + b.last() =~= concat_lines(a) + (
        concat_lines(b.drop_last()) + b.last()));
    }
}

/// Where no operation is an equal run, all of them are reported.
proof fn lemma_mismatch_ops_all(ops: Seq<LineOp>)
    requires
        forall|k: int| 0 <= k < ops.len() ==> #[trigger] ops[k].tag != OpTag::Equal,
    ensures
        mismatch_ops(ops) == ops,
    decreases ops.len(),
{
    if ops.len() > 0 {
        let rest = ops.drop_last();
        assert forall|k: int| 0 <= k < rest.len() implies #[trigger] rest[k].tag != OpTag::Equal by {
            assert(rest[k] == ops[k]);
        }
        lemma_mismatch_ops_all(rest);
        assert(ops[ops.len() - 1].tag != OpTag::Equal);
        assert(rest.push(ops.last()) =~= ops);
    }
}

/// The expected texts of the first `k` deletions spell out the old lines
/// that they cover.
proof fn lemma_deletions_prefix(spans: Seq<IncorrectSpan>, ops: Seq<LineOp>, old: Seq<Seq<char>>, k: int)
    requires
        edit_script(ops, old, seq![]),
        forall|i: int| 0 <= i < ops.len() ==> #[trigger] ops[i].tag == OpTag::Delete,
        spans.len() == ops.len(),
        forall|i: int| 0 <= i < spans.len() ==> span_describes(#[trigger] spans[i], ops[i], old),
        0 < k <= ops.len(),
    ensures
        expected_texts(spans.subrange(0, k)) == concat_lines(old.subrange(0, ops[k - 1].old_end as int)),
    decreases k,
{
    let sk = spans.subrange(0, k);
    assert(sk.drop_last() =~= spans.subrange(0, k - 1));
    assert(sk.last() == spans[k - 1]);
    assert(span_describes(spans[k - 1], ops[k - 1], old));
    assert(op_fits(ops[k - 1], old, seq![]));
    let (st, en) = (ops[k - 1].old_start as int, ops[k - 1].old_end as int);
    if k == 1 {
        assert(spans.subrange(0, 0) =~= seq![]);
        assert(old.subrange(0, en) == old.subrange(st, en));
        assert(expected_texts(sk) =~= expected_texts(spans.subrange(0, 0)) + concat_lines(old.subrange(st, en)));
    } else {
        lemma_deletions_prefix(spans, ops, old, k - 1);
        lemma_concat_lines_append(old.subrange(0, st), old.subrange(st, en));
        assert(old.subrange(0, st) + old.subrange(st, en) =~= old.subrange(0, en));
    }
}

/// Diffing lines against no lines at all gives deletions only, at least one,
/// and their expected texts together spell out all the old lines.
pub proof fn lemma_diff_against_empty(spans: Seq<IncorrectSpan>, ops: Seq<LineOp>, old: Seq<Seq<char>>)
    requires
        edit_script(ops, old, seq![]),
        spans_describe(spans, ops, old),
        old.len() > 0,
    ensures
        spans.len() > 0,
        forall|i: int| 0 <= i < spans.len() ==> #[trigger] spans[i].kind == OpTag::Delete,
        expected_texts(spans) == concat_lines(old),
{
    assert forall|k: int| 0 <= k < ops.len() implies #[trigger] ops[k].tag == OpTag::Delete by {
        assert(op_fits(ops[k], old, seq![]));
    }
    lemma_mismatch_ops_all(ops);
    assert forall|i: int| 0 <= i < spans.len() implies #[trigger] spans[i].kind == OpTag::Delete by {
        assert(span_describes(spans[i], ops[i], old));
    }
    lemma_deletions_prefix(spans, ops, old, ops.len() as int);
    assert(spans.subrange(0, ops.len() as int) =~= spans);
    assert(old.subrange(0, old.len() as int) =~= old);
}

/// A run of non-empty lines spells out an empty text only when it is empty.
proof fn lemma_concat_empty(lines: Seq<Seq<char>>)
    requires
        forall|i: int| 0 <= i < lines.len() ==> (#[trigger] lines[i]).len() > 0,
    ensures
        (concat_lines(lines).len() == 0) == (lines.len() == 0),
{
    if lines.len() > 0 {
        assert(lines[lines.len() - 1].len() > 0);
    }
}

/// Compares `expected` with `actual` line by line and reports every region
/// where they differ; there is none exactly when the texts are the same.
pub fn mismatch_spans(expected: &str, actual: &str) -> (r: Vec<IncorrectSpan>)
    ensures
        spans_of_diff(r@, expected@, actual@),
        r@.len() == 0 <==> expected@ == actual@,
        actual@.len() == 0 && expected@.len() > 0 ==> {
            &&& r@.len() > 0
            &&& forall|i: int| 0 <= i < r@.len() ==> #[trigger] r@[i].kind == OpTag::Delete
            &&& expected_texts(r@) == expected@
        },
{
    let old_lines = split_lines(expected);
    let new_lines = split_lines(actual);
    let ops = diff_line_ops(&old_lines, &new_lines);
    proof {
        assert forall|k: int| 0 <= k < ops@.len() implies #[trigger] ops@[k].old_start
            <= ops@[k].old_end <= old_lines@.len() && ops@[k].new_start <= ops@[k].new_end by {
            assert(op_fits(ops@[k], line_views(old_lines@), line_views(new_lines@)));
        }
    }
    let spans = spans_from_ops(&old_lines, &ops);
    proof {
        let old = line_views(old_lines@);
        let new = line_views(new_lines@);
        assert(edit_script(ops@, lines_of(expected@), lines_of(actual@)));
        assert(spans_describe(spans@, ops@, lines_of(expected@)));
        lemma_no_mismatch_iff_all_equal(ops@);
        if spans@.len() == 0 {
            lemma_all_equal_same_lines(ops@, old, new);
        }
        assert forall|i: int| 0 <= i < old.len() implies (#[trigger] old[i]).len() > 0 by {}
        assert forall|i: int| 0 <= i < new.len() implies (#[trigger] new[i]).len() > 0 by {}
        lemma_concat_empty(old);
        lemma_concat_empty(new);
        if actual@.len() == 0 && expected@.len() > 0 {
            assert(new =~= seq![]);
            lemma_diff_against_empty(spans@, ops@, old);
        }
    }
    spans
}

} // verus!
