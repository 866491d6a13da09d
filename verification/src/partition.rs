//! Grouping candidate answers by the feedback a guess would get from each.
//!
//! A row holds, for one guess, its pattern against every answer of the
//! vocabulary. Candidates are indices into that row. The groups come out in
//! ascending order of pattern code, each with its members in candidate order.

use vstd::prelude::*;
use crate::feedback::{Colors, pattern_code, scoreToInt};

verus! {

/// Number of pattern codes.
pub const CODES: usize = 243;

/// The candidates that share one feedback pattern.
#[derive(Debug, PartialEq, Eq)]
pub struct Bucket {
    /// The shared pattern.
    pub colors: Colors,
    /// The candidates, as indices into the answer vocabulary.
    pub answers: Vec<usize>,
}

/// What a bucket holds.
pub struct Group {
    pub colors: Colors,
    pub answers: Seq<usize>,
}

impl View for Bucket {
    type V = Group;

    open spec fn view(&self) -> Group {
        Group { colors: self.colors, answers: self.answers@ }
    }
}

/// The code of the pattern that `row` holds for answer `a`.
pub open spec fn code_of(row: Seq<Colors>, a: usize) -> nat {
    pattern_code(row[a as int]@)
}

/// The candidates whose pattern has the given code, in candidate order.
pub open spec fn members(row: Seq<Colors>, answers: Seq<usize>, code: nat) -> Seq<usize>
    decreases answers.len(),
{
    if answers.len() == 0 {
        Seq::empty()
    } else {
        let rest = members(row, answers.drop_last(), code);
        if code_of(row, answers.last()) == code {
            rest.push(answers.last())
        } else {
            rest
        }
    }
}

/// The non-empty groups for the codes below `n`, in ascending order of code.
pub open spec fn groups_below(row: Seq<Colors>, answers: Seq<usize>, n: nat) -> Seq<Group>
    decreases n,
{
    if n == 0 {
        Seq::empty()
    } else {
        let before = groups_below(row, answers, (n - 1) as nat);
        let m = members(row, answers, (n - 1) as nat);
        if m.len() > 0 {
            before.push(Group { colors: row[m[0] as int], answers: m })
        } else {
            before
        }
    }
}

/// The candidates grouped by pattern.
pub open spec fn spec_partition(row: Seq<Colors>, answers: Seq<usize>) -> Seq<Group> {
    groups_below(row, answers, CODES as nat)
}

/// The buckets hold exactly these groups, in this order.
pub open spec fn same_groups(buckets: Seq<Bucket>, groups: Seq<Group>) -> bool {
    &&& buckets.len() == groups.len()
    &&& forall|i: int| 0 <= i < buckets.len() ==> (#[trigger] buckets[i])@ == groups[i]
}

/// The code of a group's pattern.
pub open spec fn group_code(g: Group) -> nat {
    pattern_code(g.colors@)
}

/// The sizes of the groups, added up.
pub open spec fn total_size(groups: Seq<Group>) -> nat
    decreases groups.len(),
{
    if groups.len() == 0 {
        0
    } else {
        total_size(groups.drop_last()) + groups.last().answers.len()
    }
}

/// How many candidates have a pattern code below `n`.
pub open spec fn count_below(row: Seq<Colors>, answers: Seq<usize>, n: nat) -> nat
    decreases answers.len(),
{
    if answers.len() == 0 {
        0
    } else {
        count_below(row, answers.drop_last(), n) + if code_of(row, answers.last()) < n {
            1nat
        } else {
            0nat
        }
    }
}

/// A candidate is in the group of a code exactly when it is a candidate with that code.
pub proof fn lemma_members_contains(row: Seq<Colors>, answers: Seq<usize>, code: nat, x: usize)
    ensures
        members(row, answers, code).contains(x) <==> (answers.contains(x) && code_of(row, x)
            == code),
    decreases answers.len(),
{
    if answers.len() > 0 {
        let rest = answers.drop_last();
        let last = answers.last();
        lemma_members_contains(row, rest, code, x);
        let m = members(row, answers, code);
        let mr = members(row, rest, code);
        if answers.contains(x) {
            let k = choose|k: int| 0 <= k < answers.len() && answers[k] == x;
            if k < answers.len() - 1 {
                assert(rest[k] == x);
            }
        }
        if rest.contains(x) {
            let k = choose|k: int| 0 <= k < rest.len() && rest[k] == x;
            assert(answers[k] == x);
        }
        assert(answers[answers.len() - 1] == last);
        if code_of(row, last) == code {
            assert(m == mr.push(last));
            assert(m[m.len() - 1] == last);
            if mr.contains(x) {
                let k = choose|k: int| 0 <= k < mr.len() && mr[k] == x;
                assert(m[k] == x);
            }
            if m.contains(x) {
                let k = choose|k: int| 0 <= k < m.len() && m[k] == x;
                if k < mr.len() {
                    assert(mr[k] == x);
                }
            }
        }
    }
}

/// A group is no larger than the list of candidates.
pub proof fn lemma_members_len(row: Seq<Colors>, answers: Seq<usize>, code: nat)
    ensures
        members(row, answers, code).len() <= answers.len(),
    decreases answers.len(),
{
    if answers.len() > 0 {
        lemma_members_len(row, answers.drop_last(), code);
    }
}

/// Candidates that all have the same code form one group.
pub proof fn lemma_members_all(row: Seq<Colors>, answers: Seq<usize>, code: nat)
    requires
        forall|k: int| 0 <= k < answers.len() ==> code_of(row, #[trigger] answers[k]) == code,
    ensures
        members(row, answers, code) == answers,
    decreases answers.len(),
{
    if answers.len() > 0 {
        let rest = answers.drop_last();
        assert forall|k: int| 0 <= k < rest.len() implies code_of(row, #[trigger] rest[k]) == code by {
            assert(rest[k] == answers[k]);
        }
        lemma_members_all(row, rest, code);
        assert(answers.last() == answers[answers.len() - 1]);
        assert(rest.push(answers.last()) =~= answers);
    } else {
        assert(answers =~= Seq::<usize>::empty());
    }
}

/// Every member of a group has the group's code.
pub proof fn lemma_members_code(row: Seq<Colors>, answers: Seq<usize>, code: nat, j: int)
    requires
        0 <= j < members(row, answers, code).len(),
    ensures
        code_of(row, members(row, answers, code)[j]) == code,
        answers.contains(members(row, answers, code)[j]),
{
    let m = members(row, answers, code);
    assert(m.contains(m[j]));
    lemma_members_contains(row, answers, code, m[j]);
}

/// The sizes of the groups for the codes below `n` add up to the number of
/// candidates with such a code.
proof fn lemma_sizes_below(row: Seq<Colors>, answers: Seq<usize>, n: nat)
    ensures
        total_size(groups_below(row, answers, n)) == count_below(row, answers, n),
    decreases n,
{
    if n == 0 {
        lemma_count_below_zero(row, answers);
    } else {
        let before = groups_below(row, answers, (n - 1) as nat);
        let m = members(row, answers, (n - 1) as nat);
        lemma_sizes_below(row, answers, (n - 1) as nat);
        lemma_count_step(row, answers, (n - 1) as nat);
        if m.len() > 0 {
            let g = Group { colors: row[m[0] as int], answers: m };
            assert(before.push(g).drop_last() == before);
        }
    }
}

proof fn lemma_count_below_zero(row: Seq<Colors>, answers: Seq<usize>)
    ensures
        count_below(row, answers, 0) == 0,
    decreases answers.len(),
{
    if answers.len() > 0 {
        lemma_count_below_zero(row, answers.drop_last());
    }
}

proof fn lemma_count_step(row: Seq<Colors>, answers: Seq<usize>, c: nat)
    ensures
        count_below(row, answers, c + 1) == count_below(row, answers, c) + members(
            row,
            answers,
            c,
        ).len(),
    decreases answers.len(),
{
    if answers.len() > 0 {
        lemma_count_step(row, answers.drop_last(), c);
    }
}

proof fn lemma_count_all(row: Seq<Colors>, answers: Seq<usize>)
    ensures
        count_below(row, answers, CODES as nat) == answers.len(),
    decreases answers.len(),
{
    if answers.len() > 0 {
        lemma_count_all(row, answers.drop_last());
    }
}

/// What the groups for the codes below `n` are: one for each such code that
/// some candidate has, in ascending order of code, holding the candidates
/// with that code.
pub proof fn lemma_groups_below(row: Seq<Colors>, answers: Seq<usize>, n: nat)
    ensures
        forall|i: int|
            0 <= i < groups_below(row, answers, n).len() ==> {
                let g = #[trigger] groups_below(row, answers, n)[i];
                &&& group_code(g) < n
                &&& g.answers == members(row, answers, group_code(g))
                &&& g.answers.len() > 0
            },
        forall|i: int, j: int|
            0 <= i < j < groups_below(row, answers, n).len() ==> group_code(
                #[trigger] groups_below(row, answers, n)[i],
            ) < group_code(#[trigger] groups_below(row, answers, n)[j]),
        forall|c: nat|
            c < n && members(row, answers, c).len() > 0 ==> exists|i: int|
                0 <= i < groups_below(row, answers, n).len() && group_code(
                    #[trigger] groups_below(row, answers, n)[i],
                ) == c,
    decreases n,
{
    if n > 0 {
        let c = (n - 1) as nat;
        let before = groups_below(row, answers, c);
        let now = groups_below(row, answers, n);
        let m = members(row, answers, c);
        lemma_groups_below(row, answers, c);
        if m.len() > 0 {
            lemma_members_code(row, answers, c, 0);
            let g = Group { colors: row[m[0] as int], answers: m };
            assert(now == before.push(g));
            assert(group_code(g) == c);
            assert(now[now.len() - 1] == g);
            assert forall|i: int| 0 <= i < now.len() implies {
                let h = #[trigger] now[i];
                &&& group_code(h) < n
                &&& h.answers == members(row, answers, group_code(h))
                &&& h.answers.len() > 0
            } by {
                if i < before.len() {
                    assert(now[i] == before[i]);
                }
            }
            assert forall|i: int, j: int| 0 <= i < j < now.len() implies group_code(
                #[trigger] now[i],
            ) < group_code(#[trigger] now[j]) by {
                assert(now[i] == before[i]);
                if j < before.len() {
                    assert(now[j] == before[j]);
                }
            }
        }
        assert forall|d: nat| d < n && members(row, answers, d).len() > 0 implies exists|i: int|
            0 <= i < now.len() && group_code(#[trigger] now[i]) == d by {
            if d < c {
                let i = choose|i: int| 0 <= i < before.len() && group_code(#[trigger] before[i]) == d;
                assert(now[i] == before[i]);
            } else {
                assert(group_code(now[now.len() - 1]) == d);
            }
        }
    }
}

/// The pattern of a group is the pattern of its first member.
pub proof fn lemma_group_colors(row: Seq<Colors>, answers: Seq<usize>, n: nat, i: int)
    requires
        0 <= i < groups_below(row, answers, n).len(),
    ensures
        groups_below(row, answers, n)[i].answers.len() > 0,
        groups_below(row, answers, n)[i].colors == row[groups_below(
            row,
            answers,
            n,
        )[i].answers[0] as int],
    decreases n,
{
    if n > 0 {
        let before = groups_below(row, answers, (n - 1) as nat);
        if i < before.len() {
            lemma_group_colors(row, answers, (n - 1) as nat, i);
        }
    }
}

/// The groups divide the candidates: none is empty, every candidate is in one
/// group, no candidate is in two, nothing else is in any, and the sizes add
/// up to the number of candidates.
pub proof fn lemma_partition_exact(row: Seq<Colors>, answers: Seq<usize>)
    ensures
        forall|i: int|
            0 <= i < spec_partition(row, answers).len() ==> (#[trigger] spec_partition(
                row,
                answers,
            )[i]).answers.len() > 0,
        forall|x: usize|
            answers.contains(x) ==> exists|i: int|
                0 <= i < spec_partition(row, answers).len() && (#[trigger] spec_partition(
                    row,
                    answers,
                )[i]).answers.contains(x),
        forall|i: int, x: usize|
            0 <= i < spec_partition(row, answers).len() && #[trigger] spec_partition(
                row,
                answers,
            )[i].answers.contains(x) ==> answers.contains(x) && code_of(row, x) == group_code(
                spec_partition(row, answers)[i],
            ),
        forall|i: int, j: int, x: usize|
            0 <= i < spec_partition(row, answers).len() && 0 <= j < spec_partition(
                row,
                answers,
            ).len() && i != j ==> !(#[trigger] spec_partition(row, answers)[i].answers.contains(x)
                && #[trigger] spec_partition(row, answers)[j].answers.contains(x)),
        total_size(spec_partition(row, answers)) == answers.len(),
{
    let gs = spec_partition(row, answers);
    lemma_groups_below(row, answers, CODES as nat);
    lemma_sizes_below(row, answers, CODES as nat);
    lemma_count_all(row, answers);
    assert forall|x: usize| answers.contains(x) implies exists|i: int|
        0 <= i < gs.len() && (#[trigger] gs[i]).answers.contains(x) by {
        let c = code_of(row, x);
        lemma_members_contains(row, answers, c, x);
        let m = members(row, answers, c);
        assert(m.len() > 0);
        let i = choose|i: int| 0 <= i < gs.len() && group_code(#[trigger] gs[i]) == c;
        assert(gs[i].answers == m);
    }
    assert forall|i: int, x: usize| 0 <= i < gs.len() && #[trigger] gs[i].answers.contains(
        x,
    ) implies answers.contains(x) && code_of(row, x) == group_code(gs[i]) by {
        lemma_members_contains(row, answers, group_code(gs[i]), x);
    }
    assert forall|i: int, j: int, x: usize|
        0 <= i < gs.len() && 0 <= j < gs.len() && i != j implies !(#[trigger] gs[i].answers.contains(
        x,
    ) && #[trigger] gs[j].answers.contains(x)) by {
        lemma_members_contains(row, answers, group_code(gs[i]), x);
        lemma_members_contains(row, answers, group_code(gs[j]), x);
        if i < j {
            assert(group_code(gs[i]) < group_code(gs[j]));
        } else {
            assert(group_code(gs[j]) < group_code(gs[i]));
        }
    }
}

/// Groups the candidates by the pattern that the row holds for each.
pub fn partition(row: &Vec<Colors>, answers: &[usize]) -> (buckets: Vec<Bucket>)
    requires
        forall|k: int| 0 <= k < answers@.len() ==> answers@[k] < row@.len(),
    ensures
        same_groups(buckets@, spec_partition(row@, answers@)),
{
    let mut table: Vec<Vec<usize>> = Vec::new();
    let mut c: usize = 0;
    while c < CODES
        invariant
            c <= CODES,
            table@.len() == c,
            forall|i: int| 0 <= i < c ==> (#[trigger] table@[i])@.len() == 0,
        decreases CODES - c,
    {
        table.push(Vec::new());
        c += 1;
    }
    let n = answers.len();
    let mut k: usize = 0;
    assert forall|code: int| 0 <= code < CODES implies (#[trigger] table@[code])@ == members(
        row@,
        answers@.take(0),
        code as nat,
    ) by {
        assert(table@[code]@ =~= Seq::<usize>::empty());
    }
    while k < n
        invariant
            k <= n,
            n == answers@.len(),
            table@.len() == CODES,
            forall|k: int| 0 <= k < answers@.len() ==> answers@[k] < row@.len(),
            forall|code: int|
                0 <= code < CODES ==> (#[trigger] table@[code])@ == members(
                    row@,
                    answers@.take(k as int),
                    code as nat,
                ),
        decreases n - k,
    {
        let a = answers[k];
        let code = scoreToInt(&row[a]) as usize;
        let ghost before = table@;
        table[code].push(a);
        proof {
            let next = answers@.take(k as int + 1);
            assert(next.drop_last() == answers@.take(k as int));
            assert(next.last() == a);
            assert forall|d: int| 0 <= d < CODES implies (#[trigger] table@[d])@ == members(
                row@,
                next,
                d as nat,
            ) by {
                if d != code {
                    assert(table@[d] == before[d]);
                }
            }
        }
        k += 1;
    }
    assert(answers@.take(n as int) == answers@);

    let mut buckets: Vec<Bucket> = Vec::new();
    c = 0;
    while c < CODES
        invariant
            c <= CODES,
            table@.len() == CODES,
            forall|k: int| 0 <= k < answers@.len() ==> answers@[k] < row@.len(),
            forall|code: int|
                c <= code < CODES ==> (#[trigger] table@[code])@ == members(
                    row@,
                    answers@,
                    code as nat,
                ),
            same_groups(buckets@, groups_below(row@, answers@, c as nat)),
        decreases CODES - c,
    {
        if table[c].len() > 0 {
            let ghost before = table@;
            let ghost prior = buckets@;
            let mut taken: Vec<usize> = Vec::new();
            std::mem::swap(&mut table[c], &mut taken);
            proof {
                lemma_members_code(row@, answers@, c as nat, 0);
                let x = taken@[0];
                let w = choose|w: int| 0 <= w < answers@.len() && answers@[w] == x;
                assert(answers@[w] < row@.len());
                assert forall|d: int| c < d < CODES implies (#[trigger] table@[d])@ == members(
                    row@,
                    answers@,
                    d as nat,
                ) by {
                    assert(table@[d] == before[d]);
                }
            }
            let first = taken[0];
            let bucket = Bucket { colors: row[first], answers: taken };
            buckets.push(bucket);
            proof {
                let groups = groups_below(row@, answers@, c as nat + 1);
                assert forall|i: int| 0 <= i < buckets@.len() implies (#[trigger] buckets@[i])@
                    == groups[i] by {
                    if i < prior.len() {
                        assert(buckets@[i] == prior[i]);
                    }
                }
            }
        }
        c += 1;
    }
    buckets
}

} // verus!
