//! Roll tables: the sums that a roll of dice can give, and how often.

use crate::chance::count_sum;
use crate::chance::RollChance;
use crate::tiles::fill_range;
use crate::tiles::lemma_max_value;
use crate::tiles::max_value;
use crate::tiles::value_range;
use std::collections::HashMap;
use vstd::arithmetic::power::pow;
use vstd::prelude::*;

verus! {

broadcast use vstd::std_specs::hash::group_hash_axioms;

/// A roll table. `chances` holds, for each sum that can come up, the number
/// of outcomes that give it; `rolls` lists those sums in rising order, so
/// that the table can be walked line by line; `total` is the number of all
/// outcomes, so a sum's chance is its count over `total`.
#[derive(Clone, Debug)]
pub struct RollProbs {
    pub chances: HashMap<u16, u128>,
    pub rolls: Vec<u16>,
    pub total: u128,
}

impl View for RollProbs {
    type V = Seq<RollChance>;

    /// The lines of the table: each sum of `rolls` with its count.
    open spec fn view(&self) -> Seq<RollChance> {
        Seq::new(
            self.rolls@.len(),
            |i: int| (RollChance { roll: self.rolls@[i], count: self.chances@[self.rolls@[i]] }),
        )
    }
}

/// The sums of a table rise from line to line, so none stands twice.
pub open spec fn rolls_rise(chances: Seq<RollChance>) -> bool {
    forall|i: int, j: int| 0 <= i < j < chances.len() ==> chances[i].roll < chances[j].roll
}

/// The table has a line for the sum `roll`.
pub open spec fn has_roll(chances: Seq<RollChance>, roll: u16) -> bool {
    exists|i: int| 0 <= i < chances.len() && (#[trigger] chances[i]).roll == roll
}

impl RollProbs {
    /// The lines are in rising order of their sums, each with a count above
    /// zero, and the counts add up to `total`; `rolls` lists the sums that
    /// `chances` holds, and no other.
    pub open spec fn wf(&self) -> bool {
        &&& rolls_rise(self@)
        &&& forall|i: int| 0 <= i < self@.len() ==> (#[trigger] self@[i]).count > 0
        &&& count_sum(self@, self@.len()) == self.total
        &&& forall|roll: u16| #[trigger] self.chances@.contains_key(roll) <==> self.rolls@.contains(roll)
    }
}

/// The number of times that `v` stands in `s`.
pub open spec fn occurrences(s: Seq<u16>, v: u16) -> nat
    decreases s.len(),
{
    if s.len() == 0 {
        0
    } else {
        occurrences(s.drop_last(), v) + if s.last() == v {
            1nat
        } else {
            0nat
        }
    }
}

/// The number of elements of `s` that are below `bound`.
pub open spec fn occurrences_below(s: Seq<u16>, bound: nat) -> nat
    decreases bound,
{
    if bound == 0 || bound > 65536 {
        0
    } else {
        occurrences_below(s, (bound - 1) as nat) + occurrences(s, (bound - 1) as u16)
    }
}

/// The number of ways in which `count` dice with the faces `values` add up to
/// `sum`, the dice told apart and each face counted for itself.
pub open spec fn ways(values: Seq<u16>, count: nat, sum: int) -> nat
    decreases count, values.len() + 1,
{
    if count == 0 {
        if sum == 0 {
            1
        } else {
            0
        }
    } else {
        ways_first(values, count, sum, values.len())
    }
}

/// The ways in which `count` dice add up to `sum` when the first die shows one
/// of the first `upto` faces.
pub open spec fn ways_first(values: Seq<u16>, count: nat, sum: int, upto: nat) -> nat
    decreases count, upto,
{
    if count == 0 || upto == 0 || upto > values.len() {
        0
    } else {
        ways_first(values, count, sum, (upto - 1) as nat) + ways(
            values,
            (count - 1) as nat,
            sum - values[upto - 1],
        )
    }
}

/// The sums of all rolls of `count` dice with the faces `values`, on top of
/// `sum`: the rolls in the order of their faces, the last die changing first.
pub open spec fn roll_list(values: Seq<u16>, count: nat, sum: u16) -> Seq<u16>
    decreases count, values.len() + 1,
{
    if count == 0 {
        seq![sum]
    } else {
        roll_list_first(values, count, sum, values.len())
    }
}

/// The sums of the rolls whose first die shows one of the first `upto` faces.
pub open spec fn roll_list_first(values: Seq<u16>, count: nat, sum: u16, upto: nat) -> Seq<u16>
    decreases count, upto,
{
    if count == 0 || upto == 0 || upto > values.len() {
        Seq::empty()
    } else {
        roll_list_first(values, count, sum, (upto - 1) as nat) + roll_list(
            values,
            (count - 1) as nat,
            (sum + values[upto - 1]) as u16,
        )
    }
}

/// `chances` is the table of the sums listed in `rolls`: a line for each sum
/// that occurs, with the number of times it occurs.
pub open spec fn table_of(chances: Seq<RollChance>, rolls: Seq<u16>) -> bool {
    &&& forall|i: int|
        0 <= i < chances.len() ==> (#[trigger] chances[i]).count == occurrences(
            rolls,
            chances[i].roll,
        )
    &&& forall|v: u16| occurrences(rolls, v) > 0 ==> has_roll(chances, v)
}

/// `chances` is the table of `count` dice with the faces `values`: a line
/// for each sum that can be rolled on top of `sum`, with the number of ways
/// to roll it.
pub open spec fn table_of_dice(
    chances: Seq<RollChance>,
    values: Seq<u16>,
    count: nat,
    sum: int,
) -> bool {
    &&& forall|i: int|
        0 <= i < chances.len() ==> (#[trigger] chances[i]).count == ways(
            values,
            count,
            chances[i].roll - sum,
        )
    &&& forall|v: u16| ways(values, count, v - sum) > 0 ==> has_roll(chances, v)
}

/// Counting in two sequences is counting in both laid end to end.
pub proof fn lemma_occurrences_add(a: Seq<u16>, b: Seq<u16>, v: u16)
    ensures
        occurrences(a + b, v) == occurrences(a, v) + occurrences(b, v),
    decreases b.len(),
{
    if b.len() == 0 {
        assert(a + b =~= a);
    } else {
        lemma_occurrences_add(a, b.drop_last(), v);
        assert((a + b).drop_last() =~= a + b.drop_last());
    }
}

/// One more element is one more below every bound above it.
pub proof fn lemma_occurrences_below_push(s: Seq<u16>, x: u16, bound: nat)
    requires
        bound <= 65536,
    ensures
        occurrences_below(s.push(x), bound) == occurrences_below(s, bound) + if x < bound {
            1nat
        } else {
            0nat
        },
    decreases bound,
{
    if bound > 0 {
        lemma_occurrences_below_push(s, x, (bound - 1) as nat);
        assert(s.push(x).drop_last() =~= s);
    }
}

/// Every element is below 65536.
pub proof fn lemma_occurrences_below_all(s: Seq<u16>)
    ensures
        occurrences_below(s, 65536) == s.len(),
    decreases s.len(),
{
    if s.len() == 0 {
        lemma_occurrences_below_none(s, 65536);
    } else {
        lemma_occurrences_below_all(s.drop_last());
        lemma_occurrences_below_push(s.drop_last(), s.last(), 65536);
        assert(s.drop_last().push(s.last()) =~= s);
    }
}

/// Nothing occurs in an empty sequence.
pub proof fn lemma_occurrences_below_none(s: Seq<u16>, bound: nat)
    requires
        s.len() == 0,
        bound <= 65536,
    ensures
        occurrences_below(s, bound) == 0,
    decreases bound,
{
    if bound > 0 {
        lemma_occurrences_below_none(s, (bound - 1) as nat);
    }
}

/// The faces of a die: `die_val_input` where it holds any, else the faces
/// `die_min ..= die_max`.
pub fn get_die_vals(die_min: u16, die_max: u16, die_val_input: Vec<u16>) -> (die_vals: Vec<u16>)
    ensures
        die_val_input.len() > 0 ==> die_vals@ == die_val_input@,
        die_val_input.len() == 0 ==> die_vals@ == value_range(die_min, die_max),
{
    if die_val_input.len() > 0 {
        die_val_input
    } else {
        fill_range(die_min, die_max)
    }
}

/// Lists the sum of every way to roll `count` dice with the faces `values`,
/// on top of `sum`: one entry for each way.
pub fn get_roll_counts(values: &Vec<u16>, count: u16, sum: u16) -> (counts: Vec<u16>)
    requires
        sum + count * max_value(values@) <= u16::MAX,
    ensures
        counts@ == roll_list(values@, count as nat, sum),
        counts@.len() == pow(values@.len() as int, count as nat),
        forall|v: u16| occurrences(counts@, v) == ways(values@, count as nat, v - sum),
    decreases count,
{
    let mut counts: Vec<u16> = Vec::new();
    if count == 0 {
        counts.push(sum);
        proof {
            reveal_with_fuel(pow, 1);
            reveal_with_fuel(occurrences, 2);
            assert(counts@.drop_last() =~= Seq::<u16>::empty());
            assert(counts@ =~= seq![sum]);
        }
        return counts;
    }
    let ghost below = pow(values@.len() as int, (count - 1) as nat);
    let mut i: usize = 0;
    while i < values.len()
        invariant
            i <= values.len(),
            count > 0,
            sum + count * max_value(values@) <= u16::MAX,
            below == pow(values@.len() as int, (count - 1) as nat),
            counts@.len() == i * below,
            counts@ == roll_list_first(values@, count as nat, sum, i as nat),
            forall|v: u16|
                occurrences(counts@, v) == ways_first(values@, count as nat, v - sum, i as nat),
        decreases values.len() - i,
    {
        let value = values[i];
        proof {
            lemma_max_value(values@);
            assert(sum + value + (count - 1) * max_value(values@) <= u16::MAX) by (nonlinear_arith)
                requires
                    sum + count * max_value(values@) <= u16::MAX,
                    value <= max_value(values@),
                    count > 0,
            ;
        }
        let mut more = get_roll_counts(values, count - 1, sum + value);
        let ghost before = counts@;
        let ghost added = more@;
        counts.append(&mut more);
        proof {
            assert forall|v: u16|
                occurrences(counts@, v) == ways_first(
                    values@,
                    count as nat,
                    v - sum,
                    (i + 1) as nat,
                ) by {
                lemma_occurrences_add(before, added, v);
            }
            assert((i + 1) * below == i * below + below) by (nonlinear_arith);
        }
        i += 1;
    }
    proof {
        reveal_with_fuel(pow, 1);
    }
    counts
}

/// The table of the sums listed in `rolls`: each sum that occurs, in rising
/// order, with the number of times it occurs.
pub fn get_roll_probabilities(rolls: &Vec<u16>) -> (roll_probabilities: RollProbs)
    ensures
        roll_probabilities.wf(),
        roll_probabilities.total == rolls@.len(),
        table_of(roll_probabilities@, rolls@),
{
    let mut roll_counts: Vec<u128> = Vec::new();
    let mut n: usize = 0;
    while n < 65536
        invariant
            n <= 65536,
            roll_counts@.len() == n,
            forall|v: int| 0 <= v < n ==> roll_counts@[v] == 0,
        decreases 65536 - n,
    {
        roll_counts.push(0);
        n += 1;
    }
    let mut i: usize = 0;
    while i < rolls.len()
        invariant
            i <= rolls.len(),
            roll_counts@.len() == 65536,
            forall|v: u16| roll_counts@[v as int] == occurrences(rolls@.take(i as int), v),
        decreases rolls.len() - i,
    {
        let roll = rolls[i];
        assert(rolls@.take(i + 1).drop_last() =~= rolls@.take(i as int));
        let seen = roll_counts[roll as usize];
        assert(seen == occurrences(rolls@.take(i as int), roll));
        proof {
            lemma_occurrences_bound(rolls@.take(i as int), roll);
        }
        roll_counts.set(roll as usize, seen + 1);
        i += 1;
    }
    assert(rolls@.take(i as int) =~= rolls@);
    let mut chances: Vec<RollChance> = Vec::new();
    let mut total: u128 = 0;
    let mut s: usize = 0;
    while s < 65536
        invariant
            s <= 65536,
            roll_counts@.len() == 65536,
            forall|v: u16| roll_counts@[v as int] == occurrences(rolls@, v),
            rolls_rise(chances@),
            forall|j: int| 0 <= j < chances@.len() ==> (#[trigger] chances@[j]).roll < s,
            forall|j: int| 0 <= j < chances@.len() ==> (#[trigger] chances@[j]).count > 0,
            forall|j: int|
                0 <= j < chances@.len() ==> (#[trigger] chances@[j]).count == occurrences(
                    rolls@,
                    chances@[j].roll,
                ),
            forall|v: u16| v < s && occurrences(rolls@, v) > 0 ==> has_roll(chances@, v),
            total == count_sum(chances@, chances@.len()),
            total == occurrences_below(rolls@, s as nat),
            total <= rolls@.len(),
            rolls@.len() <= usize::MAX,
        decreases 65536 - s,
    {
        let count = roll_counts[s];
        assert(count == occurrences(rolls@, s as u16));
        proof {
            lemma_occurrences_below_all(rolls@);
            lemma_occurrences_below_rises(rolls@, (s + 1) as nat, 65536);
            assert(occurrences_below(rolls@, (s + 1) as nat) == total + count);
        }
        if count > 0 {
            let ghost before = chances@;
            chances.push(RollChance { roll: s as u16, count });
            proof {
                assert(chances@.drop_last() =~= before);
                lemma_count_sum_same(before, chances@, before.len());
                assert forall|v: u16| v < s + 1 && occurrences(rolls@, v) > 0 implies has_roll(
                    chances@,
                    v,
                ) by {
                    if v < s {
                        assert(has_roll(before, v));
                        let j = choose|j: int|
                            0 <= j < before.len() && (#[trigger] before[j]).roll == v;
                        assert(chances@[j].roll == v);
                    } else {
                        assert(chances@[chances@.len() - 1].roll == v);
                    }
                }
            }
            total = total + count;
        }
        s += 1;
    }
    proof {
        lemma_occurrences_below_all(rolls@);
    }
    table_of_lines(&chances, total)
}

/// Files the lines of a table, which stand in rising order of their sums,
/// each under its sum.
fn table_of_lines(lines: &Vec<RollChance>, total: u128) -> (table: RollProbs)
    requires
        rolls_rise(lines@),
    ensures
        table@ == lines@,
        table.total == total,
        forall|roll: u16| #[trigger] table.chances@.contains_key(roll) <==> table.rolls@.contains(roll),
{
    let mut chances: HashMap<u16, u128> = HashMap::new();
    let mut rolls: Vec<u16> = Vec::new();
    let mut i: usize = 0;
    while i < lines.len()
        invariant
            i <= lines.len(),
            rolls_rise(lines@),
            rolls@.len() == i,
            forall|j: int| 0 <= j < i ==> rolls@[j] == (#[trigger] lines@[j]).roll,
            forall|j: int|
                0 <= j < i ==> chances@.contains_key((#[trigger] lines@[j]).roll)
                    && chances@[lines@[j].roll] == lines@[j].count,
            forall|roll: u16| #[trigger] chances@.contains_key(roll) ==> rolls@.contains(roll),
        decreases lines.len() - i,
    {
        let line = lines[i];
        let ghost before = rolls@;
        assert forall|j: int| 0 <= j < i implies (#[trigger] lines@[j]).roll != line.roll by {
            assert(lines@[j].roll < lines@[i as int].roll);
        }
        rolls.push(line.roll);
        chances.insert(line.roll, line.count);
        proof {
            assert forall|roll: u16| #[trigger] chances@.contains_key(roll) implies rolls@.contains(
                roll,
            ) by {
                if roll == line.roll {
                    assert(rolls@[i as int] == roll);
                } else {
                    let j = choose|j: int| 0 <= j < before.len() && before[j] == roll;
                    assert(rolls@[j] == roll);
                }
            }
        }
        i += 1;
    }
    let table = RollProbs { chances, rolls, total };
    proof {
        assert(table@ =~= lines@);
        assert forall|roll: u16| table.rolls@.contains(roll) implies #[trigger] table.chances@.contains_key(
            roll,
        ) by {
            let j = choose|j: int| 0 <= j < table.rolls@.len() && table.rolls@[j] == roll;
            assert(lines@[j].roll == roll);
        }
    }
    table
}

/// Nothing occurs more often than there are elements.
pub proof fn lemma_occurrences_bound(s: Seq<u16>, v: u16)
    ensures
        occurrences(s, v) <= s.len(),
    decreases s.len(),
{
    if s.len() > 0 {
        lemma_occurrences_bound(s.drop_last(), v);
    }
}

/// What lies below a bound lies below every greater one.
pub proof fn lemma_occurrences_below_rises(s: Seq<u16>, a: nat, b: nat)
    requires
        a <= b <= 65536,
    ensures
        occurrences_below(s, a) <= occurrences_below(s, b),
    decreases b,
{
    if a < b {
        lemma_occurrences_below_rises(s, a, (b - 1) as nat);
    }
}

/// The counts of the first lines do not depend on the lines after them.
pub proof fn lemma_count_sum_same(a: Seq<RollChance>, b: Seq<RollChance>, upto: nat)
    requires
        upto <= a.len(),
        upto <= b.len(),
        forall|i: int| 0 <= i < upto ==> a[i] == b[i],
    ensures
        count_sum(a, upto) == count_sum(b, upto),
    decreases upto,
{
    if upto > 0 {
        lemma_count_sum_same(a, b, (upto - 1) as nat);
    }
}

/// The table of `die_cnt` dice with the faces `die_vals`, on top of `sum`.
pub fn get_roll_probs(die_vals: &Vec<u16>, die_cnt: u16, sum: u16) -> (roll_probs: RollProbs)
    requires
        sum + die_cnt * max_value(die_vals@) <= u16::MAX,
    ensures
        roll_probs.wf(),
        roll_probs.total == pow(die_vals@.len() as int, die_cnt as nat),
        table_of_dice(roll_probs@, die_vals@, die_cnt as nat, sum as int),
{
    let rolls = get_roll_counts(die_vals, die_cnt, sum);
    let roll_probs = get_roll_probabilities(&rolls);
    proof {
        assert forall|v: u16|
            ways(die_vals@, die_cnt as nat, v - sum) > 0 implies has_roll(roll_probs@, v) by {
            assert(occurrences(rolls@, v) > 0);
        }
    }
    roll_probs
}

} // verus!
