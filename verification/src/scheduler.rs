//! Which models fit into memory together.
use vstd::prelude::*;

verus! {

/// What the models at some positions take together.
pub open spec fn sum_at(estimates: Seq<u64>, set: Seq<usize>) -> nat
    decreases set.len(),
{
    if set.len() == 0 {
        0
    } else {
        sum_at(estimates, set.drop_last()) + estimates[set.last() as int] as nat
    }
}

/// A sum as far as a 64-bit number can count.
pub open spec fn counted(n: nat) -> nat {
    if n > u64::MAX {
        u64::MAX as nat
    } else {
        n
    }
}

/// Rising positions of models.
pub open spec fn is_set(estimates: Seq<u64>, set: Seq<usize>) -> bool {
    &&& forall|i: int| 0 <= i < set.len() ==> #[trigger] set[i] < estimates.len()
    &&& forall|i: int, j: int| 0 <= i < j < set.len() ==> #[trigger] set[i] < #[trigger] set[j]
}

/// A set of at most `max` models that fits into the budget.
pub open spec fn fits(estimates: Seq<u64>, budget: u64, max: nat, set: Seq<usize>) -> bool {
    &&& is_set(estimates, set)
    &&& set.len() <= max
    &&& counted(sum_at(estimates, set)) <= budget
}

/// Whether another model could join a set.
pub open spec fn extensible(estimates: Seq<u64>, budget: u64, max: nat, set: Seq<usize>) -> bool {
    &&& set.len() < max
    &&& exists|i: int|
        #![trigger estimates[i]]
        0 <= i < estimates.len() && !set.contains(i as usize) && counted(
            sum_at(estimates, set) + estimates[i] as nat,
        ) <= budget
}

/// A set of two or more models that fits and that no other model could join.
pub open spec fn maximal(estimates: Seq<u64>, budget: u64, max: nat, set: Seq<usize>) -> bool {
    &&& fits(estimates, budget, max, set)
    &&& set.len() >= 2
    &&& !extensible(estimates, budget, max, set)
}

/// The order of sets by their first different position.
pub open spec fn precedes(a: Seq<usize>, b: Seq<usize>) -> bool
    decreases a.len(),
{
    if b.len() == 0 {
        false
    } else if a.len() == 0 {
        true
    } else if a[0] != b[0] {
        a[0] < b[0]
    } else {
        precedes(a.skip(1), b.skip(1))
    }
}

pub open spec fn in_order(sets: Seq<Seq<usize>>) -> bool {
    forall|i: int, j: int|
        0 <= i < j < sets.len() ==> precedes(#[trigger] sets[i], #[trigger] sets[j])
}

/// The views of some sets.
pub open spec fn set_views(sets: Seq<Vec<usize>>) -> Seq<Seq<usize>> {
    sets.map_values(|s: Vec<usize>| s@)
}

/// A set that starts with `front` and goes on at `start` or later, if it goes
/// on.
pub open spec fn continues(front: Seq<usize>, start: int, set: Seq<usize>) -> bool {
    &&& front.is_prefix_of(set)
    &&& set.len() > front.len() ==> set[front.len() as int] >= start
}

/// A common front does not change the order.
proof fn lemma_precedes_front(front: Seq<usize>, a: Seq<usize>, b: Seq<usize>)
    requires
        front.is_prefix_of(a),
        front.is_prefix_of(b),
        b.len() > front.len(),
        a.len() == front.len() || a[front.len() as int] < b[front.len() as int],
    ensures
        precedes(a, b),
    decreases front.len(),
{
    if front.len() > 0 {
        assert(a[0] == front[0] && b[0] == front[0]);
        let rest = front.skip(1);
        assert(rest =~= a.skip(1).take(rest.len() as int));
        assert(rest =~= b.skip(1).take(rest.len() as int));
        if a.len() > front.len() {
            assert(a.skip(1)[rest.len() as int] == a[front.len() as int]);
        }
        assert(b.skip(1)[rest.len() as int] == b[front.len() as int]);
        lemma_precedes_front(rest, a.skip(1), b.skip(1));
    }
}

/// A part of a set takes no more than the set.
proof fn lemma_sum_grows(estimates: Seq<u64>, set: Seq<usize>, n: int)
    requires
        0 <= n <= set.len(),
    ensures
        sum_at(estimates, set.take(n)) <= sum_at(estimates, set),
    decreases set.len() - n,
{
    if n < set.len() {
        lemma_sum_grows(estimates, set, n + 1);
        assert(set.take(n + 1).drop_last() =~= set.take(n));
    } else {
        assert(set.take(n) =~= set);
    }
}

/// Whether another model could join `selected`.
fn can_extend(
    estimates: &[u64],
    budget: u64,
    max_size: usize,
    total: u64,
    selected: &Vec<usize>,
) -> (yes: bool)
    requires
        total == counted(sum_at(estimates@, selected@)),
    ensures
        yes == extensible(estimates@, budget, max_size as nat, selected@),
{
    if selected.len() >= max_size {
        return false;
    }
    let mut i: usize = 0;
    while i < estimates.len()
        invariant
            i <= estimates@.len(),
            total == counted(sum_at(estimates@, selected@)),
            selected@.len() < max_size,
            forall|j: int|
                #![trigger estimates@[j]]
                0 <= j < i ==> !(!selected@.contains(j as usize) && counted(
                    sum_at(estimates@, selected@) + estimates@[j] as nat,
                ) <= budget),
        decreases estimates@.len() - i,
    {
        let mut taken: bool = false;
        let mut k: usize = 0;
        while k < selected.len()
            invariant
                k <= selected@.len(),
                taken == (exists|j: int| 0 <= j < k && #[trigger] selected@[j] == i),
            decreases selected@.len() - k,
        {
            if selected[k] == i {
                taken = true;
            }
            k += 1;
        }
        if !taken && total.saturating_add(estimates[i]) <= budget {
            proof {
                assert(0 <= i < estimates@.len() && !selected@.contains(i));
                assert(counted(sum_at(estimates@, selected@) + estimates@[i as int] as nat)
                    <= budget);
            }
            return true;
        }
        i += 1;
    }
    false
}

/// Appends the maximal sets that start with `selected` and go on at `start` or
/// later.
fn visit(
    estimates: &[u64],
    budget: u64,
    max_size: usize,
    start: usize,
    total: u64,
    selected: &mut Vec<usize>,
    output: &mut Vec<Vec<usize>>,
)
    requires
        start <= estimates@.len(),
        fits(estimates@, budget, max_size as nat, old(selected)@),
        total == counted(sum_at(estimates@, old(selected)@)),
        forall|i: int| 0 <= i < old(selected)@.len() ==> #[trigger] old(selected)@[i] < start,
    ensures
        final(selected)@ == old(selected)@,
        exists|new: Seq<Seq<usize>>|
            {
                &&& set_views(final(output)@) == set_views(old(output)@) + new
                &&& lists(estimates@, budget, max_size as nat, old(selected)@, start as int, new)
            },
    decreases estimates@.len() - start,
{
    let ghost front = selected@;
    let ghost max = max_size as nat;
    let ghost before = set_views(output@);
    let ghost mut new: Seq<Seq<usize>> = seq![];
    if selected.len() >= 2 {
        if !can_extend(estimates, budget, max_size, total, selected) {
            output.push(selected.clone());
            proof {
                new = new.push(front);
                assert(set_views(output@) =~= before + new);
            }
        }
    }
    if selected.len() == max_size {
        proof {
            assert(set_views(output@) =~= before + new);
            assert forall|s: Seq<usize>|
                maximal(estimates@, budget, max, s) && continues(
                    front,
                    start as int,
                    s,
                ) implies #[trigger] new.contains(s) by {
                assert(s =~= front);
                assert(new[0] == s);
            }
            assert(lists(estimates@, budget, max, front, start as int, new));
        }
        return ;
    }
    let mut index: usize = start;
    proof {
        assert(set_views(output@) =~= before + new);
        assert forall|s: Seq<usize>|
            maximal(estimates@, budget, max, s) && continues(front, start as int, s) && (s.len()
                == front.len() || s[front.len() as int] < start) implies #[trigger] new.contains(
            s,
        ) by {
            assert(s =~= front);
            assert(new[0] == s);
        }
    }
    while index < estimates.len()
        invariant
            start <= index <= estimates@.len(),
            selected@ == front,
            max == max_size,
            front.len() < max,
            fits(estimates@, budget, max, front),
            total == counted(sum_at(estimates@, front)),
            forall|i: int| 0 <= i < front.len() ==> #[trigger] front[i] < start,
            set_views(output@) == before + new,
            lists_until(estimates@, budget, max, front, start as int, index as int, new),
        decreases estimates@.len() - index,
    {
        let next: u64 = total.saturating_add(estimates[index]);
        let ghost longer = front.push(index);
        proof {
            assert(longer.drop_last() =~= front);
            assert(next == counted(sum_at(estimates@, longer)));
        }
        if next > budget {
            proof {
                assert forall|s: Seq<usize>|
                    maximal(estimates@, budget, max, s) && continues(front, start as int, s)
                        && (s.len() == front.len() || s[front.len() as int] < index
                        + 1) implies #[trigger] new.contains(s) by {
                    if s.len() > front.len() && s[front.len() as int] == index {
                        lemma_sum_grows(estimates@, s, front.len() as int + 1);
                        assert(s.take(front.len() as int + 1) =~= longer);
                    }
                }
            }
            index += 1;
            continue;
        }
        selected.push(index);
        let ghost middle = set_views(output@);
        visit(estimates, budget, max_size, index + 1, next, selected, output);
        let ghost added = choose|new: Seq<Seq<usize>>|
            {
                &&& set_views(output@) == middle + new
                &&& lists(estimates@, budget, max, longer, index + 1, new)
            };
        let _ = selected.pop();
        proof {
            assert(selected@ =~= front);
            let all = new + added;
            assert(set_views(output@) =~= before + all);
            assert forall|i: int| 0 <= i < all.len() implies maximal(
                estimates@,
                budget,
                max,
                #[trigger] all[i],
            ) && continues(front, start as int, all[i]) && (all[i].len() == front.len()
                || all[i][front.len() as int] < index + 1) by {
                if i < new.len() {
                    assert(all[i] == new[i]);
                } else {
                    let s = added[i - new.len()];
                    assert(all[i] == s);
                    assert(s[front.len() as int] == longer[front.len() as int]);
                    assert(front =~= s.take(front.len() as int)) by {
                        assert(longer =~= s.take(longer.len() as int));
                    }
                }
            }
            assert forall|i: int, j: int| 0 <= i < j < all.len() implies precedes(
                #[trigger] all[i],
                #[trigger] all[j],
            ) by {
                if j < new.len() {
                    assert(all[i] == new[i] && all[j] == new[j]);
                } else if i >= new.len() {
                    assert(all[i] == added[i - new.len()] && all[j] == added[j - new.len()]);
                } else {
                    let a = new[i];
                    let b = added[j - new.len()];
                    assert(all[i] == a && all[j] == b);
                    assert(b[front.len() as int] == longer[front.len() as int]);
                    assert(front =~= b.take(front.len() as int)) by {
                        assert(longer =~= b.take(longer.len() as int));
                    }
                    lemma_precedes_front(front, a, b);
                }
            }
            assert forall|s: Seq<usize>|
                maximal(estimates@, budget, max, s) && continues(front, start as int, s) && (s.len()
                    == front.len() || s[front.len() as int] < index
                    + 1) implies #[trigger] all.contains(s) by {
                if s.len() > front.len() && s[front.len() as int] == index {
                    assert(longer =~= s.take(longer.len() as int));
                    if s.len() > longer.len() {
                        assert(s[front.len() as int] < s[longer.len() as int]);
                    }
                    assert(added.contains(s));
                    let k = choose|k: int| 0 <= k < added.len() && added[k] == s;
                    assert(all[new.len() + k] == s);
                } else {
                    assert(new.contains(s));
                    let k = choose|k: int| 0 <= k < new.len() && new[k] == s;
                    assert(all[k] == s);
                }
            }
            new = all;
        }
        index += 1;
    }
    proof {
        assert forall|s: Seq<usize>|
            maximal(estimates@, budget, max, s) && continues(
                front,
                start as int,
                s,
            ) implies #[trigger] new.contains(s) by {
            if s.len() > front.len() {
                assert(s[front.len() as int] < estimates@.len());
            }
        }
        assert(lists(estimates@, budget, max, front, start as int, new));
    }
}

/// `new` lists, in order, the maximal sets that start with `front` and go on at
/// `start` or later.
pub open spec fn lists(
    estimates: Seq<u64>,
    budget: u64,
    max: nat,
    front: Seq<usize>,
    start: int,
    new: Seq<Seq<usize>>,
) -> bool {
    &&& forall|i: int|
        0 <= i < new.len() ==> maximal(estimates, budget, max, #[trigger] new[i]) && continues(
            front,
            start,
            new[i],
        )
    &&& forall|s: Seq<usize>|
        maximal(estimates, budget, max, s) && continues(front, start, s)
            ==> #[trigger] new.contains(s)
    &&& in_order(new)
}

/// `lists`, for the sets that end with `front` or go on before `until`.
spec fn lists_until(
    estimates: Seq<u64>,
    budget: u64,
    max: nat,
    front: Seq<usize>,
    start: int,
    until: int,
    new: Seq<Seq<usize>>,
) -> bool {
    &&& forall|i: int|
        0 <= i < new.len() ==> maximal(estimates, budget, max, #[trigger] new[i]) && continues(
            front,
            start,
            new[i],
        ) && (new[i].len() == front.len() || new[i][front.len() as int] < until)
    &&& forall|s: Seq<usize>|
        maximal(estimates, budget, max, s) && continues(front, start, s) && (s.len() == front.len()
            || s[front.len() as int] < until) ==> #[trigger] new.contains(s)
    &&& in_order(new)
}

/// All sets of two or more and at most `max_size` models that fit into the budget
/// together and that no other model could join, each once, in the order of their
/// positions.
pub open spec fn are_maximal(
    estimates: Seq<u64>,
    budget: u64,
    max_size: nat,
    sets: Seq<Seq<usize>>,
) -> bool {
    if max_size < 2 {
        sets.len() == 0
    } else {
        let max = if max_size < estimates.len() {
            max_size
        } else {
            estimates.len()
        };
        &&& forall|i: int|
            0 <= i < sets.len() ==> maximal(estimates, budget, max, #[trigger] sets[i])
        &&& forall|s: Seq<usize>|
            maximal(estimates, budget, max, s) ==> #[trigger] sets.contains(s)
        &&& in_order(sets)
    }
}

/// The sets of two or more models that fit into the budget together and that no
/// other model could join, each once, in the order of their positions.
pub fn maximal_fitting_sets(estimates: &[u64], budget: u64, max_size: usize) -> (out: Vec<
    Vec<usize>,
>)
    ensures
        are_maximal(estimates@, budget, max_size as nat, set_views(out@)),
{
    if max_size < 2 {
        return Vec::new();
    }
    let max: usize = if max_size < estimates.len() { max_size } else { estimates.len() };
    let mut output: Vec<Vec<usize>> = Vec::new();
    let mut selected: Vec<usize> = Vec::new();
    proof {
        assert(set_views(output@) =~= seq![]);
    }
    visit(estimates, budget, max, 0, 0, &mut selected, &mut output);
    proof {
        let none = Seq::<usize>::empty();
        let sets = set_views(output@);
        let new = choose|new: Seq<Seq<usize>>|
            {
                &&& sets == Seq::<Seq<usize>>::empty() + new
                &&& lists(estimates@, budget, max as nat, none, 0, new)
            };
        assert(sets =~= new);
        assert forall|s: Seq<usize>|
            maximal(estimates@, budget, max as nat, s) implies #[trigger] sets.contains(s) by {
            assert(none =~= s.take(0));
            assert(continues(none, 0, s));
        }
    }
    output
}

/// No set stands before itself, so that sets in order are all different.
pub proof fn precedes_is_irreflexive(a: Seq<usize>)
    ensures
        !precedes(a, a),
    decreases a.len(),
{
    if a.len() > 0 {
        precedes_is_irreflexive(a.skip(1));
    }
}

} // verus!
