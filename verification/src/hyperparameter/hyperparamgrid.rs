//! The grid of hyper-parameter values and its combinations.

use vstd::prelude::*;

verus! {

/// For each parameter, by name, the values to try. No name stands twice.
pub struct HyperParamGrid {
    pub param_grid: Vec<(String, Vec<usize>)>,
}

/// The number of ways to pick one value from each of the first `upto` lists.
pub open spec fn choices(lists: Seq<Seq<usize>>, upto: nat) -> nat
    decreases upto,
{
    if upto == 0 || upto > lists.len() {
        1
    } else {
        choices(lists, (upto - 1) as nat) * lists[upto - 1].len()
    }
}

/// The number of combinations: one value from each list; none where there is no list.
pub open spec fn combination_count(lists: Seq<Seq<usize>>) -> nat {
    if lists.len() == 0 {
        0
    } else {
        choices(lists, lists.len())
    }
}

/// The values of combination `j` over the first `upto` lists. The value from the last
/// list changes fastest as `j` grows, the value from the first list slowest.
pub open spec fn combination(lists: Seq<Seq<usize>>, upto: nat, j: nat) -> Seq<usize>
    decreases upto,
{
    if upto == 0 || upto > lists.len() {
        Seq::empty()
    } else {
        let width = lists[upto - 1].len();
        combination(lists, (upto - 1) as nat, j / width).push(lists[upto - 1][(j % width) as int])
    }
}

/// What the count of combinations comes to when it is taken list by list, a count of
/// 0 being replaced by the length of the next list.
pub open spec fn running_quantity(lists: Seq<Seq<usize>>, upto: nat) -> nat
    decreases upto,
{
    if upto == 0 || upto > lists.len() {
        0
    } else {
        let before = running_quantity(lists, (upto - 1) as nat);
        if before == 0 {
            lists[upto - 1].len()
        } else {
            before * lists[upto - 1].len()
        }
    }
}

/// Where no list is empty, the running quantity is the number of combinations.
pub proof fn lemma_running_quantity(lists: Seq<Seq<usize>>, upto: nat)
    requires
        0 < upto <= lists.len(),
        forall|p: int| 0 <= p < lists.len() ==> (#[trigger] lists[p]).len() > 0,
    ensures
        running_quantity(lists, upto) == choices(lists, upto),
        choices(lists, upto) > 0,
    decreases upto,
{
    let width = lists[upto - 1].len();
    if upto > 1 {
        lemma_running_quantity(lists, (upto - 1) as nat);
        let before = choices(lists, (upto - 1) as nat);
        assert(before * width > 0) by (nonlinear_arith)
            requires
                before > 0,
                width > 0,
        ;
        assert(running_quantity(lists, upto) == before * width);
        assert(choices(lists, upto) == before * width);
    } else {
        assert(choices(lists, 0) == 1);
        assert(running_quantity(lists, 0) == 0);
        assert(running_quantity(lists, upto) == width);
        assert(choices(lists, upto) == choices(lists, 0) * width);
        assert(1 * width == width) by (nonlinear_arith);
    }
}

/// `SliceRandom::shuffle` of the `rand` crate with the thread's generator: the values
/// stand in another order, none is lost and none is new.
#[verifier::external_body]
fn shuffle(order: &mut Vec<usize>)
    ensures
        final(order)@.to_multiset() == old(order)@.to_multiset(),
{
    rand::seq::SliceRandom::shuffle(order.as_mut_slice(), &mut rand::thread_rng());
}

/// A copy of a combination.
pub fn copy_combination(combination: &Vec<(String, usize)>) -> (copy: Vec<(String, usize)>)
    ensures
        copy@.len() == combination@.len(),
        forall|p: int|
            0 <= p < copy@.len() ==> (#[trigger] copy@[p]).0@ == combination@[p].0@ && copy@[p].1
                == combination@[p].1,
{
    let mut copy: Vec<(String, usize)> = Vec::new();
    let n: usize = combination.len();
    let mut p: usize = 0;
    while p < n
        invariant
            0 <= p <= n,
            n == combination@.len(),
            copy@.len() == p,
            forall|i: int|
                0 <= i < p ==> (#[trigger] copy@[i]).0@ == combination@[i].0@ && copy@[i].1
                    == combination@[i].1,
        decreases n - p,
    {
        copy.push((combination[p].0.clone(), combination[p].1));
        p = p + 1;
    }
    copy
}

/// The first `n` combinations in the given order, or all of the order if it names
/// fewer: pick `i` is a copy of the combination that `order[i]` names.
pub fn pick_combinations(
    all: &Vec<Vec<(String, usize)>>,
    order: &Vec<usize>,
    n: usize,
) -> (picked: Vec<Vec<(String, usize)>>)
    requires
        forall|i: int| 0 <= i < order@.len() ==> (#[trigger] order@[i]) < all@.len(),
    ensures
        picked@.len() == (if n <= order@.len() {
            n as nat
        } else {
            order@.len()
        }),
        forall|i: int|
            0 <= i < picked@.len() ==> (#[trigger] picked@[i])@.len() == all@[order@[i] as int]@.len(),
        forall|i: int, p: int|
            0 <= i < picked@.len() && 0 <= p < picked@[i]@.len() ==> {
                &&& (#[trigger] picked@[i]@[p]).0@ == all@[order@[i] as int]@[p].0@
                &&& picked@[i]@[p].1 == all@[order@[i] as int]@[p].1
            },
{
    let limit: usize = if n <= order.len() {
        n
    } else {
        order.len()
    };
    let mut picked: Vec<Vec<(String, usize)>> = Vec::new();
    let mut i: usize = 0;
    while i < limit
        invariant
            0 <= i <= limit,
            limit <= order@.len(),
            picked@.len() == i,
            forall|v: int| 0 <= v < order@.len() ==> (#[trigger] order@[v]) < all@.len(),
            forall|v: int|
                0 <= v < i ==> (#[trigger] picked@[v])@.len() == all@[order@[v] as int]@.len(),
            forall|v: int, p: int|
                0 <= v < i && 0 <= p < picked@[v]@.len() ==> {
                    &&& (#[trigger] picked@[v]@[p]).0@ == all@[order@[v] as int]@[p].0@
                    &&& picked@[v]@[p].1 == all@[order@[v] as int]@[p].1
                },
        decreases limit - i,
    {
        picked.push(copy_combination(&all[order[i]]));
        i = i + 1;
    }
    picked
}

/// The lists of values of a grid.
pub open spec fn value_lists(grid: Seq<(String, Vec<usize>)>) -> Seq<Seq<usize>> {
    Seq::new(grid.len(), |p: int| grid[p].1@)
}

/// The lists of values as sequences.
pub open spec fn list_views(lists: Seq<Vec<usize>>) -> Seq<Seq<usize>> {
    Seq::new(lists.len(), |p: int| lists[p]@)
}

/// A copy of a list of values.
pub fn copy_values(values: &Vec<usize>) -> (copy: Vec<usize>)
    ensures
        copy@ == values@,
{
    let mut copy: Vec<usize> = Vec::new();
    let n: usize = values.len();
    let mut i: usize = 0;
    while i < n
        invariant
            0 <= i <= n,
            n == values@.len(),
            copy@ == values@.take(i as int),
        decreases n - i,
    {
        copy.push(values[i]);
        assert(values@.take(i as int + 1) =~= values@.take(i as int).push(values@[i as int]));
        i = i + 1;
    }
    assert(values@.take(n as int) =~= values@);
    copy
}

impl HyperParamGrid {
    /// All ways to pick one value from each list, in the order of
    /// [`combination`]; none where there is no list.
    pub fn cartesian_product(lists: &Vec<Vec<usize>>) -> (product: Vec<Vec<usize>>)
        ensures
            product@.len() == combination_count(list_views(lists@)),
            forall|j: int|
                0 <= j < product@.len() ==> (#[trigger] product@[j])@ == combination(
                    list_views(lists@),
                    lists@.len(),
                    j as nat,
                ) && product@[j]@.len() == lists@.len(),
    {
        let ghost all = list_views(lists@);
        let mut res: Vec<Vec<usize>> = Vec::new();
        let count: usize = lists.len();
        if count == 0 {
            return res;
        }
        res.push(Vec::new());
        let mut p: usize = 0;
        proof {
            assert(combination(all, 0, 0) =~= Seq::<usize>::empty());
        }
        while p < count
            invariant
                0 <= p <= count,
                count == lists@.len(),
                count > 0,
                all == list_views(lists@),
                res@.len() == choices(all, p as nat),
                forall|j: int|
                    0 <= j < res@.len() ==> (#[trigger] res@[j])@ == combination(all, p as nat, j as nat)
                        && res@[j]@.len() == p,
            decreases count - p,
        {
            let list: &Vec<usize> = &lists[p];
            let width: usize = list.len();
            assert(all[p as int] == list@);
            let mut tmp: Vec<Vec<usize>> = Vec::new();
            let rows: usize = res.len();
            let mut r: usize = 0;
            while r < rows
                invariant
                    0 <= r <= rows,
                    rows == res@.len(),
                    0 <= p < count,
                    count == all.len(),
                    width == list@.len(),
                    all[p as int] == list@,
                    tmp@.len() == r * width,
                    forall|j: int|
                        0 <= j < res@.len() ==> (#[trigger] res@[j])@ == combination(
                            all,
                            p as nat,
                            j as nat,
                        ) && res@[j]@.len() == p,
                    forall|j: int|
                        0 <= j < tmp@.len() ==> (#[trigger] tmp@[j])@ == combination(
                            all,
                            (p + 1) as nat,
                            j as nat,
                        ) && tmp@[j]@.len() == p + 1,
                decreases rows - r,
            {
                let mut e: usize = 0;
                while e < width
                    invariant
                        0 <= e <= width,
                        0 <= r < rows,
                        rows == res@.len(),
                        0 <= p < count,
                        count == all.len(),
                        width == list@.len(),
                        all[p as int] == list@,
                        tmp@.len() == r * width + e,
                        forall|j: int|
                            0 <= j < res@.len() ==> (#[trigger] res@[j])@ == combination(
                                all,
                                p as nat,
                                j as nat,
                            ) && res@[j]@.len() == p,
                        forall|j: int|
                            0 <= j < tmp@.len() ==> (#[trigger] tmp@[j])@ == combination(
                                all,
                                (p + 1) as nat,
                                j as nat,
                            ) && tmp@[j]@.len() == p + 1,
                    decreases width - e,
                {
                    let mut row: Vec<usize> = copy_values(&res[r]);
                    row.push(list[e]);
                    proof {
                        let j = r * width + e;
                        vstd::arithmetic::div_mod::lemma_fundamental_div_mod_converse(
                            j as int,
                            width as int,
                            r as int,
                            e as int,
                        );
                        assert(row@ == combination(all, (p + 1) as nat, j as nat));
                    }
                    tmp.push(row);
                    e = e + 1;
                }
                proof {
                    assert((r + 1) * width == r * width + width) by (nonlinear_arith);
                }
                r = r + 1;
            }
            res = tmp;
            p = p + 1;
        }
        res
    }

    /// The lists of values of the grid, in its order.
    pub fn values(&self) -> (lists: Vec<Vec<usize>>)
        ensures
            list_views(lists@) == value_lists(self.param_grid@),
    {
        let mut lists: Vec<Vec<usize>> = Vec::new();
        let n: usize = self.param_grid.len();
        let mut p: usize = 0;
        while p < n
            invariant
                0 <= p <= n,
                n == self.param_grid@.len(),
                lists@.len() == p,
                forall|i: int| 0 <= i < p ==> (#[trigger] lists@[i])@ == self.param_grid@[i].1@,
            decreases n - p,
        {
            lists.push(copy_values(&self.param_grid[p].1));
            p = p + 1;
        }
        assert(list_views(lists@) =~= value_lists(self.param_grid@));
        lists
    }

    /// All combinations of the grid: each names every parameter of the grid, in the
    /// grid's order, with one of its values; combination `j` holds the values of
    /// [`combination`] `j`.
    pub fn get_all_combinations(&self) -> (combinations: Vec<Vec<(String, usize)>>)
        ensures
            combinations@.len() == combination_count(value_lists(self.param_grid@)),
            forall|j: int|
                0 <= j < combinations@.len() ==> (#[trigger] combinations@[j])@.len()
                    == self.param_grid@.len(),
            forall|j: int, p: int|
                0 <= j < combinations@.len() && 0 <= p < self.param_grid@.len() ==> {
                    &&& (#[trigger] combinations@[j]@[p]).0@ == self.param_grid@[p].0@
                    &&& combinations@[j]@[p].1 == combination(
                        value_lists(self.param_grid@),
                        self.param_grid@.len(),
                        j as nat,
                    )[p]
                },
    {
        let values = self.values();
        let all_pairs = HyperParamGrid::cartesian_product(&values);
        let ghost lists = value_lists(self.param_grid@);
        let n: usize = self.param_grid.len();
        let mut result: Vec<Vec<(String, usize)>> = Vec::new();
        let total: usize = all_pairs.len();
        let mut j: usize = 0;
        assert(values@.len() == n) by {
            assert(list_views(values@).len() == lists.len());
        }
        while j < total
            invariant
                0 <= j <= total,
                total == all_pairs@.len(),
                n == self.param_grid@.len(),
                lists == value_lists(self.param_grid@),
                result@.len() == j,
                forall|i: int|
                    0 <= i < all_pairs@.len() ==> (#[trigger] all_pairs@[i])@ == combination(
                        lists,
                        n as nat,
                        i as nat,
                    ) && all_pairs@[i]@.len() == n,
                forall|i: int| 0 <= i < j ==> (#[trigger] result@[i])@.len() == n,
                forall|i: int, p: int|
                    0 <= i < j && 0 <= p < n ==> {
                        &&& (#[trigger] result@[i]@[p]).0@ == self.param_grid@[p].0@
                        &&& result@[i]@[p].1 == combination(lists, n as nat, i as nat)[p]
                    },
            decreases total - j,
        {
            let param_values: &Vec<usize> = &all_pairs[j];
            let mut combi: Vec<(String, usize)> = Vec::new();
            let mut p: usize = 0;
            while p < n
                invariant
                    0 <= p <= n,
                    n == self.param_grid@.len(),
                    param_values@.len() == n,
                    combi@.len() == p,
                    forall|i: int|
                        0 <= i < p ==> (#[trigger] combi@[i]).0@ == self.param_grid@[i].0@
                            && combi@[i].1 == param_values@[i],
                decreases n - p,
            {
                combi.push((self.param_grid[p].0.clone(), param_values[p]));
                p = p + 1;
            }
            result.push(combi);
            j = j + 1;
        }
        result
    }

    /// Up to `n` combinations of the grid, picked at random, none twice: fewer than
    /// `n` only where the grid has fewer combinations.
    pub fn get_n_random_combinations(&self, n: usize) -> (picked: Vec<Vec<(String, usize)>>)
        ensures
            picked@.len() == (if n <= combination_count(value_lists(self.param_grid@)) {
                n as nat
            } else {
                combination_count(value_lists(self.param_grid@))
            }),
            exists|order: Seq<usize>|
                {
                    &&& order.len() == combination_count(value_lists(self.param_grid@))
                    &&& order.no_duplicates()
                    &&& forall|i: int|
                        0 <= i < picked@.len() ==> {
                            &&& (#[trigger] order[i]) < order.len()
                            &&& picked@[i]@.len() == self.param_grid@.len()
                        }
                    &&& forall|i: int, p: int|
                        0 <= i < picked@.len() && 0 <= p < self.param_grid@.len() ==> {
                            &&& (#[trigger] picked@[i]@[p]).0@ == self.param_grid@[p].0@
                            &&& picked@[i]@[p].1 == combination(
                                value_lists(self.param_grid@),
                                self.param_grid@.len(),
                                order[i] as nat,
                            )[p]
                        }
                },
    {
        let all_combinations = self.get_all_combinations();
        let total: usize = all_combinations.len();
        let mut order: Vec<usize> = Vec::new();
        let mut j: usize = 0;
        while j < total
            invariant
                0 <= j <= total,
                order@.len() == j,
                forall|i: int| 0 <= i < j ==> order@[i] == i,
            decreases total - j,
        {
            order.push(j);
            j = j + 1;
        }
        let ghost sorted = order@;
        shuffle(&mut order);
        proof {
            assert(sorted.no_duplicates());
            sorted.lemma_multiset_has_no_duplicates();
            order@.lemma_multiset_has_no_duplicates_conv();
            assert(order@.len() == sorted.len()) by {
                vstd::seq_lib::to_multiset_len(order@);
                vstd::seq_lib::to_multiset_len(sorted);
            }
            assert forall|i: int| 0 <= i < order@.len() implies (#[trigger] order@[i]) < total by {
                vstd::seq_lib::to_multiset_contains(order@, order@[i]);
                vstd::seq_lib::to_multiset_contains(sorted, order@[i]);
                assert(order@.contains(order@[i]));
                let v = choose|v: int| 0 <= v < sorted.len() && sorted[v] == order@[i];
            }
        }
        let picked = pick_combinations(&all_combinations, &order, n);
        proof {
            let witness = order@;
            assert forall|i: int, p: int|
                0 <= i < picked@.len() && 0 <= p < self.param_grid@.len() implies {
                &&& (#[trigger] picked@[i]@[p]).0@ == self.param_grid@[p].0@
                &&& picked@[i]@[p].1 == combination(
                    value_lists(self.param_grid@),
                    self.param_grid@.len(),
                    witness[i] as nat,
                )[p]
            } by {
                let row = all_combinations@[witness[i] as int];
                assert(row@.len() == self.param_grid@.len());
                assert(row@[p].0@ == self.param_grid@[p].0@);
            }
            assert(witness.len() == combination_count(value_lists(self.param_grid@)));
        }
        picked
    }

    /// The number of combinations, taken list by list as [`running_quantity`] does.
    pub fn get_qty_combinations(&self) -> (quantity: usize)
        requires
            forall|upto: nat|
                upto <= self.param_grid@.len() ==> #[trigger] running_quantity(
                    value_lists(self.param_grid@),
                    upto,
                ) <= usize::MAX,
        ensures
            quantity == running_quantity(value_lists(self.param_grid@), self.param_grid@.len()),
            (forall|p: int| 0 <= p < self.param_grid@.len() ==> (#[trigger] self.param_grid@[p]).1@.len() > 0)
                ==> quantity == combination_count(value_lists(self.param_grid@)),
    {
        let ghost lists = value_lists(self.param_grid@);
        let n: usize = self.param_grid.len();
        let mut total_combinations: usize = 0;
        let mut p: usize = 0;
        while p < n
            invariant
                0 <= p <= n,
                n == self.param_grid@.len(),
                lists == value_lists(self.param_grid@),
                total_combinations == running_quantity(lists, p as nat),
                forall|upto: nat| upto <= n ==> #[trigger] running_quantity(lists, upto) <= usize::MAX,
            decreases n - p,
        {
            let width: usize = self.param_grid[p].1.len();
            assert(lists[p as int].len() == width);
            assert(running_quantity(lists, (p + 1) as nat) <= usize::MAX);
            if total_combinations == 0 {
                total_combinations = width;
            } else {
                total_combinations = total_combinations * width;
            }
            p = p + 1;
        }
        proof {
            if n > 0 && forall|p: int|
                0 <= p < self.param_grid@.len() ==> (#[trigger] self.param_grid@[p]).1@.len() > 0 {
                assert forall|p: int| 0 <= p < lists.len() implies (#[trigger] lists[p]).len() > 0 by {
                    assert(self.param_grid@[p].1@.len() > 0);
                }
                lemma_running_quantity(lists, n as nat);
            }
        }
        total_combinations
    }
}

} // verus!
