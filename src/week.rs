use rand::seq::SliceRandom;
use vstd::prelude::*;

verus! {

/// Working days per week: at most this many employees are on site in a week.
pub const DIAS_UTEIS: usize = 5;

/// The names held by a list of employee identifiers.
pub open spec fn names(v: Seq<String>) -> Seq<Seq<char>> {
    v.map_values(|s: String| s@)
}

/// How many of `n` employees are on site in a week: `min(DIAS_UTEIS, n)`.
pub open spec fn num_present(n: nat) -> nat {
    if n < DIAS_UTEIS {
        n
    } else {
        DIAS_UTEIS as nat
    }
}

/// A visiting order of `n` employees: each position below `n` exactly once.
pub open spec fn is_order(order: Seq<usize>, n: nat) -> bool {
    &&& order.len() == n
    &&& order.no_duplicates()
    &&& forall|i: int| 0 <= i < order.len() ==> (order[i] as nat) < n
}

/// The on-site names of a week drawn with `order`: the employees at the last
/// positions of the order, the very last one first.
pub open spec fn present_of(employees: Seq<Seq<char>>, order: Seq<usize>) -> Seq<Seq<char>> {
    Seq::new(
        num_present(employees.len()),
        |k: int| employees[order[order.len() - 1 - k] as int],
    )
}

/// The remote names of a week: every employee whose name is not on site, in
/// the order of the team list.
pub open spec fn remote_of(employees: Seq<Seq<char>>, present: Seq<Seq<char>>) -> Seq<Seq<char>> {
    employees.filter(|e: Seq<char>| !present.contains(e))
}

/// Position `i` is among the last `k` entries of `order`.
pub open spec fn taken(order: Seq<usize>, k: int, i: int) -> bool {
    exists|p: int| order.len() - k <= p < order.len() && #[trigger] order[p] as int == i
}

/// The presence tally after a week drawn with `order`: one more for each
/// position placed on site, the others unchanged.
pub open spec fn counted(before: Seq<usize>, after: Seq<usize>, order: Seq<usize>) -> bool {
    &&& after.len() == before.len()
    &&& forall|i: int|
        0 <= i < before.len() ==> after[i] == before[i] + if taken(
            order,
            num_present(order.len()) as int,
            i,
        ) {
            1int
        } else {
            0int
        }
}

/// One week of the rota: who is on site and who works remotely.
pub struct Semana {
    pub dias: Vec<String>,
    pub remotos: Vec<String>,
}

impl Semana {
    /// This week is the one drawn for `employees` with the visiting order `order`.
    pub open spec fn drawn_with(self, employees: Seq<Seq<char>>, order: Seq<usize>) -> bool {
        &&& names(self.dias@) == present_of(employees, order)
        &&& names(self.remotos@) == remote_of(employees, present_of(employees, order))
    }

    /// This week is a valid draw for `employees`: some visiting order gives it.
    pub open spec fn is_week_of(self, employees: Seq<Seq<char>>) -> bool {
        exists|order: Seq<usize>| is_order(order, employees.len()) && self.drawn_with(employees, order)
    }
}

impl Semana {
    /// Builds the week drawn with the visiting order `order`: the last
    /// `min(DIAS_UTEIS, n)` positions of the order go on site, taken from the
    /// back; every employee whose name is then not on site works remotely, in
    /// team order. Each position placed on site gets one more in `contagem`.
    pub fn from_order(funcionarios: &[String], order: Vec<usize>, contagem: &mut Vec<usize>) -> (r:
        Semana)
        requires
            is_order(order@, funcionarios@.len()),
            old(contagem)@.len() == funcionarios@.len(),
            forall|i: int| 0 <= i < old(contagem)@.len() ==> old(contagem)@[i] < usize::MAX,
        ensures
            r.drawn_with(names(funcionarios@), order@),
            counted(old(contagem)@, final(contagem)@, order@),
    {
        let n = funcionarios.len();
        let m: usize = if n < DIAS_UTEIS {
            n
        } else {
            DIAS_UTEIS
        };
        let ghost emp = names(funcionarios@);
        let mut disponiveis = order;
        let mut dias: Vec<String> = Vec::with_capacity(DIAS_UTEIS);
        let mut k: usize = 0;
        while k < m
            invariant
                n == funcionarios@.len(),
                m == num_present(n as nat),
                m <= n,
                k <= m,
                is_order(order@, n as nat),
                disponiveis@ == order@.subrange(0, n - k),
                dias@.len() == k,
                forall|j: int| 0 <= j < k ==> #[trigger] dias@[j]@ == emp[order@[n - 1 - j] as int],
                emp == names(funcionarios@),
                contagem@.len() == n,
                forall|i: int|
                    0 <= i < n ==> #[trigger] contagem@[i] == old(contagem)@[i] + if taken(
                        order@,
                        k as int,
                        i,
                    ) {
                        1int
                    } else {
                        0int
                    },
                forall|i: int| 0 <= i < n ==> old(contagem)@[i] < usize::MAX,
            decreases m - k,
        {
            match disponiveis.pop() {
                Some(idx) => {
                    assert(idx == order@[n - 1 - k]);
                    let nome = funcionarios[idx].clone();
                    dias.push(nome);
                    proof {
                        assert forall|i: int| 0 <= i < n implies taken(order@, k + 1, i) == (taken(
                            order@,
                            k as int,
                            i,
                        ) || i == idx) by {
                            if i == idx {
                                assert(order@[n - 1 - k] as int == i);
                            }
                            if taken(order@, k + 1, i) {
                                let p = choose|p: int|
                                    n - (k + 1) <= p < n && #[trigger] order@[p] as int == i;
                                if p != n - 1 - k {
                                    assert(taken(order@, k as int, i));
                                }
                            }
                        }
                        assert(!taken(order@, k as int, idx as int)) by {
                            if taken(order@, k as int, idx as int) {
                                let p = choose|p: int|
                                    n - k <= p < n && #[trigger] order@[p] as int == idx;
                                assert(order@[p] == order@[n - 1 - k]);
                            }
                        }
                    }
                    let c = contagem[idx];
                    contagem.set(idx, c + 1);
                    k += 1;
                },
                None => {
                    assert(false);
                },
            }
        }
        proof {
            assert(names(dias@) =~= present_of(emp, order@));
        }
        let mut remotos: Vec<String> = Vec::new();
        let mut i: usize = 0;
        while i < n
            invariant
                n == funcionarios@.len(),
                i <= n,
                emp == names(funcionarios@),
                names(dias@) == present_of(emp, order@),
                names(remotos@) == remote_of(emp.subrange(0, i as int), names(dias@)),
            decreases n - i,
        {
            let presente = contains_name(&dias, &funcionarios[i]);
            proof {
                reveal(Seq::filter);
                assert(emp.subrange(0, i + 1).drop_last() =~= emp.subrange(0, i as int));
            }
            if !presente {
                remotos.push(funcionarios[i].clone());
                proof {
                    assert(names(remotos@) =~= remote_of(emp.subrange(0, i as int), names(dias@)).push(
                        emp[i as int],
                    ));
                }
            }
            i += 1;
        }
        proof {
            assert(emp.subrange(0, n as int) =~= emp);
        }
        Semana { dias, remotos }
    }
}

impl Semana {
    /// Draws one week at random: shuffles the team's positions and builds the
    /// week from that order (see `from_order`). Every position placed on site
    /// gets one more in `contagem`; nothing reads the tally back.
    pub fn gerar(funcionarios: &[String], contagem: &mut Vec<usize>) -> (r: Semana)
        requires
            old(contagem)@.len() == funcionarios@.len(),
            forall|i: int| 0 <= i < old(contagem)@.len() ==> old(contagem)@[i] < usize::MAX,
        ensures
            r.is_week_of(names(funcionarios@)),
            exists|order: Seq<usize>|
                is_order(order, funcionarios@.len()) && r.drawn_with(names(funcionarios@), order)
                    && counted(old(contagem)@, final(contagem)@, order),
            final(contagem)@.len() == funcionarios@.len(),
            forall|i: int|
                #![trigger final(contagem)@[i]]
                0 <= i < funcionarios@.len() ==> old(contagem)@[i] <= final(contagem)@[i]
                    <= old(contagem)@[i] + 1,
    {
        let n = funcionarios.len();
        let mut order: Vec<usize> = Vec::with_capacity(n);
        let mut i: usize = 0;
        while i < n
            invariant
                n == funcionarios@.len(),
                i <= n,
                order@.len() == i,
                forall|j: int| 0 <= j < i ==> order@[j] as int == j,
            decreases n - i,
        {
            order.push(i);
            i += 1;
        }
        let ghost before = order@;
        proof {
            assert(before.no_duplicates());
            before.lemma_multiset_has_no_duplicates();
        }
        shuffle_positions(&mut order);
        proof {
            order@.to_multiset_ensures();
            before.to_multiset_ensures();
            assert(order@.len() == before.len());
            order@.lemma_multiset_has_no_duplicates_conv();
            assert forall|j: int| 0 <= j < order@.len() implies (order@[j] as nat) < n by {
                assert(order@.to_multiset().count(order@[j]) > 0);
                assert(before.contains(order@[j]));
            }
        }
        let r = Semana::from_order(funcionarios, order, contagem);
        r
    }
}

/// Every name on site in a drawn week belongs to the team.
proof fn lemma_present_from_team(employees: Seq<Seq<char>>, order: Seq<usize>, x: Seq<char>)
    requires
        is_order(order, employees.len()),
        present_of(employees, order).contains(x),
    ensures
        employees.contains(x),
{
    let present = present_of(employees, order);
    let k = choose|k: int| 0 <= k < present.len() && present[k] == x;
    assert(employees[order[order.len() - 1 - k] as int] == x);
}

/// Partition: in every drawn week no name is both on site and remote, and
/// together the two lists hold exactly the team's names.
pub proof fn lemma_week_partition(w: Semana, employees: Seq<Seq<char>>)
    requires
        w.is_week_of(employees),
    ensures
        forall|x: Seq<char>|
            #[trigger] names(w.dias@).contains(x) ==> !names(w.remotos@).contains(x),
        names(w.dias@).to_set().union(names(w.remotos@).to_set()) == employees.to_set(),
{
    broadcast use vstd::seq_lib::group_filter_ensures;

    let order = choose|order: Seq<usize>|
        is_order(order, employees.len()) && w.drawn_with(employees, order);
    let present = present_of(employees, order);
    let pred = |e: Seq<char>| !present.contains(e);
    let remote = employees.filter(pred);
    assert(names(w.remotos@) == remote);
    assert forall|x: Seq<char>| #[trigger] remote.contains(x) implies !present.contains(x) by {
        let i = choose|i: int| 0 <= i < remote.len() && remote[i] == x;
        assert(pred(remote[i]));
    }
    assert forall|x: Seq<char>|
        present.to_set().union(remote.to_set()).contains(x) == employees.to_set().contains(x) by {
        if present.contains(x) {
            lemma_present_from_team(employees, order, x);
        } else if remote.contains(x) {
            employees.lemma_filter_contains_rev(pred, x);
        } else if employees.contains(x) {
            let i = choose|i: int| 0 <= i < employees.len() && employees[i] == x;
            assert(remote.contains(employees[i]));
        }
    }
    assert(present.to_set().union(remote.to_set()) =~= employees.to_set());
}

/// Size: every drawn week has `min(DIAS_UTEIS, n)` names on site for a team
/// of `n`.
pub proof fn lemma_week_size(w: Semana, employees: Seq<Seq<char>>)
    requires
        w.is_week_of(employees),
    ensures
        w.dias@.len() == num_present(employees.len()),
{
    let order = choose|order: Seq<usize>|
        is_order(order, employees.len()) && w.drawn_with(employees, order);
    assert(names(w.dias@).len() == w.dias@.len());
}

/// Small team: when the team has at most `DIAS_UTEIS` members, every drawn
/// week has the whole team on site and nobody remote.
pub proof fn lemma_small_team_all_present(w: Semana, employees: Seq<Seq<char>>)
    requires
        w.is_week_of(employees),
        employees.len() <= DIAS_UTEIS,
    ensures
        w.remotos@.len() == 0,
        names(w.dias@).to_set() == employees.to_set(),
{
    broadcast use vstd::seq_lib::group_filter_ensures;

    let n = employees.len();
    let order = choose|order: Seq<usize>|
        is_order(order, employees.len()) && w.drawn_with(employees, order);
    let present = present_of(employees, order);
    let pred = |e: Seq<char>| !present.contains(e);
    let remote = employees.filter(pred);
    let s = order.map_values(|x: usize| x as int);
    assert(s.no_duplicates()) by {
        assert forall|a: int, b: int| 0 <= a < s.len() && 0 <= b < s.len() && a != b implies s[a]
            != s[b] by {
            assert(order[a] != order[b]);
        }
    }
    s.unique_seq_to_set();
    vstd::set_lib::lemma_int_range(0, n as int);
    assert(s.to_set().subset_of(vstd::set_lib::set_int_range(0, n as int))) by {
        assert forall|x: int| s.to_set().contains(x) implies 0 <= x < n by {
            let p = choose|p: int| 0 <= p < s.len() && s[p] == x;
            assert(order[p] < n);
        }
    }
    vstd::set_lib::lemma_subset_equality(s.to_set(), vstd::set_lib::set_int_range(0, n as int));
    assert forall|x: Seq<char>| employees.contains(x) implies present.contains(x) by {
        let i = choose|i: int| 0 <= i < employees.len() && employees[i] == x;
        assert(vstd::set_lib::set_int_range(0, n as int).contains(i));
        assert(s.to_set().contains(i));
        let p = choose|p: int| 0 <= p < s.len() && s[p] == i;
        assert(present[n - 1 - p] == employees[order[p] as int]);
    }
    if remote.len() > 0 {
        assert(pred(remote[0]));
        assert(remote.contains(remote[0]));
        employees.lemma_filter_contains_rev(pred, remote[0]);
    }
    assert(names(w.remotos@).len() == w.remotos@.len());
    assert forall|x: Seq<char>| present.to_set().contains(x) == employees.to_set().contains(x) by {
        if present.contains(x) {
            lemma_present_from_team(employees, order, x);
        }
    }
    assert(present.to_set() =~= employees.to_set());
}

/// Whether a name occurs in a list of identifiers.
fn contains_name(v: &Vec<String>, s: &String) -> (r: bool)
    ensures
        r == names(v@).contains(s@),
{
    let mut i: usize = 0;
    while i < v.len()
        invariant
            i <= v@.len(),
            forall|j: int| 0 <= j < i ==> v@[j]@ != s@,
        decreases v@.len() - i,
    {
        if v[i].eq(s) {
            assert(names(v@)[i as int] == s@);
            return true;
        }
        i += 1;
    }
    proof {
        if names(v@).contains(s@) {
            let j = choose|j: int| 0 <= j < names(v@).len() && names(v@)[j] == s@;
            assert(v@[j]@ == s@);
        }
    }
    false
}

/// Relies on rand's `SliceRandom::shuffle`, driven by the thread-local
/// generator: it only swaps elements, so the result is a rearrangement of the
/// input.
#[verifier::external_body]
fn shuffle_positions(v: &mut Vec<usize>)
    ensures
        final(v)@.to_multiset() == old(v)@.to_multiset(),
{
    v.shuffle(&mut rand::thread_rng());
}

} // verus!
