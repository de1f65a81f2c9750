use crate::week::{names, Semana};
use vstd::prelude::*;

verus! {

/// A rota over several weeks, one drawn week per entry.
pub struct Escala {
    pub semanas: Vec<Semana>,
}

impl Escala {
    /// Every week of this rota is a valid draw for `employees`.
    pub open spec fn all_weeks_of(self, employees: Seq<Seq<char>>) -> bool {
        forall|w: int| 0 <= w < self.semanas@.len() ==> #[trigger] self.semanas@[w].is_week_of(employees)
    }

    /// Draws a rota of `num_semanas` weeks for the team, each week drawn
    /// afresh. One presence tally, counting on-site weeks per team position,
    /// is kept across the weeks; it does not steer the draw.
    pub fn new(funcionarios: &[String], num_semanas: usize) -> (r: Escala)
        ensures
            r.semanas@.len() == num_semanas,
            num_semanas == 0 ==> r.semanas@.len() == 0,
            r.all_weeks_of(names(funcionarios@)),
    {
        let n = funcionarios.len();
        let mut contagem_presencial: Vec<usize> = Vec::with_capacity(n);
        let mut i: usize = 0;
        while i < n
            invariant
                i <= n,
                contagem_presencial@.len() == i,
                forall|j: int| 0 <= j < i ==> contagem_presencial@[j] == 0,
            decreases n - i,
        {
            contagem_presencial.push(0);
            i += 1;
        }
        let mut semanas: Vec<Semana> = Vec::with_capacity(num_semanas);
        let mut w: usize = 0;
        while w < num_semanas
            invariant
                n == funcionarios@.len(),
                w <= num_semanas,
                semanas@.len() == w,
                contagem_presencial@.len() == n,
                forall|j: int| 0 <= j < n ==> contagem_presencial@[j] <= w,
                forall|v: int|
                    0 <= v < w ==> #[trigger] semanas@[v].is_week_of(names(funcionarios@)),
            decreases num_semanas - w,
        {
            let semana = Semana::gerar(funcionarios, &mut contagem_presencial);
            semanas.push(semana);
            w += 1;
        }
        Escala { semanas }
    }
}

} // verus!
