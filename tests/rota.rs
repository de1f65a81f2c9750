use escala::schedule::Escala;
use escala::store::{AppState, GerarErro};
use escala::week::{Semana, DIAS_UTEIS};
use std::collections::BTreeSet;

fn team(names: &[&str]) -> Vec<String> {
    names.iter().map(|s| s.to_string()).collect()
}

fn as_set(v: &[String]) -> BTreeSet<String> {
    v.iter().cloned().collect()
}

fn check_partition(w: &Semana, employees: &[String]) {
    let present = as_set(&w.dias);
    let remote = as_set(&w.remotos);
    assert!(present.is_disjoint(&remote));
    let union: BTreeSet<String> = present.union(&remote).cloned().collect();
    assert_eq!(union, as_set(employees));
    assert_eq!(w.dias.len(), DIAS_UTEIS.min(employees.len()));
}

#[test]
fn six_employees_one_week() {
    let employees = team(&["A", "B", "C", "D", "E", "F"]);
    let escala = Escala::new(&employees, 1);
    assert_eq!(escala.semanas.len(), 1);
    let w = &escala.semanas[0];
    assert_eq!(w.dias.len(), 5);
    assert_eq!(w.remotos.len(), 1);
    assert!(!w.dias.contains(&w.remotos[0]));
    check_partition(w, &employees);
}

#[test]
fn two_employees_three_weeks() {
    let employees = team(&["A", "B"]);
    let escala = Escala::new(&employees, 3);
    assert_eq!(escala.semanas.len(), 3);
    for w in &escala.semanas {
        assert_eq!(as_set(&w.dias), as_set(&employees));
        assert_eq!(w.dias.len(), 2);
        assert!(w.remotos.is_empty());
    }
}

#[test]
fn zero_weeks_gives_empty_rota() {
    let employees = team(&["A", "B", "C"]);
    let escala = Escala::new(&employees, 0);
    assert!(escala.semanas.is_empty());
}

#[test]
fn length_and_partition_hold_for_many_sizes() {
    for size in 0..12usize {
        let names: Vec<String> = (0..size).map(|i| format!("p{}", i)).collect();
        for weeks in [0usize, 1, 4, 9] {
            let escala = Escala::new(&names, weeks);
            assert_eq!(escala.semanas.len(), weeks);
            for w in &escala.semanas {
                check_partition(w, &names);
            }
        }
    }
}

#[test]
fn empty_team_gives_empty_week() {
    let mut tally: Vec<usize> = Vec::new();
    let w = Semana::gerar(&[], &mut tally);
    assert!(w.dias.is_empty());
    assert!(w.remotos.is_empty());
}

#[test]
fn draws_vary_between_requests() {
    let employees = team(&["A", "B", "C", "D", "E", "F", "G"]);
    let mut seen: BTreeSet<Vec<String>> = BTreeSet::new();
    for _ in 0..200 {
        let escala = Escala::new(&employees, 1);
        let mut present = escala.semanas[0].dias.clone();
        present.sort();
        seen.insert(present);
    }
    assert!(seen.len() > 1);
}

#[test]
fn three_employees_draws_vary_in_order() {
    let employees = team(&["A", "B", "C"]);
    let mut seen: BTreeSet<Vec<String>> = BTreeSet::new();
    for _ in 0..200 {
        let escala = Escala::new(&employees, 1);
        seen.insert(escala.semanas[0].dias.clone());
    }
    assert!(seen.len() > 1);
}

#[test]
fn from_order_takes_the_back_of_the_order() {
    let employees = team(&["A", "B", "C", "D", "E", "F"]);
    let mut tally = vec![0usize; 6];
    let w = Semana::from_order(&employees, vec![0, 1, 2, 3, 4, 5], &mut tally);
    assert_eq!(w.dias, team(&["F", "E", "D", "C", "B"]));
    assert_eq!(w.remotos, team(&["A"]));
    assert_eq!(tally, vec![0, 1, 1, 1, 1, 1]);
}

#[test]
fn from_order_keeps_team_order_for_remote() {
    let employees = team(&["A", "B", "C", "D", "E", "F", "G", "H"]);
    let mut tally = vec![2usize, 0, 0, 0, 0, 0, 0, 7];
    let w = Semana::from_order(&employees, vec![7, 1, 5, 0, 2, 3, 4, 6], &mut tally);
    assert_eq!(w.dias, team(&["G", "E", "D", "C", "A"]));
    assert_eq!(w.remotos, team(&["B", "F", "H"]));
    assert_eq!(tally, vec![3, 0, 1, 1, 1, 0, 1, 7]);
}

#[test]
fn from_order_small_team_all_present() {
    let employees = team(&["X", "Y", "Z"]);
    let mut tally = vec![0usize; 3];
    let w = Semana::from_order(&employees, vec![1, 2, 0], &mut tally);
    assert_eq!(w.dias, team(&["X", "Z", "Y"]));
    assert!(w.remotos.is_empty());
    assert_eq!(tally, vec![1, 1, 1]);
}

#[test]
fn from_order_duplicate_name_leaves_remote() {
    let employees = team(&["A", "B", "C", "D", "E", "A"]);
    let mut tally = vec![0usize; 6];
    let w = Semana::from_order(&employees, vec![5, 0, 1, 2, 3, 4], &mut tally);
    assert_eq!(w.dias, team(&["E", "D", "C", "B", "A"]));
    assert!(w.remotos.is_empty());
    assert_eq!(tally, vec![1, 1, 1, 1, 1, 0]);
}

#[test]
fn gerar_counts_each_present_once() {
    let employees = team(&["A", "B", "C", "D", "E", "F", "G"]);
    let mut tally = vec![0usize; 7];
    let w = Semana::gerar(&employees, &mut tally);
    assert_eq!(tally.iter().sum::<usize>(), 5);
    for (i, name) in employees.iter().enumerate() {
        assert_eq!(tally[i] == 1, w.dias.contains(name));
    }
}

#[test]
fn fresh_service_has_no_rota() {
    let state = AppState::new();
    assert!(state.obter_escala().is_none());
}

#[test]
fn empty_team_is_refused_and_keeps_rota() {
    let mut state = AppState::new();
    assert_eq!(state.gerar_escala(&[], 2), Err(GerarErro::EquipeVazia));
    assert!(state.obter_escala().is_none());
    let employees = team(&["A", "B", "C"]);
    assert_eq!(state.gerar_escala(&employees, 2), Ok(()));
    let before: Vec<Vec<String>> =
        state.obter_escala().unwrap().semanas.iter().map(|w| w.dias.clone()).collect();
    assert_eq!(state.gerar_escala(&[], 5), Err(GerarErro::EquipeVazia));
    let after: Vec<Vec<String>> =
        state.obter_escala().unwrap().semanas.iter().map(|w| w.dias.clone()).collect();
    assert_eq!(before, after);
}

#[test]
fn generate_replaces_rota() {
    let mut state = AppState::new();
    assert_eq!(state.gerar_escala(&team(&["A"]), 1), Ok(()));
    assert_eq!(state.gerar_escala(&team(&["B", "C"]), 4), Ok(()));
    let escala = state.obter_escala().unwrap();
    assert_eq!(escala.semanas.len(), 4);
    for w in &escala.semanas {
        assert_eq!(as_set(&w.dias), as_set(&team(&["B", "C"])));
    }
}
