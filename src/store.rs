use crate::schedule::Escala;
use crate::week::names;
use vstd::prelude::*;

verus! {

/// Why a request to draw a new rota was turned down.
#[derive(Debug, Clone, Copy, PartialEq, Eq)]
pub enum GerarErro {
    /// The team list was empty.
    EquipeVazia,
}

/// The current rota of a running service: absent until the first successful
/// draw, then replaced whole by each later one.
pub struct AppState {
    pub escala: Option<Escala>,
}

impl AppState {
    /// A service that has not drawn any rota yet.
    pub fn new() -> (r: AppState)
        ensures
            r.escala is None,
    {
        AppState { escala: None }
    }

    /// Handles a request to draw a rota: an empty team is refused and leaves
    /// the current rota as it was; otherwise a rota of `num_semanas` weeks is
    /// drawn and replaces the current one.
    pub fn gerar_escala(&mut self, funcionarios: &[String], num_semanas: usize) -> (r: Result<
        (),
        GerarErro,
    >)
        ensures
            r is Err <==> funcionarios@.len() == 0,
            r is Err ==> r == Err::<(), GerarErro>(GerarErro::EquipeVazia) && *final(self) == *old(
                self,
            ),
            r is Ok ==> (final(self).escala matches Some(e) && e.semanas@.len() == num_semanas
                && e.all_weeks_of(names(funcionarios@))),
    {
        if funcionarios.len() == 0 {
            return Err(GerarErro::EquipeVazia);
        }
        self.escala = Some(Escala::new(funcionarios, num_semanas));
        Ok(())
    }

    /// Handles a request to read the current rota: `None` when no rota has
    /// been drawn yet.
    pub fn obter_escala(&self) -> (r: Option<&Escala>)
        ensures
            r is None <==> self.escala is None,
            r matches Some(e) ==> self.escala == Some(*e),
    {
        match &self.escala {
            Some(e) => Some(e),
            None => None,
        }
    }
}

} // verus!
