//! What both engines keep between iterations, and when they stop.
//!
//! A run ends when the best solution has not improved for a given number of
//! iterations, or when the time is up, whichever comes first. The time is
//! looked at once per iteration.

use vstd::prelude::*;
use crate::instancia::{DadosSolucao, Solucao};

verus! {

/// The best solution seen so far, the iteration that found it, and the
/// number of iterations done.
pub struct Progresso {
    melhor: Solucao,
    it_melhor: u64,
    it: u64,
}

/// The mathematical content of a [`Progresso`].
pub struct DadosProgresso {
    pub melhor: DadosSolucao,
    pub it_melhor: nat,
    pub it: nat,
}

impl View for Progresso {
    type V = DadosProgresso;

    closed spec fn view(&self) -> DadosProgresso {
        DadosProgresso {
            melhor: self.melhor@,
            it_melhor: self.it_melhor as nat,
            it: self.it as nat,
        }
    }
}

impl DadosProgresso {
    /// The record after one more iteration that produced `candidata`: a
    /// strictly cheaper candidate replaces the best solution and marks the
    /// iteration; any other leaves both as they were.
    pub open spec fn apos(self, candidata: DadosSolucao) -> DadosProgresso {
        if candidata.fo < self.melhor.fo {
            DadosProgresso { melhor: candidata, it_melhor: self.it, it: self.it + 1 }
        } else {
            DadosProgresso { melhor: self.melhor, it_melhor: self.it_melhor, it: self.it + 1 }
        }
    }

    /// The search goes on while the last improvement is less than `max_iter`
    /// iterations old (and the iteration counter has room).
    pub open spec fn ativo(self, max_iter: u64) -> bool {
        self.it - self.it_melhor < max_iter && self.it < u64::MAX
    }
}

/// The recorded best cost never goes up: after any iteration it is the
/// smaller of the cost recorded before and the candidate's.
pub proof fn lemma_melhor_custo_nao_sobe(antes: DadosProgresso, candidata: DadosSolucao)
    ensures
        antes.apos(candidata).melhor.fo <= antes.melhor.fo,
        antes.apos(candidata).melhor.fo <= candidata.fo,
        antes.apos(candidata).melhor.fo == antes.melhor.fo || antes.apos(candidata).melhor.fo
            == candidata.fo,
{
}

impl Progresso {
    #[verifier::type_invariant]
    pub closed spec fn inv(self) -> bool {
        self.it_melhor <= self.it
    }

    /// The record of a run that has done no iteration and starts from
    /// `inicial`.
    pub fn novo(inicial: Solucao) -> (p: Progresso)
        ensures
            p@ == (DadosProgresso { melhor: inicial@, it_melhor: 0, it: 0 }),
    {
        Progresso { melhor: inicial, it_melhor: 0, it: 0 }
    }

    /// Cost of the best solution seen so far.
    pub fn melhor_fo(&self) -> (fo: i32)
        ensures
            fo == self@.melhor.fo,
    {
        self.melhor.fo()
    }

    /// Whether the search goes on as far as stagnation is concerned.
    pub fn ativo(&self, max_iter: u64) -> (r: bool)
        ensures
            r == self@.ativo(max_iter),
            self@.it_melhor <= self@.it,
    {
        proof {
            use_type_invariant(self);
        }
        self.it - self.it_melhor < max_iter && self.it < u64::MAX
    }

    /// Counts one iteration that produced `candidata`, and keeps a copy of
    /// it when it is strictly cheaper than the best seen so far.
    pub fn registra(&mut self, candidata: &Solucao) -> (melhorou: bool)
        requires
            old(self)@.it < u64::MAX,
        ensures
            final(self)@ == old(self)@.apos(candidata@),
            melhorou == (candidata@.fo < old(self)@.melhor.fo),
            final(self)@.melhor.fo <= old(self)@.melhor.fo,
    {
        proof {
            use_type_invariant(&*self);
        }
        let melhorou = candidata.fo() < self.melhor.fo();
        if melhorou {
            self.melhor = candidata.clone();
            self.it_melhor = self.it;
        }
        self.it = self.it + 1;
        melhorou
    }

    /// The best solution, the iteration that found it, and the number of
    /// iterations done.
    pub fn resultado(self) -> (r: (Solucao, u64, u64))
        ensures
            r.0@ == self@.melhor,
            r.1 == self@.it_melhor,
            r.2 == self@.it,
            r.1 <= r.2,
    {
        proof {
            use_type_invariant(&self);
        }
        (self.melhor, self.it_melhor, self.it)
    }
}

} // verus!
