//! Ratios between zero and one, used for every rate the engines are tuned by.

use vstd::prelude::*;

verus! {

/// A ratio `num / den` with `0 <= num <= den` and `den > 0`.
///
/// Rates and probabilities are kept as exact ratios so that every decision
/// derived from them is integer arithmetic.
#[derive(Clone, Copy, Debug)]
pub struct Fracao {
    num: u64,
    den: u64,
}

/// The mathematical content of a [`Fracao`].
pub struct Razao {
    pub num: nat,
    pub den: nat,
}

impl Razao {
    /// A ratio is well formed when it lies in `[0, 1]`.
    pub open spec fn valida(self) -> bool {
        0 < self.den && self.num <= self.den
    }

    /// `floor(n * num / den)`.
    pub open spec fn piso_de(self, n: nat) -> nat {
        (n * self.num / self.den) as nat
    }

    /// `ceil(n * num / den)`.
    pub open spec fn teto_de(self, n: nat) -> nat {
        ((n * self.num + self.den - 1) / (self.den as int)) as nat
    }

    /// Whether the draw `sorteio` falls under the ratio: reduced modulo the
    /// denominator, it lies below the numerator.
    pub open spec fn acerta(self, sorteio: nat) -> bool {
        sorteio % self.den < self.num
    }
}

impl View for Fracao {
    type V = Razao;

    closed spec fn view(&self) -> Razao {
        Razao { num: self.num as nat, den: self.den as nat }
    }
}

impl Fracao {
    /// Every value of the type is a valid ratio.
    #[verifier::type_invariant]
    spec fn inv(self) -> bool {
        0 < self.den && self.num <= self.den
    }

    /// Builds `num / den`, or nothing when that is not a ratio in `[0, 1]`.
    pub fn new(num: u64, den: u64) -> (r: Option<Fracao>)
        ensures
            r is Some <==> (0 < den && num <= den),
            r matches Some(f) ==> f@ == (Razao { num: num as nat, den: den as nat }),
    {
        if den > 0 && num <= den {
            Some(Fracao { num, den })
        } else {
            None
        }
    }

    /// The ratio zero.
    pub fn zero() -> (r: Fracao)
        ensures
            r@ == (Razao { num: 0, den: 1 }),
    {
        Fracao { num: 0, den: 1 }
    }

    /// The ratio one.
    pub fn um() -> (r: Fracao)
        ensures
            r@ == (Razao { num: 1, den: 1 }),
    {
        Fracao { num: 1, den: 1 }
    }

    /// The numerator.
    pub fn num(&self) -> (r: u64)
        ensures
            r == self@.num,
            self@.valida(),
    {
        proof {
            use_type_invariant(self);
        }
        self.num
    }

    /// The denominator.
    pub fn den(&self) -> (r: u64)
        ensures
            r == self@.den,
            self@.valida(),
    {
        proof {
            use_type_invariant(self);
        }
        self.den
    }

    /// `floor(n * self)`.
    pub fn piso_de(&self, n: usize) -> (r: usize)
        ensures
            r == self@.piso_de(n as nat),
            r <= n,
            self@.valida(),
    {
        proof {
            use_type_invariant(self);
            lemma_produto_cabe(n as int, self.num as int);
            lemma_quociente_limitado(n as int, self.num as int, self.den as int);
        }
        let prod: u128 = (n as u128) * (self.num as u128);
        let q: u128 = prod / (self.den as u128);
        q as usize
    }

    /// `ceil(n * self)`.
    pub fn teto_de(&self, n: usize) -> (r: usize)
        ensures
            r == self@.teto_de(n as nat),
            r <= n,
            r == 0 <==> (n == 0 || self@.num == 0),
            self@.valida(),
    {
        proof {
            use_type_invariant(self);
            lemma_produto_cabe(n as int, self.num as int);
            lemma_teto_limitado(n as int, self.num as int, self.den as int);
        }
        let prod: u128 = (n as u128) * (self.num as u128);
        let q: u128 = (prod + (self.den as u128 - 1)) / (self.den as u128);
        q as usize
    }

    /// Whether a draw falls under the ratio: `sorteio mod den < num`.
    ///
    /// Over uniformly distributed draws the answer is `true` with probability
    /// `num / den` (up to the rounding of the modulus).
    pub fn acerta(&self, sorteio: usize) -> (r: bool)
        ensures
            r == self@.acerta(sorteio as nat),
            self@.valida(),
    {
        proof {
            use_type_invariant(self);
        }
        (sorteio as u64) % self.den < self.num
    }
}

/// The product of two 64-bit numbers fits 128 bits.
proof fn lemma_produto_cabe(a: int, b: int)
    requires
        0 <= a <= u64::MAX,
        0 <= b <= u64::MAX,
    ensures
        0 <= a * b <= 0xFFFF_FFFF_FFFF_FFFE_0000_0000_0000_0001,
{
    assert(0 <= a * b <= 0xFFFF_FFFF_FFFF_FFFF * 0xFFFF_FFFF_FFFF_FFFF) by (nonlinear_arith)
        requires
            0 <= a <= 0xFFFF_FFFF_FFFF_FFFF,
            0 <= b <= 0xFFFF_FFFF_FFFF_FFFF,
    ;
}

/// A share of `n`, rounded down, lies between zero and `n`.
proof fn lemma_quociente_limitado(n: int, num: int, den: int)
    requires
        0 <= n,
        0 <= num <= den,
        0 < den,
    ensures
        0 <= n * num,
        0 <= (n * num) / den <= n,
{
    assert(0 <= n * num <= n * den) by (nonlinear_arith)
        requires
            0 <= n,
            0 <= num <= den,
    ;
    assert((n * num) / den <= n) by (nonlinear_arith)
        requires
            0 <= n * num <= n * den,
            0 < den,
    ;
    assert(0 <= (n * num) / den) by (nonlinear_arith)
        requires
            0 <= n * num,
            0 < den,
    ;
}

/// A share of `n`, rounded up, lies between zero and `n`, and is zero only
/// when `n` or the ratio is.
proof fn lemma_teto_limitado(n: int, num: int, den: int)
    requires
        0 <= n,
        0 <= num <= den,
        0 < den,
    ensures
        0 <= n * num,
        0 <= (n * num + den - 1) / den <= n,
        (n * num + den - 1) / den == 0 <==> (n == 0 || num == 0),
{
    assert(0 <= n * num <= n * den) by (nonlinear_arith)
        requires
            0 <= n,
            0 <= num <= den,
    ;
    assert((n * num + den - 1) / den <= n) by (nonlinear_arith)
        requires
            0 <= n * num <= n * den,
            0 < den,
    ;
    assert(0 <= (n * num + den - 1) / den) by (nonlinear_arith)
        requires
            0 <= n * num,
            0 < den,
    ;
    if n > 0 && num > 0 {
        assert(n * num >= 1) by (nonlinear_arith)
            requires
                n >= 1,
                num >= 1,
        ;
        assert((n * num + den - 1) / den > 0) by (nonlinear_arith)
            requires
                n * num >= 1,
                0 < den,
        ;
    } else {
        assert(n * num == 0) by (nonlinear_arith)
            requires
                n == 0 || num == 0,
        ;
        assert((0 + den - 1) / den == 0) by (nonlinear_arith)
            requires
                0 < den,
        ;
    }
}

} // verus!
