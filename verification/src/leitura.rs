//! The text form of an instance.
//!
//! The first line holds the number of tasks, alone but for blanks. Each of
//! the following lines holds one task: its processing time and its due date,
//! two decimal integers separated by blanks. Further integers on a task line
//! are read and ignored; anything else on it is an error. Lines beyond the
//! announced number are ignored, and a text that ends early gives the tasks
//! it has.
//!
//! Lines end at a line feed. Blanks are the six ASCII white-space
//! characters. An integer is a run of decimal digits after an optional sign;
//! the number of tasks takes no minus sign.

use vstd::prelude::*;
use crate::custo::{instancia_valida, DadosTarefa};
use crate::instancia::{dados_de, Instancia, Tarefa};

verus! {

/// Why a text is not an instance.
#[derive(Clone, Copy, Debug)]
pub enum ErroLeitura {
    /// The first line is not one natural number that fits a machine word.
    NumeroDeTarefas,
    /// A word on a task line is not an integer of 32 bits.
    DadoDaTarefa,
    /// A task line holds fewer than two integers.
    LinhaIncompleta,
    /// The tasks do not form a valid instance.
    InstanciaInvalida,
}

/// Line feed.
pub const NOVA_LINHA: u8 = 10;

/// Plus sign.
pub const MAIS: u8 = 43;

/// Minus sign.
pub const MENOS: u8 = 45;

/// The digit zero.
pub const ZERO: u8 = 48;

/// Tab, line feed, vertical tab, form feed, carriage return or space.
pub open spec fn eh_branco(b: u8) -> bool {
    (9 <= b <= 13) || b == 32
}

/// A decimal digit.
pub open spec fn eh_digito(b: u8) -> bool {
    48 <= b <= 57
}

/// Where the line that starts at `i` ends: at the first line feed from `i`
/// on, or at the end of the text.
pub open spec fn fim_da_linha(texto: Seq<u8>, i: int) -> int
    decreases texto.len() - i,
{
    if i < 0 || i >= texto.len() || texto[i] == NOVA_LINHA {
        i
    } else {
        fim_da_linha(texto, i + 1)
    }
}

/// Where the run that starts at `i` ends before `fim`: the run of blanks
/// when `brancos` holds, the run of other characters when it does not.
pub open spec fn fim_do_trecho(texto: Seq<u8>, i: int, fim: int, brancos: bool) -> int
    decreases fim - i,
{
    if i < 0 || i >= fim || eh_branco(texto[i]) != brancos {
        i
    } else {
        fim_do_trecho(texto, i + 1, fim, brancos)
    }
}

/// The characters from `a` to `b` are decimal digits.
pub open spec fn so_digitos(texto: Seq<u8>, a: int, b: int) -> bool {
    forall|k: int| a <= k < b ==> eh_digito(#[trigger] texto[k])
}

/// The number that the decimal digits from `a` to `b` spell.
pub open spec fn valor(texto: Seq<u8>, a: int, b: int) -> int
    decreases b - a,
{
    if b <= a {
        0
    } else {
        valor(texto, a, b - 1) * 10 + (texto[b - 1] - ZERO)
    }
}

/// The natural number that the word from `a` to `b` spells: digits, after
/// an optional plus sign.
pub open spec fn natural(texto: Seq<u8>, a: int, b: int) -> Option<int> {
    let d = if a < b && texto[a] == MAIS {
        a + 1
    } else {
        a
    };
    if d < b && so_digitos(texto, d, b) {
        Some(valor(texto, d, b))
    } else {
        None
    }
}

/// The integer that the word from `a` to `b` spells: digits, after an
/// optional sign.
pub open spec fn inteiro(texto: Seq<u8>, a: int, b: int) -> Option<int> {
    if a < b && texto[a] == MENOS {
        if a + 1 < b && so_digitos(texto, a + 1, b) {
            Some(-valor(texto, a + 1, b))
        } else {
            None
        }
    } else {
        natural(texto, a, b)
    }
}

/// The integer of 32 bits that the word from `a` to `b` spells.
pub open spec fn inteiro_i32(texto: Seq<u8>, a: int, b: int) -> Option<int> {
    match inteiro(texto, a, b) {
        Some(v) => if i32::MIN <= v <= i32::MAX {
            Some(v)
        } else {
            None
        },
        None => None,
    }
}

/// The number of tasks that the word from `a` to `b` spells.
pub open spec fn natural_usize(texto: Seq<u8>, a: int, b: int) -> Option<int> {
    match natural(texto, a, b) {
        Some(v) => if v <= usize::MAX {
            Some(v)
        } else {
            None
        },
        None => None,
    }
}

/// The integers that the words from `i` to `fim` spell, if they all spell
/// one.
pub open spec fn numeros(texto: Seq<u8>, i: int, fim: int) -> Option<Seq<int>>
    decreases fim - i,
{
    let a = fim_do_trecho(texto, i, fim, true);
    let b = fim_do_trecho(texto, a, fim, false);
    if i < 0 || a >= fim {
        Some(Seq::empty())
    } else {
        proof {
            lemma_fim_do_trecho(texto, i, fim, true);
            lemma_fim_do_trecho(texto, a, fim, false);
        }
        match (inteiro_i32(texto, a, b), numeros(texto, b, fim)) {
            (Some(v), Some(resto)) => Some(seq![v] + resto),
            _ => None,
        }
    }
}

/// The task that the line from `i` to `fim` holds.
pub open spec fn tarefa_da_linha(texto: Seq<u8>, i: int, fim: int) -> Result<
    DadosTarefa,
    ErroLeitura,
> {
    match numeros(texto, i, fim) {
        None => Err(ErroLeitura::DadoDaTarefa),
        Some(vs) => if vs.len() < 2 {
            Err(ErroLeitura::LinhaIncompleta)
        } else {
            Ok(DadosTarefa { duracao: vs[0], entrega: vs[1] })
        },
    }
}

/// The tasks that the lines from `i` on hold, `restam` of them at most.
pub open spec fn tarefas_lidas(texto: Seq<u8>, i: int, restam: int) -> Result<
    Seq<DadosTarefa>,
    ErroLeitura,
>
    decreases restam,
{
    if restam <= 0 || i < 0 || i >= texto.len() {
        Ok(Seq::empty())
    } else {
        let fim = fim_da_linha(texto, i);
        match tarefa_da_linha(texto, i, fim) {
            Err(e) => Err(e),
            Ok(t) => match tarefas_lidas(texto, fim + 1, restam - 1) {
                Err(e) => Err(e),
                Ok(resto) => Ok(seq![t] + resto),
            },
        }
    }
}

/// The number of tasks that the first line announces.
pub open spec fn numero_de_tarefas(texto: Seq<u8>) -> Option<int> {
    let fim = fim_da_linha(texto, 0);
    let a = fim_do_trecho(texto, 0, fim, true);
    let b = fim_do_trecho(texto, a, fim, false);
    let c = fim_do_trecho(texto, b, fim, true);
    if c == fim {
        natural_usize(texto, a, b)
    } else {
        None
    }
}

/// The tasks that the text holds.
pub open spec fn leitura(texto: Seq<u8>) -> Result<Seq<DadosTarefa>, ErroLeitura> {
    match numero_de_tarefas(texto) {
        None => Err(ErroLeitura::NumeroDeTarefas),
        Some(n) => tarefas_lidas(texto, fim_da_linha(texto, 0) + 1, n),
    }
}

/// A run ends between its start and the limit, at the limit or at a
/// character that is not of the run; a run that starts at a character of its
/// kind is not empty.
pub proof fn lemma_fim_do_trecho(texto: Seq<u8>, i: int, fim: int, brancos: bool)
    requires
        0 <= i,
    ensures
        i <= fim ==> i <= fim_do_trecho(texto, i, fim, brancos) <= fim,
        i > fim ==> fim_do_trecho(texto, i, fim, brancos) == i,
        fim_do_trecho(texto, i, fim, brancos) < fim ==> eh_branco(
            texto[fim_do_trecho(texto, i, fim, brancos)],
        ) != brancos,
        i < fim && eh_branco(texto[i]) == brancos ==> fim_do_trecho(texto, i, fim, brancos) > i,
        forall|k: int|
            i <= k < fim_do_trecho(texto, i, fim, brancos) ==> eh_branco(#[trigger] texto[k])
                == brancos,
    decreases fim - i,
{
    if i < fim && eh_branco(texto[i]) == brancos {
        lemma_fim_do_trecho(texto, i + 1, fim, brancos);
    }
}

/// A line ends between its start and the end of the text, at the end or at
/// a line feed.
pub proof fn lemma_fim_da_linha(texto: Seq<u8>, i: int)
    requires
        0 <= i <= texto.len(),
    ensures
        i <= fim_da_linha(texto, i) <= texto.len(),
        fim_da_linha(texto, i) < texto.len() ==> texto[fim_da_linha(texto, i)] == NOVA_LINHA,
        forall|k: int| i <= k < fim_da_linha(texto, i) ==> #[trigger] texto[k] != NOVA_LINHA,
    decreases texto.len() - i,
{
    if i < texto.len() && texto[i] != NOVA_LINHA {
        lemma_fim_da_linha(texto, i + 1);
    }
}

/// Whether the character is a blank.
pub fn branco(b: u8) -> (r: bool)
    ensures
        r == eh_branco(b),
{
    (9 <= b && b <= 13) || b == 32
}

/// Whether the character is a decimal digit.
pub fn digito(b: u8) -> (r: bool)
    ensures
        r == eh_digito(b),
{
    48 <= b && b <= 57
}

/// The end of the line that starts at `i`.
pub fn acha_fim_da_linha(texto: &[u8], i: usize) -> (fim: usize)
    requires
        i <= texto@.len(),
    ensures
        fim == fim_da_linha(texto@, i as int),
        i <= fim <= texto@.len(),
{
    let mut j: usize = i;
    while j < texto.len() && texto[j] != NOVA_LINHA
        invariant
            i <= j <= texto@.len(),
            fim_da_linha(texto@, i as int) == fim_da_linha(texto@, j as int),
        decreases texto@.len() - j,
    {
        j = j + 1;
    }
    j
}

/// The end of the run that starts at `i`, before `fim`.
pub fn acha_fim_do_trecho(texto: &[u8], i: usize, fim: usize, brancos: bool) -> (j: usize)
    requires
        i <= fim <= texto@.len(),
    ensures
        j == fim_do_trecho(texto@, i as int, fim as int, brancos),
        i <= j <= fim,
{
    let mut j: usize = i;
    while j < fim && branco(texto[j]) == brancos
        invariant
            i <= j <= fim <= texto@.len(),
            fim_do_trecho(texto@, i as int, fim as int, brancos) == fim_do_trecho(
                texto@,
                j as int,
                fim as int,
                brancos,
            ),
        decreases fim - j,
    {
        j = j + 1;
    }
    j
}

/// The number that the digits from `d` to `b` spell, as long as it stays
/// below `teto`, and `teto` otherwise; nothing when they are not all digits.
fn le_digitos(texto: &[u8], d: usize, b: usize, teto: u128) -> (r: Option<u128>)
    requires
        d <= b <= texto@.len(),
        teto <= 0x1_0000_0000_0000_0000,
    ensures
        r is Some <==> so_digitos(texto@, d as int, b as int),
        r is Some ==> 0 <= valor(texto@, d as int, b as int),
        r matches Some(v) ==> v == (if valor(texto@, d as int, b as int) < teto {
            valor(texto@, d as int, b as int)
        } else {
            teto as int
        }),
{
    let mut acc: u128 = 0;
    let mut k: usize = d;
    while k < b
        invariant
            d <= k <= b <= texto@.len(),
            teto <= 0x1_0000_0000_0000_0000,
            so_digitos(texto@, d as int, k as int),
            0 <= valor(texto@, d as int, k as int),
            acc == (if valor(texto@, d as int, k as int) < teto {
                valor(texto@, d as int, k as int)
            } else {
                teto as int
            }),
        decreases b - k,
    {
        let c: u8 = texto[k];
        if !digito(c) {
            return None;
        }
        let novo: u128 = acc * 10 + (c - ZERO) as u128;
        acc = if novo < teto {
            novo
        } else {
            teto
        };
        k = k + 1;
    }
    Some(acc)
}

/// The number of tasks that the word from `a` to `b` spells.
pub fn le_natural(texto: &[u8], a: usize, b: usize) -> (r: Option<usize>)
    requires
        a <= b <= texto@.len(),
    ensures
        r matches Some(n) ==> natural_usize(texto@, a as int, b as int) == Some(n as int),
        r is None ==> natural_usize(texto@, a as int, b as int) is None,
{
    let d: usize = if a < b && texto[a] == MAIS {
        a + 1
    } else {
        a
    };
    if d >= b {
        return None;
    }
    let teto: u128 = usize::MAX as u128 + 1;
    match le_digitos(texto, d, b, teto) {
        None => None,
        Some(v) => if v < teto {
            Some(v as usize)
        } else {
            None
        },
    }
}

/// The integer of 32 bits that the word from `a` to `b` spells.
pub fn le_inteiro(texto: &[u8], a: usize, b: usize) -> (r: Option<i32>)
    requires
        a <= b <= texto@.len(),
    ensures
        r matches Some(v) ==> inteiro_i32(texto@, a as int, b as int) == Some(v as int),
        r is None ==> inteiro_i32(texto@, a as int, b as int) is None,
{
    let negativo: bool = a < b && texto[a] == MENOS;
    let d: usize = if a < b && (texto[a] == MENOS || texto[a] == MAIS) {
        a + 1
    } else {
        a
    };
    if d >= b {
        return None;
    }
    // One more than the largest magnitude, which is that of the minimum.
    let teto: u128 = 0x8000_0001;
    match le_digitos(texto, d, b, teto) {
        None => None,
        Some(v) => if negativo {
            if v <= 0x8000_0000 {
                Some((-(v as i64)) as i32)
            } else {
                None
            }
        } else {
            if v <= 0x7FFF_FFFF {
                Some(v as i32)
            } else {
                None
            }
        },
    }
}

/// The task that the line from `i` to `fim` holds.
pub fn le_tarefa(texto: &[u8], i: usize, fim: usize) -> (r: Result<Tarefa, ErroLeitura>)
    requires
        i <= fim <= texto@.len(),
    ensures
        match tarefa_da_linha(texto@, i as int, fim as int) {
            Ok(d) => r matches Ok(t) && t@ == d,
            Err(e) => r matches Err(e2) && e2 == e,
        },
{
    let ghost t = texto@;
    let mut pos: usize = i;
    let mut quantos: usize = 0;
    let mut duracao: i32 = 0;
    let mut entrega: i32 = 0;
    let ghost mut lidos: Seq<int> = Seq::empty();
    loop
        invariant_except_break
            t == texto@,
            i <= pos <= fim <= t.len(),
            quantos == (if lidos.len() < 2 { lidos.len() as int } else { 2 }),
            lidos.len() >= 1 ==> duracao == lidos[0],
            lidos.len() >= 2 ==> entrega == lidos[1],
            numeros(t, i as int, fim as int) == (match numeros(t, pos as int, fim as int) {
                Some(resto) => Some(lidos + resto),
                None => None,
            }),
        ensures
            numeros(t, i as int, fim as int) == Some(lidos),
            quantos == (if lidos.len() < 2 { lidos.len() as int } else { 2 }),
            lidos.len() >= 1 ==> duracao == lidos[0],
            lidos.len() >= 2 ==> entrega == lidos[1],
        decreases fim - pos,
    {
        let a: usize = acha_fim_do_trecho(texto, pos, fim, true);
        if a >= fim {
            proof {
                assert(numeros(t, pos as int, fim as int) == Some(Seq::<int>::empty()));
                assert(lidos + Seq::<int>::empty() =~= lidos);
            }
            break ;
        }
        let b: usize = acha_fim_do_trecho(texto, a, fim, false);
        proof {
            lemma_fim_do_trecho(t, pos as int, fim as int, true);
            lemma_fim_do_trecho(t, a as int, fim as int, false);
        }
        match le_inteiro(texto, a, b) {
            None => {
                assert(numeros(t, pos as int, fim as int) is None);
                return Err(ErroLeitura::DadoDaTarefa);
            },
            Some(v) => {
                proof {
                    match numeros(t, b as int, fim as int) {
                        Some(resto) => {
                            assert(lidos + (seq![v as int] + resto) =~= lidos.push(v as int)
                                + resto);
                        },
                        None => {},
                    }
                }
                if quantos == 0 {
                    duracao = v;
                    quantos = 1;
                } else if quantos == 1 {
                    entrega = v;
                    quantos = 2;
                }
                proof {
                    lidos = lidos.push(v as int);
                }
                pos = b;
            },
        }
    }
    if quantos < 2 {
        Err(ErroLeitura::LinhaIncompleta)
    } else {
        Ok(Tarefa::new(duracao, entrega))
    }
}

/// The tasks that the text holds.
pub fn le_tarefas(texto: &[u8]) -> (r: Result<Vec<Tarefa>, ErroLeitura>)
    ensures
        match leitura(texto@) {
            Ok(ts) => r matches Ok(v) && dados_de(v@) == ts,
            Err(e) => r matches Err(e2) && e2 == e,
        },
{
    let ghost t = texto@;
    let fim: usize = acha_fim_da_linha(texto, 0);
    let a: usize = acha_fim_do_trecho(texto, 0, fim, true);
    let b: usize = acha_fim_do_trecho(texto, a, fim, false);
    let c: usize = acha_fim_do_trecho(texto, b, fim, true);
    if c != fim {
        return Err(ErroLeitura::NumeroDeTarefas);
    }
    let n: usize = match le_natural(texto, a, b) {
        None => {
            return Err(ErroLeitura::NumeroDeTarefas);
        },
        Some(n) => n,
    };
    let mut tarefas: Vec<Tarefa> = Vec::new();
    let mut restam: usize = n;
    let mut pos: usize = if fim < texto.len() {
        fim + 1
    } else {
        fim
    };
    let ghost inicio = fim + 1;
    proof {
        assert(natural_usize(t, a as int, b as int) == Some(n as int));
        assert(numero_de_tarefas(t) == Some(n as int));
        assert(dados_de(tarefas@) =~= Seq::<DadosTarefa>::empty());
        match tarefas_lidas(t, inicio, n as int) {
            Ok(resto) => {
                assert(Seq::<DadosTarefa>::empty() + resto =~= resto);
            },
            Err(_) => {},
        }
    }
    while restam > 0 && pos < texto.len()
        invariant
            t == texto@,
            pos <= t.len(),
            leitura(t) == tarefas_lidas(t, inicio, n as int),
            tarefas_lidas(t, inicio, n as int) == (match tarefas_lidas(
                t,
                pos as int,
                restam as int,
            ) {
                Ok(resto) => Ok(dados_de(tarefas@) + resto),
                Err(e) => Err(e),
            }),
        decreases restam,
    {
        let f: usize = acha_fim_da_linha(texto, pos);
        let ghost antes = dados_de(tarefas@);
        match le_tarefa(texto, pos, f) {
            Err(e) => {
                return Err(e);
            },
            Ok(tarefa) => {
                proof {
                    match tarefas_lidas(t, f + 1, restam - 1) {
                        Ok(resto) => {
                            assert(antes + (seq![tarefa@] + resto) =~= antes.push(tarefa@) + resto);
                        },
                        Err(_) => {},
                    }
                }
                tarefas.push(tarefa);
                assert(dados_de(tarefas@) =~= antes.push(tarefa@));
            },
        }
        restam = restam - 1;
        pos = if f < texto.len() {
            f + 1
        } else {
            f
        };
        proof {
            // Past the end of the text there are no lines, wherever one
            // stands.
            assert(tarefas_lidas(t, f + 1, restam as int) == tarefas_lidas(
                t,
                pos as int,
                restam as int,
            ));
        }
    }
    proof {
        assert(tarefas_lidas(t, pos as int, restam as int) == Ok::<
            Seq<DadosTarefa>,
            ErroLeitura,
        >(Seq::empty()));
        assert(dados_de(tarefas@) + Seq::<DadosTarefa>::empty() =~= dados_de(tarefas@));
    }
    Ok(tarefas)
}

/// The instance that the text holds.
pub fn le_instancia(texto: &[u8]) -> (r: Result<Instancia, ErroLeitura>)
    ensures
        match leitura(texto@) {
            Ok(ts) => if instancia_valida(ts) {
                r matches Ok(inst) && inst@ == ts
            } else {
                r matches Err(e) && e == ErroLeitura::InstanciaInvalida
            },
            Err(e) => r matches Err(e2) && e2 == e,
        },
{
    match le_tarefas(texto) {
        Err(e) => Err(e),
        Ok(tarefas) => match Instancia::new(tarefas) {
            Some(inst) => Ok(inst),
            None => Err(ErroLeitura::InstanciaInvalida),
        },
    }
}

} // verus!
