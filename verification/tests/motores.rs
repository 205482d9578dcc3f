use escalonamento::ag::{Ag, Cruzamento, Mutacao};
use escalonamento::custo::INF;
use escalonamento::fracao::Fracao;
use escalonamento::ag::{geracao, populacao_inicial};
use escalonamento::grasp::{
    amostra_vizinhos, best_improvement, busca_local, busca_local_vizinho, construcao,
    earliest_due_date, earliest_due_date_com, lista_de_abertos, melhor_entre, neh_semiguloso, neh_semiguloso_com,
    numero_de_candidatos,
    two_opt_loop, two_opt_swap, vnd, Grasp, Vizinhanca,
};
use escalonamento::instancia::{
    busca, busca_com, custo_parcial, is_factivel, melhor_insercao, neh, ordem_folga, ordem_neh, posicao_de, realoca,
    Instancia, Solucao, Tarefa,
};
use escalonamento::ag::numero_de_cruzamentos;
use escalonamento::ag::recombinacao;
use escalonamento::parada::Progresso;
use escalonamento::relogio::{dentro_do_prazo, prazo_aberto};
use rand::{SeedableRng, XorShiftRng};
use std::time::{Duration, Instant};

fn gerador(semente: u32) -> XorShiftRng {
    XorShiftRng::from_seed([semente, 0x9e37_79b9, 0x7f4a_7c15, 0x1234_5678])
}

fn instancia(dados: &[(i32, i32)]) -> Instancia {
    let tarefas = dados.iter().map(|&(d, e)| Tarefa::new(d, e)).collect();
    Instancia::new(tarefas).expect("valid instance")
}

fn permutacoes(n: usize) -> Vec<Vec<usize>> {
    if n == 0 {
        return vec![vec![]];
    }
    let mut todas = Vec::new();
    for p in permutacoes(n - 1) {
        for i in 0..n {
            let mut q = p.clone();
            q.insert(i, n - 1);
            todas.push(q);
        }
    }
    todas
}

fn otimo(inst: &Instancia) -> i32 {
    permutacoes(inst.num_tarefas())
        .iter()
        .map(|p| Solucao::calcula_fo(inst, p))
        .min()
        .unwrap()
}

fn confere(inst: &Instancia, s: &Solucao) {
    assert!(is_factivel(s.sequencia(), inst.num_tarefas()));
    assert_eq!(s.fo(), Solucao::calcula_fo(inst, s.sequencia()));
    assert!(s.fo() < INF);
}

fn quatro_tarefas() -> Instancia {
    instancia(&[(4, 5), (3, 12), (6, 8), (2, 3)])
}

#[test]
fn progresso_guarda_a_melhor_e_a_iteracao() {
    let inst = instancia(&[(1, 1), (1, 3), (1, 3)]);
    let nova = |s: &[usize]| Solucao::new(&inst, s.to_vec());
    let mut prog = Progresso::novo(nova(&[1, 0, 2]));
    assert_eq!(prog.melhor_fo(), 3);
    // Not cheaper: nothing changes but the count.
    assert!(!prog.registra(&nova(&[2, 1, 0])));
    assert_eq!(prog.melhor_fo(), 3);
    assert!(!prog.registra(&nova(&[1, 0, 2])));
    assert_eq!(prog.melhor_fo(), 3);
    // Cheaper: found in the iteration numbered 2.
    assert!(prog.registra(&nova(&[0, 2, 1])));
    assert_eq!(prog.melhor_fo(), 1);
    assert!(!prog.registra(&nova(&[0, 1, 2])));
    let (melhor, it_melhor, it) = prog.resultado();
    assert_eq!(melhor.sequencia(), &vec![0, 2, 1]);
    assert_eq!(melhor.fo(), 1);
    assert_eq!(it_melhor, 2);
    assert_eq!(it, 4);
}

#[test]
fn melhor_custo_registrado_nunca_sobe() {
    let inst = quatro_tarefas();
    let mut rng = gerador(1);
    let mut prog = Progresso::novo(Solucao::vazia());
    let mut anterior = prog.melhor_fo();
    assert_eq!(anterior, INF);
    for _ in 0..200 {
        let candidata = escalonamento::ag::individuo_aleatorio(&mut rng, &inst);
        let melhorou = prog.registra(&candidata);
        assert_eq!(melhorou, candidata.fo() < anterior);
        assert!(prog.melhor_fo() <= anterior);
        assert_eq!(prog.melhor_fo(), anterior.min(candidata.fo()));
        anterior = prog.melhor_fo();
    }
}

#[test]
fn progresso_para_depois_de_max_iter_sem_melhora() {
    let inst = instancia(&[(1, 1), (1, 3), (1, 3)]);
    let nova = |s: &[usize]| Solucao::new(&inst, s.to_vec());
    let mut prog = Progresso::novo(nova(&[1, 0, 2]));
    assert!(!prog.ativo(0));
    assert!(prog.ativo(1));
    prog.registra(&nova(&[1, 0, 2]));
    assert!(!prog.ativo(1));
    assert!(prog.ativo(2));
    prog.registra(&nova(&[0, 1, 2]));
    // Improved in iteration 1, two iterations done.
    assert!(!prog.ativo(1));
    assert!(prog.ativo(2));
    prog.registra(&nova(&[0, 1, 2]));
    assert!(!prog.ativo(2));
    assert!(prog.ativo(3));
}

#[test]
fn prazo_zero_ja_passou() {
    let inicio = Instant::now();
    assert!(!dentro_do_prazo(&inicio, &Duration::from_secs(0)));
    assert!(dentro_do_prazo(&inicio, &Duration::from_secs(3600)));
}

#[test]
fn numero_de_cruzamentos_e_metade_da_fracao() {
    let f = Fracao::new(8, 10).unwrap();
    assert_eq!(numero_de_cruzamentos(200, &f), 80);
    assert_eq!(numero_de_cruzamentos(7, &f), 2);
    assert_eq!(numero_de_cruzamentos(1, &Fracao::um()), 0);
    assert_eq!(numero_de_cruzamentos(1000, &Fracao::um()), 500);
    assert_eq!(numero_de_cruzamentos(1000, &Fracao::new(95, 100).unwrap()), 475);
    assert_eq!(numero_de_cruzamentos(1000, &Fracao::zero()), 0);
}

#[test]
fn numero_de_candidatos_e_o_teto_da_fracao() {
    let f = Fracao::new(3, 10).unwrap();
    assert_eq!(numero_de_candidatos(10, &f), 3);
    assert_eq!(numero_de_candidatos(11, &f), 4);
    assert_eq!(numero_de_candidatos(1, &f), 1);
    assert_eq!(numero_de_candidatos(0, &f), 0);
    assert_eq!(numero_de_candidatos(5, &Fracao::zero()), 0);
    assert_eq!(numero_de_candidatos(5, &Fracao::um()), 5);
}

#[test]
fn recombinacao_da_filhos_avaliados() {
    let inst = quatro_tarefas();
    let mut rng = gerador(2);
    let a = vec![0, 1, 2, 3];
    let b = vec![3, 2, 1, 0];
    let c = vec![1, 3, 0, 2];
    for cruz in [Cruzamento::PMX, Cruzamento::OX] {
        for metodo in [Mutacao::Swap, Mutacao::TwoOpt] {
            let pais = vec![(&a, &b), (&b, &c), (&c, &a)];
            let filhos =
                recombinacao(&mut rng, &inst, pais, &Fracao::new(1, 2).unwrap(), cruz, metodo);
            assert_eq!(filhos.len(), 6);
            for f in &filhos {
                confere(&inst, f);
            }
        }
    }
}

#[test]
fn custo_parcial_das_tarefas_colocadas() {
    let inst = instancia(&[(3, 2), (2, 10), (4, 5)]);
    assert_eq!(custo_parcial(&inst, &vec![]), 0);
    // Task 1 alone completes at 2 and is due at 10.
    assert_eq!(custo_parcial(&inst, &vec![1]), 8);
    // Task 0 at 3 (due 2), task 2 at 7 (due 5).
    assert_eq!(custo_parcial(&inst, &vec![0, 2]), 1 + 2);
    assert_eq!(custo_parcial(&inst, &vec![2, 0]), 1 + 5);
    // A full schedule costs what the objective function says.
    assert_eq!(custo_parcial(&inst, &vec![2, 0, 1]), 7);
    assert_eq!(custo_parcial(&inst, &vec![2, 0, 1]), Solucao::calcula_fo(&inst, &vec![2, 0, 1]));
}

#[test]
fn melhor_insercao_fica_com_a_primeira_das_mais_baratas() {
    let inst = instancia(&[(2, 2), (2, 4), (2, 6)]);
    assert_eq!(melhor_insercao(&inst, &vec![], 1), vec![1]);
    // 0 1 costs nothing, 1 0 costs 2 + 2.
    assert_eq!(melhor_insercao(&inst, &vec![1], 0), vec![0, 1]);
    // 2 0 1 costs 8, 0 2 1 costs 4, 0 1 2 costs 0.
    assert_eq!(melhor_insercao(&inst, &vec![0, 1], 2), vec![0, 1, 2]);
    // 2 1 and 1 2 both cost 4: the first position wins.
    assert_eq!(melhor_insercao(&inst, &vec![1], 2), vec![2, 1]);
    // The partial cost decides, not the cost of a full schedule: 0 2 costs
    // 2, 2 0 costs 4 + 2.
    assert_eq!(melhor_insercao(&inst, &vec![2], 0), vec![0, 2]);
    // Equal tasks: 1 0 and 0 1 cost the same, the first position wins.
    let iguais = instancia(&[(3, 4), (3, 4)]);
    assert_eq!(melhor_insercao(&iguais, &vec![0], 1), vec![1, 0]);
    let outra = instancia(&[(3, 2), (2, 10), (4, 5)]);
    // 1 2 0 costs 8 + 1 + 7, 2 1 0 costs 1 + 4 + 7, 2 0 1 costs 1 + 5 + 1.
    assert_eq!(melhor_insercao(&outra, &vec![2, 0], 1), vec![2, 0, 1]);
    // 1 0 2 costs 8 + 3 + 4, 0 1 2 costs 1 + 5 + 4, 0 2 1 costs 1 + 2 + 1.
    assert_eq!(melhor_insercao(&outra, &vec![0, 2], 1), vec![0, 2, 1]);
}

#[test]
fn ordens_das_construcoes() {
    let inst = instancia(&[(2, 7), (5, 3), (1, 7), (4, 9), (3, 3)]);
    // Latest due date first, equal due dates by id.
    assert_eq!(ordem_neh(&inst), vec![3, 0, 2, 1, 4]);
    // Slacks 5, -2, 6, 5, 0.
    assert_eq!(ordem_folga(&inst), vec![1, 4, 0, 3, 2]);
    assert!(ordem_neh(&Instancia::toy()).is_empty());
    assert!(ordem_folga(&Instancia::toy()).is_empty());
}

#[test]
fn neh_constroi_por_insercao() {
    // Tasks enter by ascending due date, and each goes where the tasks placed
    // so far cost least.
    let inst = instancia(&[(2, 2), (2, 4), (2, 6)]);
    let s = neh(&inst);
    assert_eq!(s.sequencia(), &vec![0, 1, 2]);
    assert_eq!(s.fo(), 0);
    let inst = instancia(&[(2, 6), (2, 4), (2, 2)]);
    let s = neh(&inst);
    assert_eq!(s.sequencia(), &vec![2, 1, 0]);
    assert_eq!(s.fo(), 0);
    // Order of entry 2, 0, 3, 1. Task 2 alone costs 1; 0 2 costs 1 + 4 and
    // 2 0 costs 1 + 2; 3 2 0 costs 6 + 2 + 5, 2 3 0 costs 1 + 5 + 5 and
    // 2 0 3 costs 1 + 2 + 0; task 1 is cheapest at the end.
    let inst = instancia(&[(5, 4), (1, 20), (1, 2), (3, 9)]);
    let s = neh(&inst);
    assert_eq!(s.sequencia(), &vec![2, 0, 3, 1]);
    assert_eq!(s.fo(), 1 + 2 + 0 + 10);
    // Order of entry 0, 1, 2: 0, then 0 1 at 0 + 7, then 2 between them.
    let inst = instancia(&[(1, 1), (1, 9), (8, 10)]);
    let s = neh(&inst);
    assert_eq!(s.sequencia(), &vec![0, 2, 1]);
    assert_eq!(s.fo(), 2);
    let s = neh(&Instancia::toy());
    assert!(s.sequencia().is_empty());
    assert_eq!(s.fo(), 0);
    let s = neh(&instancia(&[(5, 5)]));
    assert_eq!(s.sequencia(), &vec![0]);
    assert_eq!(s.fo(), 0);
}

#[test]
fn construcao_semigulosa_da_uma_solucao() {
    let inst = quatro_tarefas();
    let mut rng = gerador(3);
    for (num, den) in [(1u64, 100u64), (35, 100), (1, 2), (1, 1)] {
        let alfa = Fracao::new(num, den).unwrap();
        for _ in 0..20 {
            let s = neh_semiguloso(&mut rng, &inst, &alfa).expect("a schedule");
            confere(&inst, &s);
            confere(&inst, &construcao(&mut rng, &inst, &alfa));
        }
    }
}

#[test]
fn construcao_gulosa_poe_cada_tarefa_onde_o_parcial_custa_menos() {
    // With one candidate only the draws do not matter: the tasks enter by
    // descending due date. Task 2 alone costs 2; 1 2 costs 8 + 1 and 2 1
    // costs 2 + 0; 0 2 1 costs 0 + 1 + 1, and the other two places cost 11.
    let inst = instancia(&[(1, 1), (1, 9), (8, 10)]);
    let alfa = Fracao::new(1, 10).unwrap();
    for semente in 1..20 {
        let mut rng = gerador(semente);
        let s = neh_semiguloso(&mut rng, &inst, &alfa).expect("a schedule");
        assert_eq!(s.sequencia(), &vec![0, 2, 1]);
        assert_eq!(s.fo(), 2);
        let s = construcao(&mut rng, &inst, &alfa);
        assert_eq!(s.sequencia(), &vec![0, 2, 1]);
    }
}

#[test]
fn construcao_sem_candidatos_falha() {
    let mut rng = gerador(5);
    assert!(neh_semiguloso(&mut rng, &quatro_tarefas(), &Fracao::zero()).is_none());
    let s = neh_semiguloso(&mut rng, &Instancia::toy(), &Fracao::zero()).expect("empty schedule");
    assert!(s.sequencia().is_empty());
    assert_eq!(s.fo(), 0);
    let s = construcao(&mut rng, &Instancia::toy(), &Fracao::zero());
    assert_eq!(s.fo(), 0);
}

#[test]
fn melhor_vizinho_nunca_piora() {
    let inst = quatro_tarefas();
    let mut rng = gerador(6);
    for p in permutacoes(4) {
        let s = Solucao::new(&inst, p);
        for op in [Vizinhanca::Insercao, Vizinhanca::Swap, Vizinhanca::SwapAdj, Vizinhanca::SwapXyz]
        {
            let r = best_improvement(&mut rng, &s, &inst, op, 8);
            confere(&inst, &r);
            assert!(r.fo() <= s.fo());
            if r.fo() == s.fo() {
                assert_eq!(r.sequencia(), s.sequencia());
            }
            let r = best_improvement(&mut rng, &s, &inst, op, 0);
            assert_eq!(r.sequencia(), s.sequencia());
            assert_eq!(r.fo(), s.fo());
        }
    }
}

#[test]
fn descida_nunca_piora() {
    let inst = quatro_tarefas();
    let mut rng = gerador(7);
    for p in permutacoes(4) {
        let s = Solucao::new(&inst, p);
        let r = vnd(&mut rng, &inst, &s, 10);
        confere(&inst, &r);
        assert!(r.fo() <= s.fo());
        let r = busca_local(&mut rng, &inst, &s, 10);
        confere(&inst, &r);
        assert!(r.fo() <= s.fo());
        let r = vnd(&mut rng, &inst, &s, 0);
        assert_eq!(r.sequencia(), s.sequencia());
    }
    let vazia = Solucao::vazia();
    let r = vnd(&mut rng, &inst, &vazia, 5);
    assert_eq!(r.fo(), INF);
    assert!(r.sequencia().is_empty());
}

#[test]
fn rodada_de_2opt_acha_a_melhor_inversao() {
    let inst = quatro_tarefas();
    for p in permutacoes(4) {
        let s = Solucao::new(&inst, p.clone());
        let mut melhor: Option<(i32, Vec<usize>)> = None;
        for i in 0..3 {
            for k in i + 1..4 {
                let q = two_opt_swap(p.clone(), i, k);
                let fo = Solucao::calcula_fo(&inst, &q);
                if fo < melhor.as_ref().map_or(s.fo(), |m| m.0) {
                    melhor = Some((fo, q));
                }
            }
        }
        match (two_opt_loop(&inst, &s), melhor) {
            (None, None) => {}
            (Some(r), Some((fo, q))) => {
                assert_eq!(r.fo(), fo);
                assert_eq!(r.sequencia(), &q);
                assert!(r.fo() < s.fo());
            }
            _ => panic!("the round and the scan disagree"),
        }
    }
    assert!(two_opt_loop(&Instancia::toy(), &Solucao::new(&Instancia::toy(), vec![])).is_none());
    let uma = instancia(&[(5, 5)]);
    assert!(two_opt_loop(&uma, &Solucao::new(&uma, vec![0])).is_none());
}

#[test]
fn descida_de_2opt_para_num_otimo_local() {
    let inst = instancia(&[(4, 5), (3, 12), (6, 8), (2, 3), (5, 20), (1, 9)]);
    let mut rng = gerador(8);
    for _ in 0..30 {
        let s = escalonamento::ag::individuo_aleatorio(&mut rng, &inst);
        let r = busca_local_vizinho(&inst, &s);
        confere(&inst, &r);
        assert!(r.fo() <= s.fo());
        assert!(two_opt_loop(&inst, &r).is_none());
        for i in 0..5 {
            for k in i + 1..6 {
                let q = two_opt_swap(r.sequencia().clone(), i, k);
                assert!(Solucao::calcula_fo(&inst, &q) >= r.fo());
            }
        }
    }
}

#[test]
fn realocacao_tenta_todas_as_posicoes() {
    let inst = instancia(&[(2, 2), (2, 4), (2, 6)]);
    assert_eq!(posicao_de(&vec![2, 0, 1], 0), 1);
    assert_eq!(posicao_de(&vec![2, 0, 1], 2), 0);
    // 2 0 1 costs 4 + 2 + 2. Task 2 at position 0 changes nothing; at
    // position 1 it gives 0 2 1 at cost 4; at position 2 it gives 0 1 2.
    let s = realoca(&inst, Solucao::new(&inst, vec![2, 0, 1]), 2);
    assert_eq!(s.sequencia(), &vec![0, 1, 2]);
    assert_eq!(s.fo(), 0);
    // 1 0 2 costs 2 + 2. Task 2 only gets dearer elsewhere.
    let s = realoca(&inst, Solucao::new(&inst, vec![1, 0, 2]), 2);
    assert_eq!(s.sequencia(), &vec![1, 0, 2]);
    assert_eq!(s.fo(), 4);
    // Task 0 at position 0 gives 0 1 2.
    let s = realoca(&inst, Solucao::new(&inst, vec![1, 0, 2]), 0);
    assert_eq!(s.sequencia(), &vec![0, 1, 2]);
}

#[test]
fn busca_por_realocacao_nao_piora_a_ordem_por_folga() {
    let inst = instancia(&[(4, 5), (3, 12), (6, 8), (2, 3), (5, 20), (1, 9)]);
    let primeira = Solucao::new(&inst, ordem_folga(&inst));
    let mut rng = gerador(9);
    let s = busca_com(&mut rng, &inst, Duration::from_millis(50));
    confere(&inst, &s);
    assert!(s.fo() <= primeira.fo());
    let parada = busca_com(&mut rng, &inst, Duration::from_secs(0));
    assert_eq!(parada.sequencia(), primeira.sequencia());
    let vazia = busca_com(&mut rng, &Instancia::toy(), Duration::from_secs(1));
    assert_eq!(vazia.fo(), 0);
}

#[test]
fn uma_tarefa_no_prazo_custa_zero_nos_dois_motores() {
    let inst = instancia(&[(5, 5)]);
    let mut rng = gerador(10);
    let (s, it_melhor, it) = escalonamento::ag::solve_com(
        &mut rng,
        &inst,
        Duration::from_secs(10),
        5,
        10,
        &Fracao::new(8, 10).unwrap(),
        Cruzamento::PMX,
        Mutacao::Swap,
        &Fracao::new(1, 10).unwrap(),
    );
    assert_eq!(s.sequencia(), &vec![0]);
    assert_eq!(s.fo(), 0);
    assert_eq!(it_melhor, 0);
    assert_eq!(it, 5);
    let (s, it_alvo, it) = escalonamento::grasp::solve_com(
        &mut rng,
        &inst,
        &Fracao::new(35, 100).unwrap(),
        Duration::from_secs(10),
        10,
        5,
    );
    assert_eq!(s.sequencia(), &vec![0]);
    assert_eq!(s.fo(), 0);
    assert_eq!(it_alvo, 0);
    assert_eq!(it, 5);
}

#[test]
fn tres_tarefas_iguais_com_entregas_acumuladas_custam_zero() {
    let inst = instancia(&[(2, 2), (2, 4), (2, 6)]);
    for semente in 1..6 {
        let mut rng = gerador(semente);
        for cruz in [Cruzamento::PMX, Cruzamento::OX] {
            for metodo in [Mutacao::Swap, Mutacao::TwoOpt] {
                let (s, _, _) = escalonamento::ag::solve_com(
                    &mut rng,
                    &inst,
                    Duration::from_secs(10),
                    30,
                    20,
                    &Fracao::new(8, 10).unwrap(),
                    cruz,
                    metodo,
                    &Fracao::new(2, 10).unwrap(),
                );
                assert_eq!(s.sequencia(), &vec![0, 1, 2]);
                assert_eq!(s.fo(), 0);
            }
        }
        let (s, _, _) = escalonamento::grasp::solve_com(
            &mut rng,
            &inst,
            &Fracao::new(35, 100).unwrap(),
            Duration::from_secs(10),
            10,
            30,
        );
        assert_eq!(s.sequencia(), &vec![0, 1, 2]);
        assert_eq!(s.fo(), 0);
    }
}

#[test]
fn quatro_tarefas_chegam_ao_otimo_da_forca_bruta() {
    let inst = quatro_tarefas();
    let alvo = otimo(&inst);
    assert_eq!(permutacoes(4).len(), 24);
    for semente in 1..6 {
        let mut rng = gerador(semente);
        for cruz in [Cruzamento::PMX, Cruzamento::OX] {
            for metodo in [Mutacao::Swap, Mutacao::TwoOpt] {
                let (s, it_melhor, it) = escalonamento::ag::solve_com(
                    &mut rng,
                    &inst,
                    Duration::from_secs(10),
                    100,
                    60,
                    &Fracao::new(8, 10).unwrap(),
                    cruz,
                    metodo,
                    &Fracao::new(2, 10).unwrap(),
                );
                confere(&inst, &s);
                assert_eq!(s.fo(), alvo);
                assert!(it_melhor < it);
                assert!(it - it_melhor <= 100);
            }
        }
        let (s, it_alvo, it) = escalonamento::grasp::solve_com(
            &mut rng,
            &inst,
            &Fracao::new(5, 10).unwrap(),
            Duration::from_secs(10),
            15,
            100,
        );
        confere(&inst, &s);
        assert_eq!(s.fo(), alvo);
        assert!(it_alvo < it);
        assert!(it - it_alvo <= 100);
    }
}

#[test]
fn prazo_minimo_corta_as_iteracoes() {
    let inst = instancia(&[(4, 5), (3, 12), (6, 8), (2, 3), (5, 20), (1, 9)]);
    let mut rng = gerador(11);
    let inicio = Instant::now();
    let (s, it_melhor, it) = escalonamento::ag::solve_com(
        &mut rng,
        &inst,
        Duration::from_secs(0),
        1_000_000,
        20,
        &Fracao::new(8, 10).unwrap(),
        Cruzamento::OX,
        Mutacao::TwoOpt,
        &Fracao::new(1, 10).unwrap(),
    );
    assert!(inicio.elapsed() < Duration::from_secs(2));
    confere(&inst, &s);
    assert_eq!((it_melhor, it), (0, 0));
    let (_, _, mais) = escalonamento::ag::solve_com(
        &mut rng,
        &inst,
        Duration::from_secs(10),
        8,
        20,
        &Fracao::new(8, 10).unwrap(),
        Cruzamento::OX,
        Mutacao::TwoOpt,
        &Fracao::new(1, 10).unwrap(),
    );
    assert!(it < mais);

    let inicio = Instant::now();
    let (s, it_alvo, it) = escalonamento::grasp::solve_com(
        &mut rng,
        &inst,
        &Fracao::new(35, 100).unwrap(),
        Duration::from_secs(0),
        10,
        1_000_000,
    );
    assert!(inicio.elapsed() < Duration::from_secs(2));
    assert!(s.sequencia().is_empty());
    assert_eq!(s.fo(), INF);
    assert_eq!((it_alvo, it), (0, 0));
    let (s, _, mais) = escalonamento::grasp::solve_com(
        &mut rng,
        &inst,
        &Fracao::new(35, 100).unwrap(),
        Duration::from_secs(10),
        10,
        8,
    );
    confere(&inst, &s);
    assert!(it < mais);
}

#[test]
fn prazo_curto_e_respeitado() {
    let inst = instancia(&[(4, 5), (3, 12), (6, 8), (2, 3), (5, 20), (1, 9)]);
    let mut rng = gerador(12);
    let inicio = Instant::now();
    let (s, _, _) = escalonamento::ag::solve_com(
        &mut rng,
        &inst,
        Duration::from_millis(100),
        u64::MAX,
        30,
        &Fracao::new(8, 10).unwrap(),
        Cruzamento::PMX,
        Mutacao::Swap,
        &Fracao::new(1, 10).unwrap(),
    );
    confere(&inst, &s);
    assert!(inicio.elapsed() < Duration::from_secs(3));
    let inicio = Instant::now();
    let (s, _, _) = escalonamento::grasp::solve_com(
        &mut rng,
        &inst,
        &Fracao::new(35, 100).unwrap(),
        Duration::from_millis(100),
        10,
        u64::MAX,
    );
    confere(&inst, &s);
    assert!(inicio.elapsed() < Duration::from_secs(3));
}

#[test]
fn sem_paciencia_nao_ha_iteracao() {
    let inst = quatro_tarefas();
    let mut rng = gerador(13);
    let (s, it_alvo, it) = escalonamento::grasp::solve_com(
        &mut rng,
        &inst,
        &Fracao::new(35, 100).unwrap(),
        Duration::from_secs(10),
        10,
        0,
    );
    assert_eq!(s.fo(), INF);
    assert_eq!((it_alvo, it), (0, 0));
    let (s, it_melhor, it) = escalonamento::ag::solve_com(
        &mut rng,
        &inst,
        Duration::from_secs(10),
        0,
        10,
        &Fracao::um(),
        Cruzamento::PMX,
        Mutacao::Swap,
        &Fracao::um(),
    );
    confere(&inst, &s);
    assert_eq!((it_melhor, it), (0, 0));
}

#[test]
fn populacao_toda_recombinada_ainda_da_a_melhor_vista() {
    // With every individual replaced each generation the population can get
    // worse; the result is still the best schedule seen.
    let inst = instancia(&[(4, 5), (3, 12), (6, 8), (2, 3), (5, 20), (1, 9)]);
    for semente in 1..10 {
        let mut rng = gerador(semente);
        let (s, it_melhor, it) = escalonamento::ag::solve_com(
            &mut rng,
            &inst,
            Duration::from_secs(10),
            15,
            4,
            &Fracao::um(),
            Cruzamento::OX,
            Mutacao::TwoOpt,
            &Fracao::um(),
        );
        confere(&inst, &s);
        assert!(it_melhor <= it);
        assert!(it - it_melhor <= 15);
    }
}

#[test]
fn instancia_vazia_nos_dois_motores() {
    let inst = Instancia::toy();
    let mut rng = gerador(14);
    let (s, _, it) = escalonamento::ag::solve_com(
        &mut rng,
        &inst,
        Duration::from_secs(10),
        3,
        4,
        &Fracao::new(8, 10).unwrap(),
        Cruzamento::PMX,
        Mutacao::Swap,
        &Fracao::um(),
    );
    assert!(s.sequencia().is_empty());
    assert_eq!(s.fo(), 0);
    assert_eq!(it, 3);
    let (s, _, it) = escalonamento::grasp::solve_com(
        &mut rng,
        &inst,
        &Fracao::zero(),
        Duration::from_secs(10),
        5,
        3,
    );
    assert!(s.sequencia().is_empty());
    assert_eq!(s.fo(), 0);
    assert_eq!(it, 3);
}

#[test]
fn motores_com_gerador_proprio() {
    let inst = quatro_tarefas();
    let alvo = otimo(&inst);
    let (s, _, _) = escalonamento::ag::solve(
        &inst,
        Duration::from_secs(10),
        50,
        200,
        Fracao::new(8, 10).unwrap(),
        Cruzamento::PMX,
        Mutacao::Swap,
        Fracao::new(1, 10).unwrap(),
    );
    confere(&inst, &s);
    assert_eq!(s.fo(), alvo);
    let (s, _, _) = escalonamento::grasp::solve(
        &inst,
        Fracao::new(5, 10).unwrap(),
        Duration::from_secs(10),
        15,
        50,
    );
    confere(&inst, &s);
    assert_eq!(s.fo(), alvo);
}

#[test]
fn ag_configurado_por_partes() {
    let inst = quatro_tarefas();
    let alvo = otimo(&inst);
    let (s, it_melhor, it) = Ag::new(&inst)
        .max_iter(30)
        .timeout(10)
        .mut_chance(Fracao::new(3, 10).unwrap())
        .pop_tam(200)
        .xo_chance(Fracao::um())
        .cruz(Cruzamento::OX)
        .mutacao(Mutacao::TwoOpt)
        .solve();
    confere(&inst, &s);
    assert_eq!(s.fo(), alvo);
    assert!(it_melhor < it);
    let mut ag = Ag::new(&inst);
    ag.max_iter(0);
    let (s, it_melhor, it) = ag.solve();
    confere(&inst, &s);
    assert_eq!((it_melhor, it), (0, 0));
    let (s, _, it) = Ag::new(&inst).timeout(0).solve();
    confere(&inst, &s);
    assert_eq!(it, 0);
}

#[test]
fn grasp_configurado_por_partes() {
    let inst = quatro_tarefas();
    let alvo = otimo(&inst);
    let (s, it_alvo, it) = Grasp::new(&inst)
        .max_iter(40)
        .timeout(10)
        .alfa(Fracao::new(3, 10).unwrap())
        .num_vizinhos(20)
        .solve();
    confere(&inst, &s);
    assert_eq!(s.fo(), alvo);
    assert!(it_alvo < it);
    let (s, _, it) = Grasp::new(&inst).solve();
    confere(&inst, &s);
    assert!(it >= 40);
    let (s, _, it) = Grasp::new(&inst).timeout(0).solve();
    assert_eq!(s.fo(), INF);
    assert_eq!(it, 0);
}

#[test]
fn geracao_mantem_o_tamanho_e_a_ordem() {
    let inst = instancia(&[(4, 5), (3, 12), (6, 8), (2, 3), (5, 20), (1, 9)]);
    let mut rng = gerador(20);
    for (tam, xo_num) in [(1usize, 0usize), (2, 1), (7, 3), (30, 15), (30, 0), (31, 12)] {
        let mut pop = populacao_inicial(&mut rng, &inst, tam);
        for cruz in [Cruzamento::PMX, Cruzamento::OX] {
            for metodo in [Mutacao::Swap, Mutacao::TwoOpt] {
                for _ in 0..5 {
                    pop = geracao(
                        &mut rng,
                        &inst,
                        pop,
                        xo_num,
                        cruz,
                        metodo,
                        &Fracao::new(3, 10).unwrap(),
                    );
                    assert_eq!(pop.len(), tam);
                    for s in &pop {
                        confere(&inst, s);
                    }
                    assert!(pop.windows(2).all(|w| w[0].fo() <= w[1].fo()));
                }
            }
        }
    }
}

#[test]
fn geracao_sem_cruzamentos_nao_muda_a_populacao() {
    let inst = quatro_tarefas();
    let mut rng = gerador(21);
    let pop = populacao_inicial(&mut rng, &inst, 9);
    let antes: Vec<Vec<usize>> = pop.iter().map(|s| s.sequencia().clone()).collect();
    let pop = geracao(&mut rng, &inst, pop, 0, Cruzamento::OX, Mutacao::Swap, &Fracao::um());
    let depois: Vec<Vec<usize>> = pop.iter().map(|s| s.sequencia().clone()).collect();
    assert_eq!(antes, depois);
}

#[test]
fn geracao_guarda_os_que_nao_sao_os_piores() {
    let inst = instancia(&[(4, 5), (3, 12), (6, 8), (2, 3), (5, 20), (1, 9)]);
    let mut rng = gerador(22);
    for _ in 0..20 {
        let pop = populacao_inicial(&mut rng, &inst, 10);
        let melhores: Vec<Vec<usize>> = pop[..4].iter().map(|s| s.sequencia().clone()).collect();
        let menor = pop[0].fo();
        let pop = geracao(&mut rng, &inst, pop, 3, Cruzamento::PMX, Mutacao::TwoOpt, &Fracao::um());
        for m in &melhores {
            assert!(pop.iter().any(|s| s.sequencia() == m));
        }
        assert!(pop[0].fo() <= menor);
    }
}

#[test]
fn abertos_por_entrega() {
    let inst = instancia(&[(2, 7), (5, 3), (1, 7), (4, 9), (3, 3)]);
    assert_eq!(lista_de_abertos(&inst, &vec![false; 5]), vec![1, 4, 0, 2, 3]);
    assert_eq!(lista_de_abertos(&inst, &vec![false, true, false, false, false]), vec![4, 0, 2, 3]);
    assert_eq!(lista_de_abertos(&inst, &vec![true, true, false, true, true]), vec![2]);
    assert!(lista_de_abertos(&inst, &vec![true; 5]).is_empty());
    assert!(lista_de_abertos(&Instancia::toy(), &vec![]).is_empty());
}

#[test]
fn construcao_por_entrega() {
    let inst = instancia(&[(2, 7), (5, 3), (1, 7), (4, 9), (3, 3)]);
    let mut rng = gerador(23);
    for (num, den) in [(1u64, 100u64), (35, 100), (1, 1)] {
        let alfa = Fracao::new(num, den).unwrap();
        for _ in 0..20 {
            let seq = earliest_due_date(&mut rng, &inst, &alfa).expect("a schedule");
            assert!(is_factivel(&seq, 5));
            if num == 1 && den == 100 {
                // After the first task, always the earliest due date left.
                let mut resto: Vec<usize> = vec![1, 4, 0, 2, 3];
                resto.retain(|&t| t != seq[0]);
                assert_eq!(&seq[1..], &resto[..]);
            }
        }
    }
    assert!(earliest_due_date(&mut rng, &inst, &Fracao::zero()).is_none());
    let uma = instancia(&[(5, 5)]);
    assert_eq!(earliest_due_date(&mut rng, &uma, &Fracao::zero()), Some(vec![0]));
    assert_eq!(earliest_due_date(&mut rng, &Instancia::toy(), &Fracao::zero()), Some(vec![]));
}

#[test]
fn amostra_de_vizinhos() {
    let mut rng = gerador(24);
    let seq = vec![3, 1, 4, 0, 2, 5];
    for op in [Vizinhanca::Insercao, Vizinhanca::Swap, Vizinhanca::SwapAdj, Vizinhanca::SwapXyz] {
        let vizinhos = amostra_vizinhos(&mut rng, op, &seq, 25);
        assert_eq!(vizinhos.len(), 25);
        for v in &vizinhos {
            assert!(is_factivel(v, 6));
        }
        assert!(vizinhos.iter().any(|v| *v != seq));
        assert!(amostra_vizinhos(&mut rng, op, &seq, 0).is_empty());
    }
}

#[test]
fn melhor_entre_candidatos() {
    let inst = instancia(&[(2, 2), (2, 4), (2, 6)]);
    // 2 0 1 costs 8.
    let s = Solucao::new(&inst, vec![2, 0, 1]);
    assert_eq!(s.fo(), 8);
    // Costs 8, 4 and 4: the first of the cheapest wins.
    let r = melhor_entre(&inst, &s, vec![vec![2, 1, 0], vec![1, 0, 2], vec![0, 2, 1]]);
    assert_eq!(r.sequencia(), &vec![1, 0, 2]);
    assert_eq!(r.fo(), 4);
    // Costs 4, 0, 4.
    let r = melhor_entre(&inst, &s, vec![vec![0, 2, 1], vec![0, 1, 2], vec![1, 0, 2]]);
    assert_eq!(r.sequencia(), &vec![0, 1, 2]);
    assert_eq!(r.fo(), 0);
    // Nothing cheaper: the solution stays, also against its equals.
    let r = melhor_entre(&inst, &s, vec![vec![2, 1, 0], vec![1, 2, 0], vec![0, 0, 1], vec![0]]);
    assert_eq!(r.sequencia(), &vec![2, 0, 1]);
    assert_eq!(r.fo(), 8);
    let r = melhor_entre(&inst, &s, vec![]);
    assert_eq!(r.sequencia(), &vec![2, 0, 1]);
}

#[test]
fn construcao_semigulosa_com_sorteios_dados() {
    let inst = instancia(&[(5, 4), (1, 20), (1, 2), (3, 9)]);
    let tudo = Fracao::um();
    // The tasks wait in the order 1 3 0 2. Draws 0 0 0 0 take them in that
    // order: 1 at 19; 3 1 at 6 + 16; 0 3 1 at 1 + 1 + 11; then 2 in front.
    let s = neh_semiguloso_com(&inst, &tudo, &vec![0, 0, 0, 0]);
    assert_eq!(s.sequencia(), &vec![2, 0, 3, 1]);
    assert_eq!(s.fo(), 13);
    // Draws 3 0 1 0 take 2, 1, 0, 3: 2 at 1; 1 2 and 2 1 at 19, the first
    // wins; 0 1 2 at 1 + 14 + 5; then 3 after 0 at 1 + 1 + 11 + 8, which the
    // last place equals and does not beat.
    let s = neh_semiguloso_com(&inst, &tudo, &vec![3, 0, 1, 0]);
    assert_eq!(s.sequencia(), &vec![0, 3, 1, 2]);
    assert_eq!(s.fo(), 21);
    // Draws 1 2 0 5 are reduced modulo 4, 3, 2 and 1: tasks 3, 2, 1, 0.
    let s = neh_semiguloso_com(&inst, &tudo, &vec![1, 2, 0, 5]);
    assert_eq!(s.sequencia(), &vec![2, 0, 3, 1]);
    // Half of the list as candidates: two of four, two of three, one of two,
    // one of one. Draws 1 3 1 0 take 3, 0, 1, 2.
    let metade = Fracao::new(1, 2).unwrap();
    let s = neh_semiguloso_com(&inst, &metade, &vec![1, 3, 1, 0]);
    assert_eq!(s.sequencia(), &vec![2, 0, 3, 1]);
    assert_eq!(s.fo(), 13);
    let s = neh_semiguloso_com(&Instancia::toy(), &Fracao::zero(), &vec![]);
    assert!(s.sequencia().is_empty());
}

#[test]
fn busca_de_cinco_segundos() {
    let inst = quatro_tarefas();
    let primeira = Solucao::new(&inst, ordem_folga(&inst));
    let inicio = Instant::now();
    let s = busca(&inst);
    let gasto = inicio.elapsed();
    confere(&inst, &s);
    assert!(s.fo() <= primeira.fo());
    assert!(gasto >= Duration::from_secs(5));
    assert!(gasto < Duration::from_secs(8));
}

#[test]
fn construcao_por_entrega_com_sorteios_dados() {
    let inst = instancia(&[(2, 7), (5, 3), (1, 7), (4, 9), (3, 3)]);
    // Task 7 mod 5 first, then always the earliest due date that waits.
    let seq = earliest_due_date_com(&inst, &Fracao::um(), &vec![7, 0, 0, 0, 0]);
    assert_eq!(seq, vec![2, 1, 4, 0, 3]);
    // Half of the waiting tasks are candidates: of 1 4 2 3 the second, of
    // 1 2 3 the second, of 1 3 the first, and then 3.
    let metade = Fracao::new(1, 2).unwrap();
    let seq = earliest_due_date_com(&inst, &metade, &vec![0, 5, 1, 1, 9]);
    assert_eq!(seq, vec![0, 4, 2, 1, 3]);
    // All are candidates: the draws pick freely.
    let seq = earliest_due_date_com(&inst, &Fracao::um(), &vec![3, 3, 2, 1, 0]);
    // First 3; of 1 4 0 2 the fourth; of 1 4 0 the third; of 1 4 the
    // second; then 1.
    assert_eq!(seq, vec![3, 2, 0, 4, 1]);
    assert_eq!(earliest_due_date_com(&instancia(&[(5, 5)]), &Fracao::zero(), &vec![9]), vec![0]);
    assert!(earliest_due_date_com(&Instancia::toy(), &Fracao::zero(), &vec![]).is_empty());
}

#[test]
fn prazo_aberto_enquanto_falta_tempo() {
    assert!(prazo_aberto(0, 1));
    assert!(prazo_aberto(999_999_999, 1_000_000_000));
    assert!(!prazo_aberto(1_000_000_000, 1_000_000_000));
    assert!(!prazo_aberto(1_000_000_001, 1_000_000_000));
    assert!(!prazo_aberto(0, 0));
    assert!(!prazo_aberto(u128::MAX, 0));
    assert!(prazo_aberto(0, u128::MAX));
    assert!(!prazo_aberto(u128::MAX, u128::MAX));
}

#[test]
fn melhor_vizinho_quando_so_ha_um() {
    // A sequence of three has one three-point swap only: 1 2 0 becomes
    // 0 1 2, which costs nothing.
    let inst = instancia(&[(2, 2), (2, 4), (2, 6)]);
    let s = Solucao::new(&inst, vec![1, 2, 0]);
    assert_eq!(s.fo(), 8);
    for semente in 1..10 {
        let mut rng = gerador(semente);
        let r = best_improvement(&mut rng, &s, &inst, Vizinhanca::SwapXyz, 1);
        assert_eq!(r.sequencia(), &vec![0, 1, 2]);
        assert_eq!(r.fo(), 0);
        // The descent cannot end at 1 2 0, which its last neighbourhood
        // always improves.
        let r = vnd(&mut rng, &inst, &s, 1);
        assert!(r.fo() < 8);
        let r = busca_local(&mut rng, &inst, &s, 1);
        assert!(r.fo() < 8);
    }
}

#[test]
fn geracao_copia_o_unico_de_custo_zero() {
    // The one individual of cost zero takes the whole wheel: both parents
    // are that one, both children are copies of it, and without mutation
    // they take the places of the two worst.
    let inst = instancia(&[(2, 2), (2, 4), (2, 6)]);
    let nova = |s: &[usize]| Solucao::new(&inst, s.to_vec());
    for cruz in [Cruzamento::PMX, Cruzamento::OX] {
        for semente in 1..10 {
            let mut rng = gerador(semente);
            let pop = vec![nova(&[0, 1, 2]), nova(&[0, 2, 1]), nova(&[1, 2, 0]), nova(&[2, 1, 0])];
            let pop = geracao(&mut rng, &inst, pop, 1, cruz, Mutacao::Swap, &Fracao::zero());
            assert_eq!(pop.len(), 4);
            assert_eq!(pop[0].sequencia(), &vec![0, 1, 2]);
            assert_eq!(pop[1].sequencia(), &vec![0, 1, 2]);
            assert_eq!(pop[2].sequencia(), &vec![0, 1, 2]);
            assert_eq!(pop[3].sequencia(), &vec![0, 2, 1]);
        }
    }
}

#[test]
fn busca_sem_prazo_fica_na_ordem_por_folga() {
    let inst = instancia(&[(2, 7), (5, 3), (1, 7), (4, 9), (3, 3)]);
    let mut rng = gerador(30);
    let s = busca_com(&mut rng, &inst, Duration::from_secs(0));
    assert_eq!(s.sequencia(), &vec![1, 4, 0, 3, 2]);
    assert_eq!(s.fo(), Solucao::calcula_fo(&inst, &vec![1, 4, 0, 3, 2]));
}
