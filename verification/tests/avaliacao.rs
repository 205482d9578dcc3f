use escalonamento::instancia::INF;
use escalonamento::instancia::{frequencias, is_factivel, Instancia, Solucao, Tarefa};

fn instancia(dados: &[(i32, i32)]) -> Instancia {
    let tarefas = dados.iter().map(|&(d, e)| Tarefa::new(d, e)).collect();
    Instancia::new(tarefas).expect("valid instance")
}

#[test]
fn tarefa_guarda_duracao_e_entrega() {
    let t = Tarefa::new(7, -3);
    assert_eq!(t.duracao(), 7);
    assert_eq!(t.entrega(), -3);
}

#[test]
fn instancia_vazia_nao_tem_tarefas() {
    let inst = Instancia::toy();
    assert_eq!(inst.num_tarefas(), 0);
    assert_eq!(Solucao::new(&inst, vec![]).fo(), 0);
    assert_eq!(Solucao::new(&inst, vec![0]).fo(), INF);
}

#[test]
fn instancia_devolve_as_tarefas_na_ordem() {
    let inst = instancia(&[(3, 2), (2, 10), (4, 5)]);
    assert_eq!(inst.num_tarefas(), 3);
    assert_eq!(inst.tarefa(0).duracao(), 3);
    assert_eq!(inst.tarefa(1).entrega(), 10);
    assert_eq!(inst.tarefa(2).duracao(), 4);
    assert_eq!(inst.tarefa(2).entrega(), 5);
}

#[test]
fn instancia_recusa_duracao_negativa() {
    assert!(Instancia::new(vec![Tarefa::new(1, 1), Tarefa::new(-1, 5)]).is_none());
}

#[test]
fn instancia_recusa_custo_que_alcanca_o_sentinela() {
    // One task: the bound is the duration plus the size of the due date.
    assert!(Instancia::new(vec![Tarefa::new(999_999_999, 0)]).is_some());
    assert!(Instancia::new(vec![Tarefa::new(1_000_000_000, 0)]).is_none());
    assert!(Instancia::new(vec![Tarefa::new(0, -999_999_999)]).is_some());
    assert!(Instancia::new(vec![Tarefa::new(0, -1_000_000_000)]).is_none());
    assert!(Instancia::new(vec![Tarefa::new(0, i32::MIN)]).is_none());
    assert!(Instancia::new(vec![Tarefa::new(i32::MAX, i32::MAX)]).is_none());
    // Two tasks: twice the total duration plus the larger due date.
    assert!(Instancia::new(vec![Tarefa::new(100_000_000, 299_999_999), Tarefa::new(100_000_000, 0)])
        .is_some());
    assert!(Instancia::new(vec![Tarefa::new(100_000_000, 300_000_000), Tarefa::new(100_000_000, 0)])
        .is_none());
}

#[test]
fn instancia_aceita_muitas_tarefas_pequenas() {
    let tarefas: Vec<Tarefa> = (0..1000).map(|i| Tarefa::new(10, 10 * i)).collect();
    let inst = Instancia::new(tarefas).expect("valid instance");
    let seq: Vec<usize> = (0..1000).collect();
    // Task i completes at 10 (i + 1) and is due at 10 i.
    assert_eq!(Solucao::new(&inst, seq).fo(), 10_000);
}

#[test]
fn custo_soma_atrasos_e_adiantamentos() {
    let inst = instancia(&[(3, 2), (2, 10), (4, 5)]);
    // Completions 3, 5, 9 against due dates 2, 10, 5.
    assert_eq!(Solucao::calcula_fo(&inst, &vec![0, 1, 2]), 1 + 5 + 4);
    // Task 2 at 4 (due 5), task 0 at 7 (due 2), task 1 at 9 (due 10).
    assert_eq!(Solucao::calcula_fo(&inst, &vec![2, 0, 1]), 1 + 5 + 1);
    assert_eq!(Solucao::calcula_fo(&inst, &vec![1, 2, 0]), 8 + 1 + 7);
}

#[test]
fn custo_com_entrega_negativa() {
    let inst = instancia(&[(4, -6), (1, 0)]);
    assert_eq!(Solucao::calcula_fo(&inst, &vec![0, 1]), 10 + 5);
    assert_eq!(Solucao::calcula_fo(&inst, &vec![1, 0]), 1 + 11);
}

#[test]
fn custo_de_uma_tarefa_no_prazo_e_zero() {
    let inst = instancia(&[(5, 5)]);
    assert_eq!(Solucao::new(&inst, vec![0]).fo(), 0);
}

#[test]
fn custo_e_o_mesmo_a_cada_avaliacao() {
    let inst = instancia(&[(3, 2), (2, 10), (4, 5), (1, 1)]);
    let seq = vec![3, 1, 0, 2];
    let a = Solucao::calcula_fo(&inst, &seq);
    let b = Solucao::calcula_fo(&inst, &seq);
    let c = Solucao::new(&inst, seq.clone()).fo();
    assert_eq!(a, b);
    assert_eq!(a, c);
    assert!(a < INF);
}

#[test]
fn sequencia_invalida_custa_o_sentinela() {
    let inst = instancia(&[(3, 2), (2, 10), (4, 5)]);
    assert_eq!(INF, 1_000_000_000);
    assert_eq!(Solucao::calcula_fo(&inst, &vec![0, 1, 1]), INF);
    assert_eq!(Solucao::calcula_fo(&inst, &vec![0, 1]), INF);
    assert_eq!(Solucao::calcula_fo(&inst, &vec![]), INF);
    assert_eq!(Solucao::calcula_fo(&inst, &vec![0, 1, 2, 0]), INF);
    assert_eq!(Solucao::calcula_fo(&inst, &vec![0, 1, 3]), INF);
    assert_eq!(Solucao::calcula_fo(&inst, &vec![0, 1, usize::MAX]), INF);
    assert_eq!(Solucao::calcula_fo(&inst, &vec![7, 8, 9]), INF);
}

#[test]
fn factivel_so_para_permutacoes() {
    assert!(is_factivel(&vec![], 0));
    assert!(is_factivel(&vec![0], 1));
    assert!(is_factivel(&vec![2, 0, 1], 3));
    assert!(!is_factivel(&vec![2, 0, 1], 4));
    assert!(!is_factivel(&vec![2, 0, 1], 2));
    assert!(!is_factivel(&vec![0, 0, 1], 3));
    assert!(!is_factivel(&vec![0, 3, 1], 3));
    assert!(!is_factivel(&vec![1], 1));
}

#[test]
fn frequencias_conta_cada_id() {
    assert_eq!(frequencias(&vec![]), Vec::<u64>::new());
    assert_eq!(frequencias(&vec![2, 0, 1]), vec![1, 1, 1]);
    assert_eq!(frequencias(&vec![1, 1, 1, 0]), vec![1, 3, 0, 0]);
    // Ids beyond the length are not counted.
    assert_eq!(frequencias(&vec![5, 0, 9]), vec![1, 0, 0]);
}

#[test]
fn simulacao_da_o_fim_de_cada_tarefa() {
    let inst = instancia(&[(3, 2), (2, 10), (4, 5)]);
    assert_eq!(Solucao::executar_simulacao(&inst, &vec![0, 1, 2]), vec![3, 5, 9]);
    assert_eq!(Solucao::executar_simulacao(&inst, &vec![2, 0, 1]), vec![7, 9, 4]);
}

#[test]
fn solucao_guarda_sequencia_e_custo() {
    let inst = instancia(&[(3, 2), (2, 10), (4, 5)]);
    let s = Solucao::new(&inst, vec![2, 0, 1]);
    assert_eq!(s.sequencia(), &vec![2, 0, 1]);
    assert_eq!(s.fo(), 7);
    let c = s.clone();
    assert_eq!(c.sequencia(), s.sequencia());
    assert_eq!(c.fo(), s.fo());
}

#[test]
fn solucao_vazia_custa_o_sentinela() {
    let s = Solucao::vazia();
    assert!(s.sequencia().is_empty());
    assert_eq!(s.fo(), INF);
}
