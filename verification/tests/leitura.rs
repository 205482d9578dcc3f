use escalonamento::instancia::{Instancia, Solucao};
use escalonamento::leitura::{
    acha_fim_da_linha, acha_fim_do_trecho, branco, digito, le_instancia, le_inteiro, le_natural,
    le_tarefa, le_tarefas, ErroLeitura,
};

fn tarefas(inst: &Instancia) -> Vec<(i32, i32)> {
    (0..inst.num_tarefas())
        .map(|i| (inst.tarefa(i).duracao(), inst.tarefa(i).entrega()))
        .collect()
}

fn lidas(texto: &str) -> Vec<(i32, i32)> {
    match le_instancia(texto.as_bytes()) {
        Ok(inst) => tarefas(&inst),
        Err(e) => panic!("{:?}", e),
    }
}

#[test]
fn brancos_e_digitos() {
    for b in 0..=255u8 {
        assert_eq!(branco(b), b == b' ' || (9..=13).contains(&b));
        assert_eq!(digito(b), b.is_ascii_digit());
    }
}

#[test]
fn fim_da_linha_e_a_proxima_quebra() {
    let t = b"ab\ncd\n\nef";
    assert_eq!(acha_fim_da_linha(t, 0), 2);
    assert_eq!(acha_fim_da_linha(t, 2), 2);
    assert_eq!(acha_fim_da_linha(t, 3), 5);
    assert_eq!(acha_fim_da_linha(t, 6), 6);
    assert_eq!(acha_fim_da_linha(t, 7), 9);
    assert_eq!(acha_fim_da_linha(t, 9), 9);
    assert_eq!(acha_fim_da_linha(b"", 0), 0);
}

#[test]
fn fim_do_trecho_separa_palavras() {
    let t = b"  12\t-7 x";
    assert_eq!(acha_fim_do_trecho(t, 0, 9, true), 2);
    assert_eq!(acha_fim_do_trecho(t, 2, 9, false), 4);
    assert_eq!(acha_fim_do_trecho(t, 2, 3, false), 3);
    assert_eq!(acha_fim_do_trecho(t, 4, 9, true), 5);
    assert_eq!(acha_fim_do_trecho(t, 5, 9, false), 7);
    assert_eq!(acha_fim_do_trecho(t, 5, 9, true), 5);
    assert_eq!(acha_fim_do_trecho(t, 8, 9, false), 9);
    assert_eq!(acha_fim_do_trecho(t, 9, 9, false), 9);
}

#[test]
fn inteiros_com_sinal() {
    let le = |s: &str| le_inteiro(s.as_bytes(), 0, s.len());
    assert_eq!(le("0"), Some(0));
    assert_eq!(le("42"), Some(42));
    assert_eq!(le("+42"), Some(42));
    assert_eq!(le("-42"), Some(-42));
    assert_eq!(le("-0"), Some(0));
    assert_eq!(le("007"), Some(7));
    assert_eq!(le("2147483647"), Some(i32::MAX));
    assert_eq!(le("2147483648"), None);
    assert_eq!(le("-2147483648"), Some(i32::MIN));
    assert_eq!(le("-2147483649"), None);
    assert_eq!(le("000000000000000000000000000000000000000012"), Some(12));
    assert_eq!(le("99999999999999999999999999999999999999999"), None);
    assert_eq!(le(""), None);
    assert_eq!(le("+"), None);
    assert_eq!(le("-"), None);
    assert_eq!(le("+-1"), None);
    assert_eq!(le("--1"), None);
    assert_eq!(le("1-"), None);
    assert_eq!(le("1.5"), None);
    assert_eq!(le("1e3"), None);
    assert_eq!(le("0x10"), None);
    assert_eq!(le(" 1"), None);
    assert_eq!(le("١"), None);
    assert_eq!(le_inteiro(b"12 345", 3, 6), Some(345));
    assert_eq!(le_inteiro(b"12 345", 1, 2), Some(2));
    assert_eq!(le_inteiro(b"12 345", 2, 2), None);
}

#[test]
fn naturais_sem_sinal_de_menos() {
    let le = |s: &str| le_natural(s.as_bytes(), 0, s.len());
    assert_eq!(le("0"), Some(0));
    assert_eq!(le("+3"), Some(3));
    assert_eq!(le("250"), Some(250));
    assert_eq!(le("-3"), None);
    assert_eq!(le("-0"), None);
    assert_eq!(le(""), None);
    assert_eq!(le("+"), None);
    assert_eq!(le("3a"), None);
    assert_eq!(le(&usize::MAX.to_string()), Some(usize::MAX));
    assert_eq!(le(&format!("{}0", usize::MAX)), None);
    assert_eq!(le(&format!("{}", usize::MAX as u128 + 1)), None);
    assert_eq!(le("340282366920938463463374607431768211456"), None);
    assert_eq!(le("99999999999999999999999999999999999999999999999999"), None);
}

#[test]
fn linha_de_tarefa() {
    let le = |s: &str| le_tarefa(s.as_bytes(), 0, s.len()).map(|t| (t.duracao(), t.entrega()));
    assert!(matches!(le("3 4"), Ok((3, 4))));
    assert!(matches!(le("  3\t\t-4  "), Ok((3, -4))));
    assert!(matches!(le("3 4\r"), Ok((3, 4))));
    assert!(matches!(le("3 4 5 6"), Ok((3, 4))));
    assert!(matches!(le("+3 +4"), Ok((3, 4))));
    assert!(matches!(le(""), Err(ErroLeitura::LinhaIncompleta)));
    assert!(matches!(le("   "), Err(ErroLeitura::LinhaIncompleta)));
    assert!(matches!(le("3"), Err(ErroLeitura::LinhaIncompleta)));
    assert!(matches!(le("3 x"), Err(ErroLeitura::DadoDaTarefa)));
    assert!(matches!(le("x"), Err(ErroLeitura::DadoDaTarefa)));
    assert!(matches!(le("3 4 x"), Err(ErroLeitura::DadoDaTarefa)));
    assert!(matches!(le("3,4"), Err(ErroLeitura::DadoDaTarefa)));
    assert!(matches!(le("3 2147483648"), Err(ErroLeitura::DadoDaTarefa)));
    assert!(matches!(le("3.0 4"), Err(ErroLeitura::DadoDaTarefa)));
}

#[test]
fn instancia_de_um_texto() {
    assert_eq!(lidas("3\n1 2\n3 4\n5 6\n"), vec![(1, 2), (3, 4), (5, 6)]);
    assert_eq!(lidas("3\n1 2\n3 4\n5 6"), vec![(1, 2), (3, 4), (5, 6)]);
    assert_eq!(lidas("3\r\n1 2\r\n3 4\r\n5 6\r\n"), vec![(1, 2), (3, 4), (5, 6)]);
    assert_eq!(lidas("  +2 \t\n 10   -20 \n\t7\t8\n"), vec![(10, -20), (7, 8)]);
    assert_eq!(lidas("1\n5 5\n"), vec![(5, 5)]);
    assert_eq!(lidas("0\n"), vec![]);
    assert_eq!(lidas("0"), vec![]);
}

#[test]
fn linhas_alem_do_numero_anunciado_nao_contam() {
    assert_eq!(lidas("2\n1 2\n3 4\n5 6\n"), vec![(1, 2), (3, 4)]);
    assert_eq!(lidas("1\n1 2\nthis is not a task\n"), vec![(1, 2)]);
    assert_eq!(lidas("0\nnothing to read\n"), vec![]);
}

#[test]
fn texto_que_acaba_cedo_da_as_tarefas_que_tem() {
    assert_eq!(lidas("5\n1 2\n3 4\n"), vec![(1, 2), (3, 4)]);
    assert_eq!(lidas("5\n1 2\n3 4"), vec![(1, 2), (3, 4)]);
    assert_eq!(lidas("5\n"), vec![]);
    assert_eq!(lidas("5"), vec![]);
    assert_eq!(lidas(&format!("{}\n1 2\n", usize::MAX)), vec![(1, 2)]);
}

#[test]
fn numeros_a_mais_na_linha_sao_ignorados() {
    assert_eq!(lidas("2\n1 2 3\n4 5 6 7 8\n"), vec![(1, 2), (4, 5)]);
}

#[test]
fn numero_de_tarefas_invalido() {
    for texto in ["", "\n", "  \n3\n", "abc\n", "3 4\n1 2\n", "-1\n", "3.0\n", "three\n",
        "18446744073709551616\n1 1\n", "\n3\n1 2\n"]
    {
        assert!(
            matches!(le_instancia(texto.as_bytes()), Err(ErroLeitura::NumeroDeTarefas)),
            "{:?}",
            texto
        );
    }
}

#[test]
fn dado_de_tarefa_invalido() {
    for texto in ["2\n1 2\n3 x\n", "1\nx\n", "1\n1 2 y\n", "2\n1 2147483648\n", "1\n1.5 2\n",
        "3\n1 2\n3 4\n5 - 6\n"]
    {
        assert!(
            matches!(le_instancia(texto.as_bytes()), Err(ErroLeitura::DadoDaTarefa)),
            "{:?}",
            texto
        );
    }
}

#[test]
fn linha_incompleta() {
    for texto in ["1\n1\n", "2\n1 2\n3\n", "2\n1 2\n\n3 4\n", "2\n\n1 2\n", "1\n   \n", "2\n1 2\n\n"] {
        assert!(
            matches!(le_instancia(texto.as_bytes()), Err(ErroLeitura::LinhaIncompleta)),
            "{:?}",
            texto
        );
    }
}

#[test]
fn o_primeiro_erro_e_o_que_vale() {
    assert!(matches!(
        le_instancia(b"3\n1\nx y\n"),
        Err(ErroLeitura::LinhaIncompleta)
    ));
    assert!(matches!(
        le_instancia(b"3\nx\n1\n"),
        Err(ErroLeitura::DadoDaTarefa)
    ));
    assert!(matches!(
        le_instancia(b"x\n1\n"),
        Err(ErroLeitura::NumeroDeTarefas)
    ));
}

#[test]
fn tarefas_que_nao_formam_instancia() {
    assert!(matches!(le_instancia(b"1\n-5 3\n"), Err(ErroLeitura::InstanciaInvalida)));
    assert!(matches!(
        le_instancia(b"1\n5 -2147483648\n"),
        Err(ErroLeitura::InstanciaInvalida)
    ));
    assert!(matches!(
        le_instancia(b"2\n600000000 0\n600000000 0\n"),
        Err(ErroLeitura::InstanciaInvalida)
    ));
    // The tasks themselves are read all the same.
    let ts = le_tarefas(b"1\n-5 3\n").expect("two integers");
    assert_eq!(ts.len(), 1);
    assert_eq!((ts[0].duracao(), ts[0].entrega()), (-5, 3));
}

#[test]
fn instancia_lida_e_avaliada() {
    let inst = le_instancia(b"3\n3 2\n2 10\n4 5\n").expect("an instance");
    assert_eq!(Solucao::new(&inst, vec![0, 1, 2]).fo(), 10);
    assert_eq!(Solucao::new(&inst, vec![2, 0, 1]).fo(), 7);
}
