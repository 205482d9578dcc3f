use escalonamento::fracao::Fracao;

#[test]
fn fracao_so_entre_zero_e_um() {
    assert!(Fracao::new(0, 1).is_some());
    assert!(Fracao::new(1, 1).is_some());
    assert!(Fracao::new(35, 100).is_some());
    assert!(Fracao::new(2, 1).is_none());
    assert!(Fracao::new(0, 0).is_none());
    assert!(Fracao::new(1, 0).is_none());
    assert!(Fracao::new(u64::MAX, u64::MAX).is_some());
}

#[test]
fn fracao_guarda_numerador_e_denominador() {
    let f = Fracao::new(35, 100).unwrap();
    assert_eq!(f.num(), 35);
    assert_eq!(f.den(), 100);
    assert_eq!(Fracao::zero().num(), 0);
    assert_eq!(Fracao::um().num(), Fracao::um().den());
}

#[test]
fn piso_arredonda_para_baixo() {
    let f = Fracao::new(8, 10).unwrap();
    assert_eq!(f.piso_de(200), 160);
    assert_eq!(f.piso_de(7), 5);
    assert_eq!(f.piso_de(1), 0);
    assert_eq!(f.piso_de(0), 0);
    assert_eq!(Fracao::um().piso_de(usize::MAX), usize::MAX);
    assert_eq!(Fracao::zero().piso_de(usize::MAX), 0);
    assert_eq!(Fracao::new(u64::MAX - 1, u64::MAX).unwrap().piso_de(usize::MAX), usize::MAX - 1);
}

#[test]
fn teto_arredonda_para_cima() {
    let f = Fracao::new(35, 100).unwrap();
    assert_eq!(f.teto_de(10), 4);
    assert_eq!(f.teto_de(1), 1);
    assert_eq!(f.teto_de(0), 0);
    assert_eq!(f.teto_de(20), 7);
    assert_eq!(f.teto_de(3), 2);
    assert_eq!(Fracao::zero().teto_de(10), 0);
    assert_eq!(Fracao::um().teto_de(usize::MAX), usize::MAX);
    assert_eq!(Fracao::new(1, u64::MAX).unwrap().teto_de(usize::MAX), 1);
}

#[test]
fn acerta_compara_o_sorteio_reduzido() {
    let f = Fracao::new(3, 10).unwrap();
    assert!(f.acerta(0));
    assert!(f.acerta(2));
    assert!(!f.acerta(3));
    assert!(!f.acerta(9));
    assert!(f.acerta(10));
    assert!(f.acerta(12));
    assert!(!f.acerta(13));
    for sorteio in 0..50 {
        assert!(!Fracao::zero().acerta(sorteio));
        assert!(Fracao::um().acerta(sorteio));
    }
}
