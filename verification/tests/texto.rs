use raices::presentacion::{func_to_gui, recursive_append};
use raices::raices::{cadena_para_conteo, Raices};

#[test]
fn cadena_para_conteo_quita_mas_inicial() {
    assert_eq!(cadena_para_conteo("+1x^3-6"), Some("1x^3-6"));
    assert_eq!(cadena_para_conteo("-1x^3+6"), Some("-1x^3+6"));
    assert_eq!(cadena_para_conteo("+"), Some(""));
    assert_eq!(cadena_para_conteo(""), None);
}

#[test]
fn raices_guarda_conteos() {
    let r = Raices { positivas: 2, negativas: 1 };
    assert_eq!(r.positivas + r.negativas, 3);
}

#[test]
fn func_to_gui_eleva_exponentes() {
    let piezas = func_to_gui("+1x^3-6");
    let esperado = vec![
        ('Y', false),
        ('=', false),
        (' ', false),
        ('+', false),
        ('1', false),
        ('x', false),
        ('3', true),
        ('-', false),
        ('6', false),
    ];
    assert_eq!(piezas, esperado);
}

#[test]
fn func_to_gui_sin_exponentes() {
    let piezas = func_to_gui("+5");
    assert_eq!(piezas, vec![('Y', false), ('=', false), (' ', false), ('+', false), ('5', false)]);
}

#[test]
fn recursive_append_desde_elevado() {
    let mut chars = "2^x+1".chars();
    let mut elevado = true;
    let mut job = vec![('a', false)];
    recursive_append(&mut chars, &mut elevado, &mut job);
    assert_eq!(job, vec![('a', false), ('2', true), ('^', true), ('x', true), ('+', false), ('1', false)]);
    assert!(!elevado);
    assert_eq!(chars.next(), None);
}

#[test]
fn recursive_append_termina_elevado() {
    let mut chars = "x^12".chars();
    let mut elevado = false;
    let mut job = Vec::new();
    recursive_append(&mut chars, &mut elevado, &mut job);
    assert_eq!(job, vec![('x', false), ('1', true), ('2', true)]);
    assert!(elevado);
}
