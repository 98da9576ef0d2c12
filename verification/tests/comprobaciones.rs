use raices::division::{datos_son_calculables, horner_calculable, resultados_calculables, DivisionSintetica};
use raices::funcion::{derivada_es_calculable, Ecuacion, Funcion};
use raices::lectura::compilacion_valida;

fn termino(positivo: i32, multiplicacion: i32, potencial: i32) -> Ecuacion {
    Ecuacion { positivo, multiplicacion, potencial }
}

#[test]
fn compilacion_valida_en_textos_normales() {
    assert!(compilacion_valida("+1x^3-6x^2+11x^1-6"));
    assert!(compilacion_valida(""));
    assert!(compilacion_valida("-47"));
    assert!(compilacion_valida("abc"));
}

#[test]
fn compilacion_valida_rechaza_desbordes() {
    assert!(!compilacion_valida("+3000000000"));
    assert!(!compilacion_valida("+3000000000x^2"));
    assert!(!compilacion_valida("+1/x^2"));
}

#[test]
fn compilacion_valida_sin_cifras() {
    assert!(compilacion_valida("+x^+"));
    assert!(compilacion_valida("+x^"));
    assert!(compilacion_valida("+é^1+2"));
}

#[test]
fn compilacion_valida_rechaza_corte_dentro_de_un_caracter() {
    // the byte index lands on the second byte of the two-byte character
    assert!(!compilacion_valida("+0x^0é^"));
}

#[test]
fn derivada_es_calculable_casos() {
    let f = Funcion { ecuaciones: vec![termino(1, 1, 3), termino(-6, 0, 0)] };
    assert!(derivada_es_calculable(&f));
    assert!(!derivada_es_calculable(&Funcion { ecuaciones: vec![termino(1, 1, 3)] }));
    assert!(!derivada_es_calculable(&Funcion::default()));
    let grande = Funcion { ecuaciones: vec![termino(1, 100000, 100000), termino(5, 0, 0)] };
    assert!(!derivada_es_calculable(&grande));
    let minimo = Funcion { ecuaciones: vec![termino(i32::MIN, 0, 0), termino(5, 0, 0)] };
    assert!(!derivada_es_calculable(&minimo));
}

#[test]
fn datos_son_calculables_casos() {
    let f = Funcion { ecuaciones: vec![termino(1, 1, 3), termino(-6, 0, 0)] };
    assert!(datos_son_calculables(&f));
    assert!(datos_son_calculables(&Funcion::default()));
    let limite = Funcion { ecuaciones: vec![termino(i32::MAX, 0, 0)] };
    assert!(!datos_son_calculables(&limite));
    let potencia = Funcion { ecuaciones: vec![termino(1, 1, i32::MAX), termino(2, 0, 0)] };
    assert!(!datos_son_calculables(&potencia));
}

#[test]
fn horner_calculable_casos() {
    assert!(horner_calculable(&vec![1, -6, 11, -6], 6));
    assert!(horner_calculable(&Vec::new(), 6));
    assert!(!horner_calculable(&vec![1, 0, 0, 0], 100000));
    // the last product is formed even though no coefficient follows
    assert!(!horner_calculable(&vec![100000], 100000));
}

#[test]
fn resultados_calculables_casos() {
    let mut d = DivisionSintetica::default();
    d.factores = vec![1, 2];
    d.terminos_in = vec![1, -6];
    assert!(resultados_calculables(&d));
    d.factores = vec![1, 70000];
    d.terminos_in = vec![70000, 1];
    assert!(!resultados_calculables(&d));
}
