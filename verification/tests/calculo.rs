use raices::division::{division_sin, get_factors, resta, DivisionSintetica};
use raices::funcion::{valor_absoluto, Ecuacion, Funcion};
use raices::lectura::compilar_funcion;

fn termino(positivo: i32, multiplicacion: i32, potencial: i32) -> Ecuacion {
    Ecuacion { positivo, multiplicacion, potencial }
}

fn compilada(texto: &str) -> Funcion {
    let mut f = Funcion::default();
    compilar_funcion(texto, &mut f);
    f
}

#[test]
fn to_derivada_regla_de_la_potencia() {
    let f = compilada("+1x^3-6x^2+11x^1-6");
    let d = f.to_derivada();
    assert_eq!(d.ecuaciones, vec![termino(1, 3, 2), termino(-1, 12, 1), termino(11, 0, 0)]);
    assert_eq!(f.ecuaciones.len(), 4);
}

#[test]
fn to_derivada_conserva_constantes_intermedias() {
    let f = Funcion { ecuaciones: vec![termino(5, 2, 3), termino(-1, 4, 1), termino(8, 0, 0)] };
    let d = f.to_derivada();
    assert_eq!(d.ecuaciones, vec![termino(5, 2, 3), termino(-4, 0, 0)]);
}

#[test]
fn to_derivada_coeficiente_uno_pierde_valor() {
    // the linear term 1x^1 becomes the constant 1, which reads as a term in x
    let f = compilada("+1x^2+1x^1+5");
    let d = f.to_derivada();
    assert_eq!(d.ecuaciones, vec![termino(1, 2, 1), termino(1, 0, 0)]);
}

#[test]
fn ley_derivada_valor_en_un_punto() {
    // f = 2x^3 - 5x^2 + 7x - 3, f' = 6x^2 - 10x + 7, f'(2) = 11
    let f = compilada("+2x^3-5x^2+7x^1-3");
    let d = f.to_derivada();
    let x: i64 = 2;
    let mut v: i64 = 0;
    for e in &d.ecuaciones {
        if (-1..=1).contains(&e.positivo) {
            v += e.positivo as i64 * e.multiplicacion as i64 * x.pow(e.potencial as u32);
        } else {
            v += e.positivo as i64;
        }
    }
    assert_eq!(v, 11);
}

#[test]
fn valor_absoluto_de_negativos() {
    assert_eq!(valor_absoluto(-6), 6);
    assert_eq!(valor_absoluto(6), 6);
    assert_eq!(valor_absoluto(0), 0);
}

#[test]
fn get_factors_divisores_en_orden() {
    assert_eq!(get_factors(6), vec![1, 2, 3, 6]);
    assert_eq!(get_factors(1), vec![1]);
    assert_eq!(get_factors(12), vec![1, 2, 3, 4, 6, 12]);
    assert_eq!(get_factors(13), vec![1, 13]);
}

#[test]
fn get_factors_sin_divisores() {
    assert!(get_factors(0).is_empty());
    assert!(get_factors(-4).is_empty());
}

#[test]
fn resta_esquema_de_horner() {
    assert_eq!(resta(&[-6, 11, -6], &2, &1), 0);
    assert_eq!(resta(&[-6, 11, -6], &4, &1), 6);
    assert_eq!(resta(&[], &4, &9), 9);
}

#[test]
fn division_sin_da_el_valor() {
    let c = vec![1, -6, 11, -6];
    assert_eq!(division_sin(&1, &c), (1, Some(0)));
    assert_eq!(division_sin(&3, &c), (3, Some(0)));
    assert_eq!(division_sin(&6, &c), (6, Some(60)));
    assert_eq!(division_sin(&-1, &c), (-1, Some(-24)));
}

#[test]
fn division_sin_sin_coeficientes() {
    assert_eq!(division_sin(&5, &Vec::new()), (5, None));
}

#[test]
fn actualizar_datos_y_resultados() {
    let f = compilada("+1x^3-6x^2+11x^1-6");
    let mut d = DivisionSintetica::default();
    d.actualizar_datos(&f);
    assert_eq!(d.factores, vec![1, 2, 3, 6]);
    assert_eq!(d.terminos_in, vec![1, -6, 11, -6]);
    assert!(d.resultados.is_empty());
    d.obtener_resultados();
    assert_eq!(d.resultados, vec![(1, Some(0)), (2, Some(0)), (3, Some(0)), (6, Some(60))]);
}

#[test]
fn actualizar_datos_candidatos_fraccionarios() {
    // constant 4, highest power 4: divisors of 4 split by the proper divisors 1 and 2
    let f = compilada("+2x^4-1x^1+4");
    let mut d = DivisionSintetica::default();
    d.actualizar_datos(&f);
    assert_eq!(d.factores, vec![1, 2, 1, 4, 2]);
    assert_eq!(d.terminos_in, vec![2, -1, 4]);
}

#[test]
fn actualizar_datos_sin_terminos_no_cambia() {
    let mut d = DivisionSintetica::default();
    d.factores = vec![7];
    d.resultados = vec![(7, None)];
    d.actualizar_datos(&Funcion::default());
    assert_eq!(d.factores, vec![7]);
    assert!(d.terminos_in.is_empty());
    assert_eq!(d.resultados, vec![(7, None)]);
}
