use raices::funcion::{Ecuacion, Funcion};
use raices::lectura::{compilar_funcion, consumir_chars, str_to_int, ultimo_valor};

fn termino(positivo: i32, multiplicacion: i32, potencial: i32) -> Ecuacion {
    Ecuacion { positivo, multiplicacion, potencial }
}

#[test]
fn str_to_int_lee_digitos() {
    assert_eq!(str_to_int("+11x^1", 1), 11);
    assert_eq!(str_to_int("+1x^3-6x^2+11x^1-6", 17), 6);
    assert_eq!(str_to_int("2048", 0), 2048);
}

#[test]
fn str_to_int_sin_digitos_da_cero() {
    assert_eq!(str_to_int("x^2", 0), 0);
    assert_eq!(str_to_int("", 0), 0);
    assert_eq!(str_to_int("12", 5), 0);
    assert_eq!(str_to_int("12", -1), 0);
}

#[test]
fn str_to_int_se_detiene_en_nueve() {
    assert_eq!(str_to_int("19", 0), 1);
    assert_eq!(str_to_int("9", 0), 0);
    assert_eq!(str_to_int("8", 0), 8);
}

#[test]
fn consumir_chars_una_cifra() {
    let texto = "+1x^3";
    let mut chars = texto.chars();
    let _ = chars.next();
    let mut indice = 1;
    consumir_chars(&mut indice, 1, &mut chars, 2);
    assert_eq!(indice, 4);
    assert_eq!(chars.next(), Some('^'));
}

#[test]
fn consumir_chars_varias_cifras() {
    let texto = "+123x^4";
    let mut chars = texto.chars();
    let _ = chars.next();
    let mut indice = 1;
    consumir_chars(&mut indice, 123, &mut chars, 2);
    assert_eq!(indice, 6);
    assert_eq!(chars.next(), Some('^'));
}

#[test]
fn consumir_chars_al_final_del_texto() {
    let mut chars = "ab".chars();
    let mut indice = 0;
    consumir_chars(&mut indice, 12345, &mut chars, 3);
    assert_eq!(indice, 8);
    assert_eq!(chars.next(), None);
}

#[test]
fn consumir_chars_extra_negativo() {
    let mut chars = "abc".chars();
    let mut indice = 7;
    consumir_chars(&mut indice, 5, &mut chars, -4);
    assert_eq!(indice, 8);
    assert_eq!(chars.next(), Some('a'));
}

#[test]
fn ultimo_valor_busca_circunflejo() {
    assert!(ultimo_valor("+1x^3-6", 1));
    assert!(!ultimo_valor("+1x^3-6", 5));
    assert!(!ultimo_valor("+1x^3-6", 7));
    assert!(!ultimo_valor("", 0));
}

#[test]
fn compilar_funcion_por_defecto() {
    let mut f = Funcion::default();
    compilar_funcion("+1x^3-6x^2+11x^1-6", &mut f);
    assert_eq!(
        f.ecuaciones,
        vec![termino(1, 1, 3), termino(-1, 6, 2), termino(1, 11, 1), termino(-6, 0, 0)]
    );
}

#[test]
fn compilar_funcion_agrega_al_final() {
    let mut f = Funcion { ecuaciones: vec![termino(4, 0, 0)] };
    compilar_funcion("-2x^1+3", &mut f);
    assert_eq!(f.ecuaciones, vec![termino(4, 0, 0), termino(-1, 2, 1), termino(3, 0, 0)]);
}

#[test]
fn compilar_funcion_texto_vacio() {
    let mut f = Funcion::default();
    compilar_funcion("", &mut f);
    assert!(f.ecuaciones.is_empty());
}

#[test]
fn compilar_funcion_solo_constante() {
    let mut f = Funcion::default();
    compilar_funcion("-47", &mut f);
    assert_eq!(f.ecuaciones, vec![termino(-47, 0, 0)]);
}

#[test]
fn compilar_funcion_sin_constante() {
    let mut f = Funcion::default();
    compilar_funcion("+3x^2-1x^1", &mut f);
    assert_eq!(f.ecuaciones, vec![termino(1, 3, 2), termino(-1, 1, 1)]);
}

#[test]
fn compilar_funcion_caracter_sin_signo() {
    let mut f = Funcion::default();
    compilar_funcion("5", &mut f);
    assert_eq!(f.ecuaciones, vec![termino(0, 0, 0)]);
}

#[test]
fn ley_lectura_canonica_ejemplo() {
    let mut f = Funcion::default();
    compilar_funcion("+20x^5-3x^1+7x^0-408", &mut f);
    assert_eq!(
        f.ecuaciones,
        vec![termino(1, 20, 5), termino(-1, 3, 1), termino(1, 7, 0), termino(-408, 0, 0)]
    );
}

#[test]
fn lectura_con_nueve_no_se_recupera() {
    let mut f = Funcion::default();
    compilar_funcion("+1x^2-9", &mut f);
    assert_eq!(f.ecuaciones, vec![termino(1, 1, 2), termino(0, 0, 0)]);
}

#[test]
fn constante_menos_cero() {
    let mut f = Funcion::default();
    compilar_funcion("+1x^2-0", &mut f);
    assert_eq!(f.ecuaciones, vec![termino(1, 1, 2), termino(0, 0, 0)]);
}

#[test]
fn ley_lectura_concatenada_ejemplo() {
    let t = "+1x^3-6x^2";
    let u = "+11x^1-6";
    let mut v1 = Funcion::default();
    compilar_funcion(t, &mut v1);
    compilar_funcion(u, &mut v1);
    let mut v2 = Funcion::default();
    compilar_funcion(&(t.to_owned() + u), &mut v2);
    assert_eq!(v1.ecuaciones, v2.ecuaciones);
}

#[test]
fn ley_lectura_concatenada_resto_no_ascii() {
    let t = "+2x^1";
    let u = "-é^3";
    let mut v1 = Funcion::default();
    compilar_funcion(t, &mut v1);
    compilar_funcion(u, &mut v1);
    let mut v2 = Funcion::default();
    compilar_funcion(&(t.to_owned() + u), &mut v2);
    assert_eq!(v1.ecuaciones, v2.ecuaciones);
}
