use vstd::prelude::*;
use std::str::Chars;
use vstd::std_specs::iter::IteratorSpec;
use vstd::string::StringSliceAdditionalSpecFns;
use vstd::utf8::is_char_boundary;
use crate::funcion::{Ecuacion, Funcion};

verus! {

broadcast use vstd::string::axiom_spec_iter, vstd::string::next_postcondition,
    vstd::utf8::encode_utf8_valid_utf8;

/// Bytes that the number reader keeps reading: `/` (47) up to `8` (56).
/// `/` has no digit value and `9` (57) ends a number.
pub open spec fn en_rango_lectura(b: u8) -> bool {
    47 <= b < 57
}

/// A byte that the number reader takes as a digit: `0` up to `8`.
pub open spec fn es_cifra(b: u8) -> bool {
    48 <= b < 57
}

/// Number of digit bytes of `b` in a row from position `i` on.
pub open spec fn largo_tramo(b: Seq<u8>, i: int) -> nat
    decreases b.len() - i,
{
    if 0 <= i < b.len() && es_cifra(b[i]) {
        1 + largo_tramo(b, i + 1)
    } else {
        0
    }
}

/// Decimal value of the `n` digit bytes of `b` from position `i` on, most
/// significant first.
pub open spec fn valor_tramo(b: Seq<u8>, i: int, n: nat) -> int
    decreases n,
{
    if n == 0 {
        0
    } else {
        valor_tramo(b, i, (n - 1) as nat) * 10 + (b[i + n - 1] - 48)
    }
}

/// The number that `str_to_int` reads at byte position `i`: the value of the
/// digits there, `0` where there is none or `i` is negative.
pub open spec fn numero_en(b: Seq<u8>, i: int) -> int {
    if i < 0 {
        0
    } else {
        valor_tramo(b, i, largo_tramo(b, i))
    }
}

/// `str_to_int` reads at position `i` without arithmetic overflow: the digits
/// are not followed by `/`, their value fits in `i32`, and so does the index
/// where they end.
pub open spec fn lectura_valida(b: Seq<u8>, i: int) -> bool {
    i < 0 || {
        let fin = i + largo_tramo(b, i);
        &&& !(fin < b.len() && b[fin] == 47)
        &&& valor_tramo(b, i, largo_tramo(b, i)) <= i32::MAX
        &&& fin <= i32::MAX
    }
}

proof fn lema_tramo_crece(b: Seq<u8>, i: int, k: nat, n: nat)
    requires
        k <= n,
        forall|j: int| i <= j < i + n ==> es_cifra(#[trigger] b[j]),
    ensures
        0 <= valor_tramo(b, i, k) <= valor_tramo(b, i, n),
    decreases n - k,
{
    if k < n {
        lema_tramo_crece(b, i, k, (n - 1) as nat);
        assert(es_cifra(b[i + n - 1]));
    } else {
        lema_tramo_no_negativo(b, i, n);
    }
}

proof fn lema_tramo_no_negativo(b: Seq<u8>, i: int, n: nat)
    requires
        forall|j: int| i <= j < i + n ==> es_cifra(#[trigger] b[j]),
    ensures
        0 <= valor_tramo(b, i, n),
    decreases n,
{
    if n > 0 {
        lema_tramo_no_negativo(b, i, (n - 1) as nat);
        assert(es_cifra(b[i + n - 1]));
    }
}

proof fn lema_tramo_cifras(b: Seq<u8>, i: int, k: int)
    requires
        0 <= i <= k <= i + largo_tramo(b, i),
    ensures
        largo_tramo(b, i) == (k - i) + largo_tramo(b, k),
        forall|j: int| i <= j < k ==> es_cifra(#[trigger] b[j]) && j < b.len(),
    decreases k - i,
{
    if i < k {
        lema_tramo_cifras(b, i + 1, k);
    }
}

/// Reads the number written with the digits `0`-`8` at byte position
/// `indice` of `s`.
pub fn str_to_int(s: &str, indice: i32) -> (r: i32)
    requires
        lectura_valida(s.spec_bytes(), indice as int),
    ensures
        r == numero_en(s.spec_bytes(), indice as int),
{
    let bytes = s.as_bytes();
    let ghost b = s.spec_bytes();
    if indice < 0 {
        // a negative index turned into `usize` lies past the end of any string
        return 0;
    }
    let mut ret: i32 = 0;
    let mut i: i32 = indice;
    proof {
        lema_tramo_cifras(b, indice as int, indice as int);
    }
    loop
        invariant
            b == bytes@,
            b == s.spec_bytes(),
            0 <= indice <= i <= indice + largo_tramo(b, indice as int),
            lectura_valida(b, indice as int),
            largo_tramo(b, indice as int) == (i - indice) + largo_tramo(b, i as int),
            forall|j: int| indice <= j < i ==> es_cifra(#[trigger] b[j]) && j < b.len(),
            ret == valor_tramo(b, indice as int, (i - indice) as nat),
        decreases b.len() - i,
    {
        let iu = i as usize;
        if iu >= bytes.len() {
            assert(largo_tramo(b, i as int) == 0);
            return ret;
        }
        let c = bytes[iu];
        if !(47 <= c && c < 57) {
            assert(largo_tramo(b, i as int) == 0);
            return ret;
        }
        let ghost n = largo_tramo(b, indice as int);
        assert(largo_tramo(b, i as int) > 0) by {
            if c == 47 {
                assert(largo_tramo(b, i as int) == 0);
            }
        }
        proof {
            lema_tramo_cifras(b, indice as int, indice + n);
            lema_tramo_crece(b, indice as int, (i - indice + 1) as nat, n);
            lema_tramo_no_negativo(b, indice as int, (i - indice) as nat);
        }
        ret = ret * 10;
        ret = ret + (c - 48) as i32;
        i = i + 1;
    }
}

/// Number of times `consumir_chars` divides `n` by ten before it is at most
/// `9`, plus one: the number of decimal digits of a non-negative `n`.
pub open spec fn cifras(n: int) -> nat
    decreases n,
{
    if n <= 9 {
        1
    } else {
        1 + cifras(n / 10)
    }
}

/// `k`, but at most `n`.
pub open spec fn tope(k: int, n: int) -> int {
    if k <= n {
        k
    } else {
        n
    }
}

/// `extra` where it is positive, else `0`.
pub open spec fn positivo_o_cero(extra: int) -> int {
    if extra > 0 {
        extra
    } else {
        0
    }
}

/// Steps past a number of `cifras(numero)` digits followed by `extra` more
/// characters: `indice` goes forward by all of them, `chars` by all but the
/// first digit (or to its end).
pub fn consumir_chars(indice: &mut i32, numero: i32, chars: &mut Chars, extra: i32)
    requires
        *old(indice) + cifras(numero as int) + positivo_o_cero(extra as int) <= i32::MAX,
    ensures
        *final(indice) == *old(indice) + cifras(numero as int) + positivo_o_cero(extra as int),
        (*final(chars)).remaining() == (*old(chars)).remaining().skip(
            tope(
                cifras(numero as int) - 1 + positivo_o_cero(extra as int),
                (*old(chars)).remaining().len() as int,
            ),
        ),
{
    broadcast use lema_salto, lema_salto_fin;

    let ghost n0 = numero as int;
    let ghost i0 = *indice as int;
    let ghost e = positivo_o_cero(extra as int);
    let ghost pasos: int = 0;
    let mut numero = numero;
    assert((*old(chars)).remaining().skip(0) =~= (*old(chars)).remaining());
    while numero > 9
        invariant
            0 <= pasos,
            e == positivo_o_cero(extra as int),
            cifras(n0) == pasos + cifras(numero as int),
            *indice == i0 + pasos,
            i0 + cifras(n0) + e <= i32::MAX,
            (*chars).remaining() == (*old(chars)).remaining().skip(
                tope(pasos, (*old(chars)).remaining().len() as int),
            ),
        decreases numero,
    {
        assert(cifras(numero as int) == 1 + cifras((numero / 10) as int));
        assert(cifras((numero / 10) as int) >= 1);
        numero = numero / 10;
        let _ = chars.next();
        *indice = *indice + 1;
        proof {
            pasos = pasos + 1;
        }
    }
    *indice = *indice + 1;
    let mut k: i32 = 0;
    while k < extra
        invariant
            0 <= k,
            k <= extra || k == 0,
            positivo_o_cero(k as int) == k,
            e == positivo_o_cero(extra as int),
            cifras(n0) == pasos + 1,
            *indice == i0 + pasos + 1 + k,
            i0 + cifras(n0) + e <= i32::MAX,
            (*chars).remaining() == (*old(chars)).remaining().skip(
                tope(pasos + k, (*old(chars)).remaining().len() as int),
            ),
        decreases extra - k,
    {
        let _ = chars.next();
        *indice = *indice + 1;
        k = k + 1;
    }
}

/// The bytes of `b` from position `i` on hold a `^` (94). In UTF-8 that byte
/// only ever stands for the character `^`.
pub open spec fn contiene_circunflejo(b: Seq<u8>, i: int) -> bool {
    exists|j: int| i <= j < b.len() && b[j] == 94
}

/// Whether the text of `funcion` after its first `total` bytes holds a `^`.
pub fn ultimo_valor(funcion: &str, total: i32) -> (r: bool)
    requires
        0 <= total,
        is_char_boundary(funcion.spec_bytes(), total as int),
    ensures
        r == contiene_circunflejo(funcion.spec_bytes(), total as int),
{
    let (_, last) = funcion.split_at(total as usize);
    let bytes = last.as_bytes();
    let ghost b = funcion.spec_bytes();
    assert(total <= b.len()) by {
        if total > b.len() {
            assert(!is_char_boundary(b, total as int));
        }
    }
    let mut j: usize = 0;
    while j < bytes.len()
        invariant
            b == funcion.spec_bytes(),
            0 <= total <= b.len(),
            bytes@ == b.subrange(total as int, b.len() as int),
            j <= bytes@.len(),
            forall|t: int| 0 <= t < j ==> bytes@[t] != 94,
        decreases bytes.len() - j,
    {
        if bytes[j] == 94 {
            assert(b[total + j] == 94);
            return true;
        }
        j = j + 1;
    }
    assert forall|t: int| total <= t < b.len() implies b[t] != 94 by {
        assert(b[t] == bytes@[t - total]);
    }
    false
}

/// The terms that `compilar_funcion` produces from the state it reaches with
/// `indice` as its byte index into the text and `cp` characters taken from it,
/// or `None` where it would stop on an arithmetic overflow or on an index that
/// `split_at` refuses. `cs` is the text as characters, `b` as UTF-8 bytes.
///
/// At each step the next character is taken; if the text from byte `indice`
/// on still holds a `^`, a term in `x` is read (sign, coefficient at `indice`,
/// two characters, power, one character, and one more) and reading goes on;
/// otherwise the last term, a constant, is read and reading stops. A character
/// other than a sign gives the zero term.
pub open spec fn compila(cs: Seq<char>, b: Seq<u8>, indice: int, cp: int) -> Option<Seq<Ecuacion>>
    decreases cs.len() - cp,
{
    if cp < 0 || cp >= cs.len() {
        Some(Seq::empty())
    } else {
        let e = cs[cp];
        let n = cs.len() as int;
        if !(0 <= indice && is_char_boundary(b, indice)) {
            None
        } else if contiene_circunflejo(b, indice) {
            if e == '+' || e == '-' {
                let m = numero_en(b, indice);
                let i2 = indice + cifras(m) + 2;
                let cp2 = tope(cp + 2 + cifras(m), n);
                let k = numero_en(b, i2);
                let i3 = i2 + cifras(k) + 1;
                let cp3 = tope(cp2 + cifras(k), n);
                let cp4 = tope(cp3 + 1, n);
                if lectura_valida(b, indice) && i2 <= i32::MAX && lectura_valida(b, i2) && i3
                    <= i32::MAX {
                    match compila(cs, b, i3, cp4) {
                        Some(r) => Some(
                            seq![
                                Ecuacion {
                                    positivo: if e == '+' { 1i32 } else { -1i32 },
                                    multiplicacion: m as i32,
                                    potencial: k as i32,
                                },
                            ] + r,
                        ),
                        None => None,
                    }
                } else {
                    None
                }
            } else {
                match compila(cs, b, indice, tope(cp + 2, n)) {
                    Some(r) => Some(seq![Ecuacion::cero()] + r),
                    None => None,
                }
            }
        } else if e == '+' || e == '-' {
            if lectura_valida(b, indice) {
                let v = numero_en(b, indice);
                Some(
                    seq![
                        Ecuacion {
                            positivo: (if e == '+' { v } else { -v }) as i32,
                            multiplicacion: 0,
                            potencial: 0,
                        },
                    ],
                )
            } else {
                None
            }
        } else {
            Some(seq![Ecuacion::cero()])
        }
    }
}

/// The terms that `compilar_funcion` reads from the text `s`, or `None` where
/// it would panic.
pub open spec fn terminos_de(s: &str) -> Option<Seq<Ecuacion>> {
    compila(s@, s.spec_bytes(), 1, 0)
}

proof fn lema_numero_no_negativo(b: Seq<u8>, i: int)
    ensures
        0 <= numero_en(b, i),
{
    if i >= 0 {
        lema_tramo_cifras(b, i, i + largo_tramo(b, i));
        lema_tramo_no_negativo(b, i, largo_tramo(b, i));
    }
}

/// Reads the polynomial written in `funcion`, such as `+1x^3-6x^2+11x^1-6`,
/// and appends its terms to `vec`.
pub fn compilar_funcion(funcion: &str, vec: &mut Funcion)
    requires
        terminos_de(funcion) is Some,
    ensures
        final(vec).ecuaciones@ == old(vec).ecuaciones@ + terminos_de(funcion).unwrap(),
{
    broadcast use lema_salto, lema_salto_fin, lema_doble_salto;

    let mut chars = funcion.chars();
    let mut indice: i32 = 1;
    let ghost cs = funcion@;
    let ghost b = funcion.spec_bytes();
    let ghost n = cs.len() as int;
    let ghost total = terminos_de(funcion).unwrap();
    let ghost hechos: Seq<Ecuacion> = Seq::empty();
    let ghost cp: int = 0;
    assert(cs.skip(0) =~= cs);
    assert(vec.ecuaciones@ =~= old(vec).ecuaciones@ + hechos);
    assert(total =~= hechos + total);
    loop
        invariant
            cs == funcion@,
            b == funcion.spec_bytes(),
            n == cs.len(),
            0 <= cp <= n,
            chars.remaining() == cs.skip(cp),
            compila(cs, b, indice as int, cp) is Some,
            total == hechos + compila(cs, b, indice as int, cp).unwrap(),
            total == terminos_de(funcion).unwrap(),
            vec.ecuaciones@ == old(vec).ecuaciones@ + hechos,
        decreases n - cp,
    {
        let obtener = chars.next();
        let elemento = match obtener {
            Some(val) => val,
            None => {
                assert(total =~= hechos);
                return ;
            },
        };
        let ghost resto = compila(cs, b, indice as int, cp).unwrap();
        assert(elemento == cs[cp]);
        proof {
            cp = cp + 1;
        }
        let mut operacion: Ecuacion = Ecuacion::default();
        if ultimo_valor(funcion, indice) {
            if elemento == '+' || elemento == '-' {
                operacion.positivo = if elemento == '+' { 1 } else { -1 };
                let mul_val = str_to_int(funcion, indice);
                operacion.multiplicacion = mul_val;
                proof {
                    lema_numero_no_negativo(b, indice as int);
                }
                consumir_chars(&mut indice, mul_val, &mut chars, 2);
                proof {
                    cp = tope(cp + 1 + cifras(mul_val as int), n);
                }
                let pol_val = str_to_int(funcion, indice);
                operacion.potencial = pol_val;
                proof {
                    lema_numero_no_negativo(b, indice as int);
                }
                consumir_chars(&mut indice, pol_val, &mut chars, 1);
                proof {
                    cp = tope(cp + cifras(pol_val as int), n);
                }
            }
            let _ = chars.next();
            proof {
                cp = tope(cp + 1, n);
                hechos = hechos.push(operacion);
                assert(resto =~= seq![operacion] + compila(cs, b, indice as int, cp).unwrap());
                assert(total =~= hechos + compila(cs, b, indice as int, cp).unwrap());
            }
        } else {
            if elemento == '+' {
                operacion.positivo = str_to_int(funcion, indice);
            } else if elemento == '-' {
                proof {
                    lema_numero_no_negativo(b, indice as int);
                }
                operacion.positivo = -str_to_int(funcion, indice);
            }
            vec.ecuaciones.push(operacion);
            assert(total =~= hechos.push(operacion));
            return ;
        }
        vec.ecuaciones.push(operacion);
    }
}

/// The number at byte position `i` of `bytes`, or `None` where reading it
/// there would overflow (`lectura_valida` fails).
fn numero_comprobado(bytes: &[u8], i: i64) -> (r: Option<i32>)
    requires
        0 <= i <= i32::MAX,
    ensures
        r is Some <==> lectura_valida(bytes@, i as int),
        r matches Some(v) ==> v == numero_en(bytes@, i as int),
{
    let ghost b = bytes@;
    let n = bytes.len();
    let mut j: usize = i as usize;
    let mut v: i64 = 0;
    if j > n {
        assert(largo_tramo(b, i as int) == 0);
        return Some(0);
    }
    proof {
        lema_tramo_cifras(b, i as int, i as int);
    }
    while j < n && 48 <= bytes[j] && bytes[j] < 57
        invariant
            b == bytes@,
            n == b.len(),
            0 <= i <= j <= n,
            j <= i + largo_tramo(b, i as int),
            largo_tramo(b, i as int) == (j - i) + largo_tramo(b, j as int),
            forall|t: int| i <= t < j ==> es_cifra(#[trigger] b[t]) && t < b.len(),
            v == valor_tramo(b, i as int, (j - i) as nat),
            0 <= v <= i32::MAX,
        decreases n - j,
    {
        proof {
            lema_tramo_no_negativo(b, i as int, (j - i) as nat);
        }
        assert(es_cifra(b[j as int])) by {
            assert(largo_tramo(b, j as int) > 0);
        }
        v = v * 10 + (bytes[j] - 48) as i64;
        j = j + 1;
        if v > i32::MAX as i64 {
            proof {
                let l = largo_tramo(b, i as int);
                lema_tramo_cifras(b, i as int, i + l);
                lema_tramo_crece(b, i as int, (j - i) as nat, l);
            }
            return None;
        }
    }
    assert(largo_tramo(b, j as int) == 0);
    if j < n && bytes[j] == 47 {
        return None;
    }
    if j > i32::MAX as usize {
        return None;
    }
    Some(v as i32)
}

proof fn lema_cifras_acotadas(n: int)
    requires
        n <= i32::MAX,
    ensures
        1 <= cifras(n) <= 10,
{
    reveal_with_fuel(cifras, 11);
}

/// `cifras(n)`.
fn contar_cifras(n: i32) -> (r: i64)
    ensures
        r == cifras(n as int),
        1 <= r <= 10,
{
    proof {
        lema_cifras_acotadas(n as int);
    }
    let mut m = n;
    let mut r: i64 = 1;
    while m > 9
        invariant
            cifras(n as int) == r - 1 + cifras(m as int),
            1 <= cifras(n as int) <= 10,
            1 <= r,
        decreases m,
    {
        assert(cifras(m as int) == 1 + cifras((m / 10) as int));
        assert(cifras((m / 10) as int) >= 1);
        m = m / 10;
        r = r + 1;
    }
    r
}

/// Whether `compilar_funcion` can read `funcion` to the end: `false`
/// exactly where it would stop on an arithmetic overflow or on an index that
/// is not a character boundary.
pub fn compilacion_valida(funcion: &str) -> (r: bool)
    ensures
        r == (terminos_de(funcion) is Some),
{
    broadcast use lema_salto, lema_salto_fin, lema_doble_salto;

    let bytes = funcion.as_bytes();
    let mut chars = funcion.chars();
    let mut indice: i64 = 1;
    let ghost cs = funcion@;
    let ghost b = funcion.spec_bytes();
    let ghost n = cs.len() as int;
    let ghost cp: int = 0;
    assert(cs.skip(0) =~= cs);
    loop
        invariant
            cs == funcion@,
            b == funcion.spec_bytes(),
            b == bytes@,
            n == cs.len(),
            0 <= cp <= n,
            1 <= indice <= i32::MAX,
            chars.remaining() == cs.skip(cp),
            (terminos_de(funcion) is Some) == (compila(cs, b, indice as int, cp) is Some),
        decreases n - cp,
    {
        let elemento = match chars.next() {
            Some(val) => val,
            None => {
                return true;
            },
        };
        assert(elemento == cs[cp]);
        let ghost cp0 = cp;
        proof {
            cp = cp + 1;
        }
        if !funcion.is_char_boundary(indice as usize) {
            return false;
        }
        let mut ind: i32 = indice as i32;
        if ultimo_valor(funcion, ind) {
            if elemento == '+' || elemento == '-' {
                let mul_val = match numero_comprobado(bytes, indice) {
                    Some(v) => v,
                    None => {
                        return false;
                    },
                };
                if indice + contar_cifras(mul_val) + 2 > i32::MAX as i64 {
                    return false;
                }
                proof {
                    lema_numero_no_negativo(b, indice as int);
                }
                consumir_chars(&mut ind, mul_val, &mut chars, 2);
                proof {
                    cp = tope(cp + 1 + cifras(mul_val as int), n);
                }
                let pol_val = match numero_comprobado(bytes, ind as i64) {
                    Some(v) => v,
                    None => {
                        return false;
                    },
                };
                if ind as i64 + contar_cifras(pol_val) + 1 > i32::MAX as i64 {
                    return false;
                }
                proof {
                    lema_numero_no_negativo(b, ind as int);
                }
                consumir_chars(&mut ind, pol_val, &mut chars, 1);
                proof {
                    cp = tope(cp + cifras(pol_val as int), n);
                }
            }
            let _ = chars.next();
            proof {
                cp = tope(cp + 1, n);
            }
            indice = ind as i64;
        } else {
            if elemento == '+' || elemento == '-' {
                return numero_comprobado(bytes, indice).is_some();
            }
            return true;
        }
    }
}

pub broadcast proof fn lema_doble_salto<A>(r: Seq<A>, a: int, t: int)
    requires
        0 <= a <= r.len(),
        0 <= t <= r.len() - a,
    ensures
        #[trigger] r.skip(a).skip(t) == r.skip(a + t),
{
    assert(r.skip(a).skip(t) =~= r.skip(a + t));
}

pub broadcast proof fn lema_salto<A>(r: Seq<A>, k: int)
    requires
        0 <= k < r.len(),
    ensures
        #[trigger] r.skip(k).drop_first() == r.skip(k + 1),
{
    assert(r.skip(k).drop_first() =~= r.skip(k + 1));
}

pub broadcast proof fn lema_salto_fin<A>(r: Seq<A>)
    ensures
        #[trigger] r.skip(r.len() as int) == Seq::<A>::empty(),
{
    assert(r.skip(r.len() as int) =~= Seq::<A>::empty());
}

} // verus!
