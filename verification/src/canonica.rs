use vstd::prelude::*;
use vstd::utf8::{encode_utf8, encode_scalar, is_ascii_chars, is_char_boundary};
use crate::funcion::Ecuacion;
use crate::lectura::{
    compila, terminos_de, largo_tramo, valor_tramo, numero_en, lectura_valida, cifras, tope,
    contiene_circunflejo, en_rango_lectura, es_cifra,
};

verus! {

/// The character of the decimal digit `d`.
pub open spec fn cifra_char(d: int) -> char {
    if d == 0 {
        '0'
    } else if d == 1 {
        '1'
    } else if d == 2 {
        '2'
    } else if d == 3 {
        '3'
    } else if d == 4 {
        '4'
    } else if d == 5 {
        '5'
    } else if d == 6 {
        '6'
    } else if d == 7 {
        '7'
    } else if d == 8 {
        '8'
    } else {
        '9'
    }
}

/// The decimal digits of `n`, most significant first, without leading zeros.
pub open spec fn decimal(n: nat) -> Seq<char>
    decreases n,
{
    if n < 10 {
        seq![cifra_char(n as int)]
    } else {
        decimal(n / 10).push(cifra_char((n % 10) as int))
    }
}

/// `n` is written without the digit `9`.
pub open spec fn sin_nueve(n: nat) -> bool
    decreases n,
{
    n % 10 != 9 && (n < 10 || sin_nueve(n / 10))
}

/// The sign character of a term: `-` for a negative `positivo`, else `+`.
pub open spec fn signo(p: int) -> char {
    if p < 0 {
        '-'
    } else {
        '+'
    }
}

/// A term in `x` as it is written: sign, coefficient, `x^`, power.
pub open spec fn texto_termino(e: Ecuacion) -> Seq<char> {
    seq![signo(e.positivo as int)] + decimal(e.multiplicacion as nat) + seq!['x', '^'] + decimal(
        e.potencial as nat,
    )
}

/// A term in `x` that can be written and read back: sign `1` or `-1`, and a
/// coefficient and power that are non-negative and written without `9`.
pub open spec fn termino_canonico(e: Ecuacion) -> bool {
    &&& e.positivo == 1 || e.positivo == -1
    &&& e.multiplicacion >= 0
    &&& e.potencial >= 0
    &&& sin_nueve(e.multiplicacion as nat)
    &&& sin_nueve(e.potencial as nat)
}

/// A constant as it is written: its sign (`true` for `-`) and the decimal
/// digits of its absolute value. Zero may be written `+0` or `-0`.
pub open spec fn texto_constante(c: (bool, nat)) -> Seq<char> {
    seq![if c.0 { '-' } else { '+' }] + decimal(c.1)
}

/// The term that a written constant stands for.
pub open spec fn termino_constante(c: (bool, nat)) -> Ecuacion {
    Ecuacion {
        positivo: (if c.0 { -(c.1 as int) } else { c.1 as int }) as i32,
        multiplicacion: 0,
        potencial: 0,
    }
}

/// A constant that can be written and read back: its absolute value fits in
/// `i32` and is written without `9`.
pub open spec fn constante_canonica(c: (bool, nat)) -> bool {
    &&& c.1 <= i32::MAX
    &&& sin_nueve(c.1)
}

/// The text of the terms in `x` of `xs` followed by the constant `c`, if any.
pub open spec fn texto_polinomio(xs: Seq<Ecuacion>, c: Option<(bool, nat)>) -> Seq<char>
    decreases xs.len(),
{
    if xs.len() == 0 {
        match c {
            Some(e) => texto_constante(e),
            None => Seq::empty(),
        }
    } else {
        texto_termino(xs[0]) + texto_polinomio(xs.drop_first(), c)
    }
}

/// The terms `xs` followed by the constant `c`, if any.
pub open spec fn terminos_polinomio(xs: Seq<Ecuacion>, c: Option<(bool, nat)>) -> Seq<Ecuacion> {
    xs + match c {
        Some(e) => seq![termino_constante(e)],
        None => Seq::empty(),
    }
}

/// `xs` and `c` can be written and read back.
pub open spec fn polinomio_canonico(xs: Seq<Ecuacion>, c: Option<(bool, nat)>) -> bool {
    &&& forall|i: int| 0 <= i < xs.len() ==> termino_canonico(#[trigger] xs[i])
    &&& c matches Some(e) ==> constante_canonica(e)
}

proof fn lema_char_ascii(c: char)
    requires
        c as u32 <= 127,
    ensures
        '\0' <= c <= '\u{7f}',
{
}

proof fn lema_char_byte(c: char)
    requires
        c as u32 <= 127,
    ensures
        c as u8 == c as u32,
{
}

proof fn lema_cifra_byte(d: int)
    requires
        0 <= d <= 8,
    ensures
        cifra_char(d) as u32 == 48 + d,
        es_cifra(cifra_char(d) as u8),
{
}

/// The digits of a number without `9` are the characters `0` up to `8`, and
/// there are `cifras(n)` of them.
proof fn lema_decimal(n: nat)
    requires
        sin_nueve(n),
    ensures
        decimal(n).len() == cifras(n as int),
        forall|j: int|
            0 <= j < decimal(n).len() ==> 48 <= (#[trigger] decimal(n)[j]) as u32 <= 56,
    decreases n,
{
    lema_cifra_byte((n % 10) as int);
    if n >= 10 {
        lema_decimal(n / 10);
        assert forall|j: int| 0 <= j < decimal(n).len() implies 48 <= (#[trigger] decimal(n)[j]) as u32
            <= 56 by {
            if j < decimal(n / 10).len() {
                assert(decimal(n)[j] == decimal(n / 10)[j]);
            }
        }
    }
}

/// Bytes that spell `decimal(n)` from position `i` on have the value `n`.
proof fn lema_valor_decimal(b: Seq<u8>, i: int, n: nat)
    requires
        sin_nueve(n),
        0 <= i,
        i + decimal(n).len() <= b.len(),
        forall|j: int| 0 <= j < decimal(n).len() ==> b[i + j] as u32 == (#[trigger] decimal(n)[j]) as u32,
    ensures
        valor_tramo(b, i, decimal(n).len()) == n,
    decreases n,
{
    lema_cifra_byte((n % 10) as int);
    if n >= 10 {
        let d = decimal(n / 10);
        assert forall|j: int| 0 <= j < d.len() implies b[i + j] as u32 == (#[trigger] d[j]) as u32 by {
            assert(decimal(n)[j] == d[j]);
        }
        lema_valor_decimal(b, i, n / 10);
        assert(b[i + d.len()] as u32 == decimal(n)[d.len() as int] as u32);
        assert(decimal(n)[d.len() as int] == cifra_char((n % 10) as int));
        assert(valor_tramo(b, i, decimal(n).len()) == valor_tramo(b, i, d.len()) * 10 + (b[i + d.len()] - 48));
    } else {
        assert(b[i + 0] as u32 == decimal(n)[0] as u32);
        assert(valor_tramo(b, i, 0) == 0);
        assert(valor_tramo(b, i, 1) == valor_tramo(b, i, 0) * 10 + (b[i] - 48));
    }
}

/// Digit bytes from `i` up to `i + l`, and no digit at `i + l`: the run of
/// digits at `i` has length `l`.
proof fn lema_largo(b: Seq<u8>, i: int, l: int)
    requires
        0 <= i,
        0 <= l,
        i + l <= b.len(),
        forall|j: int| i <= j < i + l ==> es_cifra(#[trigger] b[j]),
        i + l == b.len() || !en_rango_lectura(b[i + l]),
    ensures
        largo_tramo(b, i) == l,
    decreases l,
{
    if l > 0 {
        lema_largo(b, i + 1, l - 1);
    }
}

/// Reading at `i` the number `n` written there in decimal, followed by the
/// end or by a byte outside `/`..`8`, gives `n` without overflow and ends
/// `cifras(n)` bytes further on.
proof fn lema_lee_numero(b: Seq<u8>, i: int, n: nat)
    requires
        sin_nueve(n),
        n <= i32::MAX,
        0 <= i,
        i + decimal(n).len() <= b.len(),
        i + decimal(n).len() <= i32::MAX,
        forall|j: int| 0 <= j < decimal(n).len() ==> b[i + j] as u32 == (#[trigger] decimal(n)[j]) as u32,
        i + decimal(n).len() == b.len() || !en_rango_lectura(b[i + decimal(n).len()]),
    ensures
        largo_tramo(b, i) == cifras(n as int),
        numero_en(b, i) == n,
        lectura_valida(b, i),
{
    lema_decimal(n);
    let l = decimal(n).len() as int;
    assert forall|j: int| i <= j < i + l implies es_cifra(#[trigger] b[j]) by {
        assert(b[i + (j - i)] as u32 == decimal(n)[j - i] as u32);
    }
    lema_largo(b, i, l);
    lema_valor_decimal(b, i, n);
}

/// Every index of the UTF-8 bytes of an ASCII text is a character boundary.
proof fn lema_ascii_bordes(t: Seq<char>, i: int)
    requires
        is_ascii_chars(t),
        0 <= i <= t.len(),
    ensures
        is_char_boundary(encode_utf8(t), i),
{
    broadcast use vstd::utf8::is_ascii_chars_encode_utf8, vstd::utf8::encode_utf8_valid_utf8,
        vstd::utf8::is_char_boundary_start_end_of_seq;

    let b = encode_utf8(t);
    if i < t.len() {
        vstd::utf8::is_char_boundary_iff_not_is_continuation_byte(b, i);
        assert(t[i] as u8 == b[i]);
    }
}

/// Characters of the text of a canonical polynomial are ASCII.
proof fn lema_texto_ascii(xs: Seq<Ecuacion>, c: Option<(bool, nat)>)
    requires
        polinomio_canonico(xs, c),
    ensures
        is_ascii_chars(texto_polinomio(xs, c)),
    decreases xs.len(),
{
    if xs.len() == 0 {
        if let Some(e) = c {
            lema_decimal(e.1);
            let t = texto_constante(e);
            assert forall|j: int| 0 <= j < t.len() implies '\0' <= #[trigger] t[j] <= '\u{7f}' by {
                if j > 0 {
                    assert(t[j] == decimal(e.1)[j - 1]);
                    lema_char_ascii(decimal(e.1)[j - 1]);
                } else {
                    assert(t[j] == (if e.0 { '-' } else { '+' }));
                }
            }
        }
    } else {
        let x = xs[0];
        assert(termino_canonico(x));
        lema_decimal(x.multiplicacion as nat);
        lema_decimal(x.potencial as nat);
        assert(polinomio_canonico(xs.drop_first(), c)) by {
            assert forall|i: int| 0 <= i < xs.drop_first().len() implies termino_canonico(
                #[trigger] xs.drop_first()[i],
            ) by {
                assert(xs.drop_first()[i] == xs[i + 1]);
            }
        }
        lema_texto_ascii(xs.drop_first(), c);
        let t = texto_termino(x);
        let dm = decimal(x.multiplicacion as nat);
        let dk = decimal(x.potencial as nat);
        assert forall|j: int| 0 <= j < t.len() implies '\0' <= #[trigger] t[j] <= '\u{7f}' by {
            if 1 <= j < 1 + dm.len() {
                assert(t[j] == dm[j - 1]);
                lema_char_ascii(dm[j - 1]);
            } else if 3 + dm.len() <= j {
                assert(t[j] == dk[j - 3 - dm.len()]);
                lema_char_ascii(dk[j - 3 - dm.len()]);
            } else if j == 0 {
                assert(t[j] == signo(x.positivo as int));
            } else if j == 1 + dm.len() {
                assert(t[j] == 'x');
            } else {
                assert(t[j] == '^');
            }
        }
        vstd::utf8::is_ascii_chars_concat(texto_polinomio(xs, c), t, texto_polinomio(xs.drop_first(), c));
    }
}

/// The text of a polynomial starts with a sign, where it is not empty.
proof fn lema_primer_signo(xs: Seq<Ecuacion>, c: Option<(bool, nat)>)
    requires
        texto_polinomio(xs, c).len() > 0,
    ensures
        texto_polinomio(xs, c)[0] == '+' || texto_polinomio(xs, c)[0] == '-',
{
    if xs.len() == 0 {
        if let Some(e) = c {
            assert(texto_constante(e)[0] == (if e.0 { '-' } else { '+' }));
        }
    } else {
        assert(texto_termino(xs[0])[0] == signo(xs[0].positivo as int));
        assert((texto_termino(xs[0]) + texto_polinomio(xs.drop_first(), c))[0] == texto_termino(xs[0])[0]);
    }
}

/// Where the characters of an ASCII text spell `decimal(n)`, so do its bytes.
proof fn lema_bytes_decimal(t: Seq<char>, i: int, n: nat)
    requires
        is_ascii_chars(t),
        sin_nueve(n),
        0 <= i,
        i + decimal(n).len() <= t.len(),
        forall|j: int| 0 <= j < decimal(n).len() ==> t[i + j] == #[trigger] decimal(n)[j],
    ensures
        forall|j: int|
            0 <= j < decimal(n).len() ==> encode_utf8(t)[i + j] as u32 == (#[trigger] decimal(n)[j]) as u32,
{
    broadcast use vstd::utf8::is_ascii_chars_encode_utf8;

    lema_decimal(n);
    assert forall|j: int| 0 <= j < decimal(n).len() implies encode_utf8(t)[i + j] as u32 == (
    #[trigger] decimal(n)[j]) as u32 by {
        assert(t[i + j] == decimal(n)[j]);
        lema_char_byte(t[i + j]);
        assert(t[i + j] as u8 == encode_utf8(t)[i + j]);
    }
}

/// Reading from the start `p` of the text of a canonical polynomial, with
/// the byte index one further on, gives back its terms.
proof fn lema_desde(t: Seq<char>, p: int, xs: Seq<Ecuacion>, c: Option<(bool, nat)>)
    requires
        is_ascii_chars(t),
        t.len() < i32::MAX,
        0 <= p <= t.len(),
        t.skip(p) == texto_polinomio(xs, c),
        polinomio_canonico(xs, c),
    ensures
        compila(t, encode_utf8(t), p + 1, p) == Some(terminos_polinomio(xs, c)),
    decreases xs.len(),
{
    broadcast use vstd::utf8::is_ascii_chars_encode_utf8;

    let b = encode_utf8(t);
    let n = t.len() as int;
    assert(b.len() == n);
    if xs.len() == 0 {
        match c {
            None => {
                assert(t.skip(p).len() == 0);
                assert(terminos_polinomio(xs, c) =~= Seq::<Ecuacion>::empty());
            },
            Some(e) => {
                let v = e.1;
                let d = decimal(v);
                lema_decimal(v);
                let tc = texto_constante(e);
                assert(t.skip(p) == tc);
                assert(tc.len() == 1 + d.len());
                assert(t.skip(p).len() == n - p);
                assert(p + 1 + d.len() == n);
                assert(t[p] == t.skip(p)[0]);
                assert forall|j: int| 0 <= j < d.len() implies t[p + 1 + j] == #[trigger] d[j] by {
                    assert(t[p + 1 + j] == t.skip(p)[1 + j]);
                    assert(t[p + 1 + j] == tc[1 + j]);
                }
                lema_bytes_decimal(t, p + 1, v);
                lema_lee_numero(b, p + 1, v);
                lema_ascii_bordes(t, p + 1);
                assert(!contiene_circunflejo(b, p + 1)) by {
                    assert forall|j: int| p + 1 <= j < b.len() implies b[j] != 94 by {
                        assert(b[(p + 1) + (j - p - 1)] as u32 == d[j - p - 1] as u32);
                    }
                }
                assert(terminos_polinomio(xs, c) =~= seq![termino_constante(e)]);
            },
        }
    } else {
        let x = xs[0];
        assert(termino_canonico(x));
        let m = x.multiplicacion as nat;
        let k = x.potencial as nat;
        let dm = decimal(m);
        let dk = decimal(k);
        lema_decimal(m);
        lema_decimal(k);
        let tt = texto_termino(x);
        let resto = texto_polinomio(xs.drop_first(), c);
        let q = p + tt.len();
        assert(t.skip(p) == tt + resto);
        assert(tt.len() == 3 + dm.len() + dk.len());
        assert(q <= n);
        assert(t.skip(q) =~= resto) by {
            assert forall|j: int| 0 <= j < resto.len() implies t.skip(q)[j] == resto[j] by {
                assert(t.skip(q)[j] == t.skip(p)[tt.len() + j]);
            }
        }
        assert(t[p] == t.skip(p)[0]);
        assert(t[p] == tt[0]);
        assert(t[p + 1 + dm.len()] == t.skip(p)[1 + dm.len() as int]);
        assert(t[p + 2 + dm.len()] == t.skip(p)[2 + dm.len() as int]);
        assert(t[p + 1 + dm.len()] == tt[1 + dm.len() as int]);
        assert(t[p + 2 + dm.len()] == tt[2 + dm.len() as int]);
        assert(tt[1 + dm.len() as int] == 'x');
        assert(tt[2 + dm.len() as int] == '^');
        assert forall|j: int| 0 <= j < dm.len() implies t[p + 1 + j] == #[trigger] dm[j] by {
            assert(t[p + 1 + j] == t.skip(p)[1 + j]);
            assert(t[p + 1 + j] == tt[1 + j]);
        }
        assert forall|j: int| 0 <= j < dk.len() implies t[p + 3 + dm.len() + j] == #[trigger] dk[j] by {
            assert(t[p + 3 + dm.len() + j] == t.skip(p)[3 + dm.len() + j]);
            assert(t[p + 3 + dm.len() + j] == tt[3 + dm.len() + j]);
        }
        lema_bytes_decimal(t, p + 1, m);
        lema_bytes_decimal(t, p + 3 + dm.len(), k);
        assert(b[p + 1 + dm.len()] == 120u8) by {
            lema_char_byte(t[p + 1 + dm.len()]);
        }
        assert(b[p + 2 + dm.len()] == 94u8) by {
            lema_char_byte(t[p + 2 + dm.len()]);
        }
        lema_lee_numero(b, p + 1, m);
        if q < n {
            lema_primer_signo(xs.drop_first(), c);
            assert(t[q] == t.skip(q)[0]);
            assert(t[q] == resto[0]);
            lema_char_byte(t[q]);
        }
        lema_lee_numero(b, p + 3 + dm.len(), k);
        lema_ascii_bordes(t, p + 1);
        assert(contiene_circunflejo(b, p + 1));
        assert(polinomio_canonico(xs.drop_first(), c)) by {
            assert forall|i: int| 0 <= i < xs.drop_first().len() implies termino_canonico(
                #[trigger] xs.drop_first()[i],
            ) by {
                assert(xs.drop_first()[i] == xs[i + 1]);
            }
        }
        lema_desde(t, q, xs.drop_first(), c);
        assert(terminos_polinomio(xs, c) =~= seq![x] + terminos_polinomio(xs.drop_first(), c));
    }
}

/// Reading the text of a polynomial written in the canonical way (each term
/// in `x` as sign, coefficient, `x^`, power; then possibly a constant as
/// sign and value; all numbers in decimal without the digit `9`) gives back
/// exactly its terms, in order.
pub proof fn ley_lectura_canonica(s: &str, xs: Seq<Ecuacion>, c: Option<(bool, nat)>)
    requires
        s@ == texto_polinomio(xs, c),
        polinomio_canonico(xs, c),
        s@.len() < i32::MAX,
    ensures
        terminos_de(s) == Some(terminos_polinomio(xs, c)),
{
    lema_texto_ascii(xs, c);
    assert(s@.skip(0) =~= s@);
    lema_desde(s@, 0, xs, c);
}

/// The UTF-8 bytes of `a + c` are those of `a` followed by those of `c`.
proof fn lema_utf8_concatenado(a: Seq<char>, c: Seq<char>)
    ensures
        encode_utf8(a + c) == encode_utf8(a) + encode_utf8(c),
    decreases a.len(),
{
    if a.len() == 0 {
        assert(a + c =~= c);
        assert(encode_utf8(a) + encode_utf8(c) =~= encode_utf8(c));
    } else {
        assert((a + c)[0] == a[0]);
        assert((a + c).drop_first() =~= a.drop_first() + c);
        lema_utf8_concatenado(a.drop_first(), c);
        assert(encode_utf8(a + c) =~= encode_utf8(a) + encode_utf8(c));
    }
}

/// The first byte of a text that starts with a sign is that sign.
proof fn lema_primer_byte_signo(u: Seq<char>)
    requires
        u.len() > 0,
        u[0] == '+' || u[0] == '-',
    ensures
        encode_utf8(u).len() > 0,
        encode_utf8(u)[0] == 43 || encode_utf8(u)[0] == 45,
{
    assert(43u32 & 0x7F == 43) by (bit_vector);
    assert(45u32 & 0x7F == 45) by (bit_vector);
    assert(encode_scalar(u[0] as u32).len() == 1);
    assert(encode_utf8(u)[0] == encode_scalar(u[0] as u32)[0]);
}

/// Digit runs at `i` of `c` and at `i + |p|` of `p + c` are the same.
proof fn lema_largo_desplazado(p: Seq<u8>, c: Seq<u8>, i: int)
    requires
        0 <= i,
    ensures
        largo_tramo(p + c, i + p.len()) == largo_tramo(c, i),
        largo_tramo(c, i) == 0 || i + largo_tramo(c, i) <= c.len(),
    decreases c.len() - i,
{
    if 0 <= i < c.len() {
        assert((p + c)[i + p.len()] == c[i]);
        lema_largo_desplazado(p, c, i + 1);
    }
}

proof fn lema_valor_desplazado(p: Seq<u8>, c: Seq<u8>, i: int, n: nat)
    requires
        0 <= i,
        i + n <= c.len(),
    ensures
        valor_tramo(p + c, i + p.len(), n) == valor_tramo(c, i, n),
    decreases n,
{
    if n > 0 {
        lema_valor_desplazado(p, c, i, (n - 1) as nat);
        assert((p + c)[i + p.len() + n - 1] == c[i + n - 1]);
    }
}

/// What the reading model looks at, at byte `i` of `c` and at byte `i + |p|`
/// of `p + c`, agrees.
proof fn lema_bytes_desplazados(p: Seq<u8>, c: Seq<u8>, i: int)
    requires
        0 <= i,
    ensures
        largo_tramo(p + c, i + p.len()) == largo_tramo(c, i),
        numero_en(p + c, i + p.len()) == numero_en(c, i),
        lectura_valida(p + c, i + p.len()) ==> lectura_valida(c, i),
        contiene_circunflejo(p + c, i + p.len()) == contiene_circunflejo(c, i),
{
    let b = p + c;
    let k = p.len() as int;
    lema_largo_desplazado(p, c, i);
    let l = largo_tramo(c, i);
    if l > 0 {
        lema_valor_desplazado(p, c, i, l);
    }
    if lectura_valida(b, i + k) && i + l < c.len() {
        assert(b[i + k + l] == c[i + l]);
    }
    if contiene_circunflejo(b, i + k) {
        let w = choose|w: int| i + k <= w < b.len() && b[w] == 94;
        assert(c[w - k] == b[w]);
    }
    if contiene_circunflejo(c, i) {
        let w = choose|w: int| i <= w < c.len() && c[w] == 94;
        assert(b[w + k] == c[w]);
    }
}

/// Byte `i` of the UTF-8 bytes of `cs` is a character boundary exactly when
/// byte `i + |pre|` of those of `pre + cs` is, for an ASCII `pre`.
proof fn lema_borde_desplazado(pre: Seq<char>, cs: Seq<char>, i: int)
    requires
        is_ascii_chars(pre),
        0 <= i,
    ensures
        is_char_boundary(encode_utf8(pre + cs), i + pre.len()) == is_char_boundary(
            encode_utf8(cs),
            i,
        ),
{
    broadcast use vstd::utf8::is_ascii_chars_encode_utf8, vstd::utf8::encode_utf8_valid_utf8,
        vstd::utf8::is_char_boundary_start_end_of_seq;

    lema_utf8_concatenado(pre, cs);
    let bp = encode_utf8(pre);
    let bu = encode_utf8(cs);
    let bj = encode_utf8(pre + cs);
    let k = pre.len() as int;
    assert(bp.len() == k);
    if i < bu.len() {
        vstd::utf8::is_char_boundary_iff_not_is_continuation_byte(bj, i + k);
        vstd::utf8::is_char_boundary_iff_not_is_continuation_byte(bu, i);
        assert(bj[i + k] == bu[i]);
    } else if i == bu.len() {
        assert(bj.len() == i + k);
    } else {
        assert(bj.len() < i + k);
        assert(!is_char_boundary(bj, i + k));
        assert(!is_char_boundary(bu, i));
    }
}

/// Reading from a state of `pre + cs` that lies `|pre|` characters (and
/// bytes) further on than a state of `cs`, for an ASCII `pre`, gives the same
/// terms, wherever the former does not stop on an overflow.
proof fn lema_desplazamiento(pre: Seq<char>, cs: Seq<char>, i: int, c: int)
    requires
        is_ascii_chars(pre),
        0 <= i,
        0 <= c,
        compila(pre + cs, encode_utf8(pre + cs), i + pre.len(), c + pre.len()) is Some,
    ensures
        compila(cs, encode_utf8(cs), i, c) == compila(
            pre + cs,
            encode_utf8(pre + cs),
            i + pre.len(),
            c + pre.len(),
        ),
    decreases cs.len() - c,
{
    broadcast use vstd::utf8::is_ascii_chars_encode_utf8;

    let k = pre.len() as int;
    let j = pre + cs;
    let bj = encode_utf8(j);
    let bu = encode_utf8(cs);
    let bp = encode_utf8(pre);
    lema_utf8_concatenado(pre, cs);
    assert(bp.len() == k);
    assert(bj == bp + bu);
    let n = cs.len() as int;
    if c < n {
        assert(j[c + k] == cs[c]);
        let e = cs[c];
        lema_borde_desplazado(pre, cs, i);
        lema_bytes_desplazados(bp, bu, i);
        if contiene_circunflejo(bu, i) && (e == '+' || e == '-') {
            let m = numero_en(bu, i);
            let i2 = i + cifras(m) + 2;
            lema_bytes_desplazados(bp, bu, i2);
            let kk = numero_en(bu, i2);
            let i3 = i2 + cifras(kk) + 1;
            let cp2 = tope(c + 2 + cifras(m), n);
            let cp3 = tope(cp2 + cifras(kk), n);
            let cp4 = tope(cp3 + 1, n);
            assert(tope(c + k + 2 + cifras(m), n + k) == cp2 + k);
            assert(tope(cp2 + k + cifras(kk), n + k) == cp3 + k);
            assert(tope(cp3 + k + 1, n + k) == cp4 + k);
            lema_desplazamiento(pre, cs, i3, cp4);
        } else if contiene_circunflejo(bu, i) {
            assert(tope(c + k + 2, n + k) == tope(c + 2, n) + k);
            lema_desplazamiento(pre, cs, i, tope(c + 2, n));
        }
    }
}

/// The facts about a text `jj` and its bytes `b` that reading a run of
/// canonical terms in `x` up to character `k` needs: the characters before
/// `k` are ASCII and are their bytes, every index up to `k` is a character
/// boundary, and what follows does not continue a number.
pub open spec fn prefijo_legible(jj: Seq<char>, b: Seq<u8>, k: int) -> bool {
    &&& 0 <= k <= jj.len()
    &&& k <= b.len()
    &&& forall|q: int| 0 <= q < k ==> (#[trigger] jj[q]) as u32 <= 127 && b[q] == jj[q] as u8
    &&& forall|q: int| 0 <= q <= k ==> #[trigger] is_char_boundary(b, q)
    &&& k == b.len() || !en_rango_lectura(b[k])
}

/// Reading a run of canonical terms in `x` that fills characters `p..k` of
/// `jj` gives those terms, then what reading from `k` on gives.
proof fn lema_prefijo(jj: Seq<char>, b: Seq<u8>, p: int, k: int, xs: Seq<Ecuacion>)
    requires
        prefijo_legible(jj, b, k),
        jj.len() < i32::MAX,
        0 <= p <= k,
        jj.subrange(p, k) == texto_polinomio(xs, None),
        polinomio_canonico(xs, None),
    ensures
        compila(jj, b, p + 1, p) == match compila(jj, b, k + 1, k) {
            Some(r) => Some(xs + r),
            None => None,
        },
    decreases xs.len(),
{
    if xs.len() == 0 {
        assert(jj.subrange(p, k).len() == 0);
        assert(p == k);
        match compila(jj, b, k + 1, k) {
            Some(r) => {
                assert(xs + r =~= r);
            },
            None => {},
        }
    } else {
        let n = jj.len() as int;
        let x = xs[0];
        assert(termino_canonico(x));
        let m = x.multiplicacion as nat;
        let kk = x.potencial as nat;
        let dm = decimal(m);
        let dk = decimal(kk);
        lema_decimal(m);
        lema_decimal(kk);
        let tt = texto_termino(x);
        let resto = texto_polinomio(xs.drop_first(), None);
        let q = p + tt.len();
        let r = jj.subrange(p, k);
        assert(r == tt + resto);
        assert(tt.len() == 3 + dm.len() + dk.len());
        assert(q <= k);
        assert(jj.subrange(q, k) =~= resto) by {
            assert forall|w: int| 0 <= w < resto.len() implies jj.subrange(q, k)[w] == resto[w] by {
                assert(jj.subrange(q, k)[w] == r[tt.len() + w]);
            }
        }
        assert(jj[p] == r[0]);
        assert(jj[p + 1 + dm.len()] == r[1 + dm.len() as int]);
        assert(jj[p + 2 + dm.len()] == r[2 + dm.len() as int]);
        assert(tt[1 + dm.len() as int] == 'x');
        assert(tt[2 + dm.len() as int] == '^');
        assert forall|w: int| 0 <= w < dm.len() implies b[p + 1 + w] as u32 == (
        #[trigger] dm[w]) as u32 by {
            assert(jj[p + 1 + w] == r[1 + w]);
            assert(r[1 + w] == tt[1 + w]);
            lema_char_byte(jj[p + 1 + w]);
        }
        assert forall|w: int| 0 <= w < dk.len() implies b[p + 3 + dm.len() + w] as u32 == (
        #[trigger] dk[w]) as u32 by {
            assert(jj[p + 3 + dm.len() + w] == r[3 + dm.len() + w]);
            assert(r[3 + dm.len() + w] == tt[3 + dm.len() + w]);
            lema_char_byte(jj[p + 3 + dm.len() + w]);
        }
        assert(b[p + 1 + dm.len()] == 120u8) by {
            assert(jj[p + 1 + dm.len()] == tt[1 + dm.len() as int]);
            lema_char_byte(jj[p + 1 + dm.len()]);
        }
        assert(b[p + 2 + dm.len()] == 94u8) by {
            assert(jj[p + 2 + dm.len()] == tt[2 + dm.len() as int]);
            lema_char_byte(jj[p + 2 + dm.len()]);
        }
        lema_lee_numero(b, p + 1, m);
        if q < k {
            lema_primer_signo(xs.drop_first(), None);
            assert(jj[q] == jj.subrange(q, k)[0]);
            lema_char_byte(jj[q]);
        }
        lema_lee_numero(b, p + 3 + dm.len(), kk);
        assert(is_char_boundary(b, p + 1));
        assert(contiene_circunflejo(b, p + 1));
        assert(polinomio_canonico(xs.drop_first(), None)) by {
            assert forall|w: int| 0 <= w < xs.drop_first().len() implies termino_canonico(
                #[trigger] xs.drop_first()[w],
            ) by {
                assert(xs.drop_first()[w] == xs[w + 1]);
            }
        }
        lema_prefijo(jj, b, q, k, xs.drop_first());
        match compila(jj, b, k + 1, k) {
            Some(rr) => {
                assert(xs + rr =~= seq![x] + (xs.drop_first() + rr));
            },
            None => {},
        }
    }
}

/// Reading splits at the boundaries between terms: for a text `t` of
/// canonical terms in `x` and a text `u` that is empty or starts with a sign,
/// reading `t + u` gives the terms of `t` followed by those of `u`, so
/// reading `t` and then `u` into the same polynomial gives the same terms as
/// reading `t + u`.
pub proof fn ley_lectura_concatenada(t: &str, u: &str, j: &str, xs: Seq<Ecuacion>)
    requires
        t@ == texto_polinomio(xs, None),
        polinomio_canonico(xs, None),
        u@.len() == 0 || u@[0] == '+' || u@[0] == '-',
        j@ == t@ + u@,
        j@.len() < i32::MAX,
        terminos_de(j) is Some,
    ensures
        terminos_de(t) == Some(xs),
        terminos_de(u) is Some,
        terminos_de(j).unwrap() == terminos_de(t).unwrap() + terminos_de(u).unwrap(),
{
    broadcast use vstd::utf8::is_ascii_chars_encode_utf8, vstd::utf8::encode_utf8_valid_utf8,
        vstd::utf8::is_char_boundary_start_end_of_seq;

    let tt = t@;
    let uu = u@;
    let jj = j@;
    let k = tt.len() as int;
    ley_lectura_canonica(t, xs, None);
    assert(terminos_polinomio(xs, None) =~= xs);
    lema_texto_ascii(xs, None);
    lema_utf8_concatenado(tt, uu);
    let bt = encode_utf8(tt);
    let bu = encode_utf8(uu);
    let b = encode_utf8(jj);
    assert(b == bt + bu);
    assert(bt.len() == k);
    if uu.len() > 0 {
        lema_primer_byte_signo(uu);
        assert(b[k] == bu[0]);
    }
    assert forall|q: int| 0 <= q < k implies (#[trigger] jj[q]) as u32 <= 127 && b[q] == jj[q] as u8 by {
        assert(jj[q] == tt[q]);
        assert(b[q] == bt[q]);
    }
    assert forall|q: int| 0 <= q <= k implies #[trigger] is_char_boundary(b, q) by {
        if q < b.len() {
            vstd::utf8::is_char_boundary_iff_not_is_continuation_byte(b, q);
            if q < k {
                assert(jj[q] == tt[q]);
                assert(b[q] == bt[q]);
            }
        }
    }
    assert(prefijo_legible(jj, b, k));
    assert(jj.subrange(0, k) =~= tt);
    lema_prefijo(jj, b, 0, k, xs);
    assert(compila(jj, b, k + 1, k) is Some);
    assert(jj =~= tt + uu);
    lema_desplazamiento(tt, uu, 1, 0);
}

} // verus!
