use vstd::prelude::*;
use vstd::arithmetic::power::pow;

verus! {

/// One term of a polynomial.
///
/// A term in `x` has `positivo` equal to `1` or `-1` (its sign), a coefficient
/// `multiplicacion` and a power `potencial`; any other value of `positivo` is a
/// constant term whose value is `positivo`.
#[derive(Debug, Clone, Copy, PartialEq, Eq, Structural)]
pub struct Ecuacion {
    pub positivo: i32,
    pub multiplicacion: i32,
    pub potencial: i32,
}

impl Default for Ecuacion {
    fn default() -> (e: Self)
        ensures
            e == Ecuacion::cero(),
    {
        Ecuacion { positivo: 0, multiplicacion: 0, potencial: 0 }
    }
}

impl Ecuacion {
    /// The term with every field zero.
    pub open spec fn cero() -> Ecuacion {
        Ecuacion { positivo: 0, multiplicacion: 0, potencial: 0 }
    }

    /// `true` for a term in `x`, as opposed to a constant.
    pub open spec fn es_variable(self) -> bool {
        -1 <= self.positivo <= 1
    }
}

/// A polynomial: its terms in the order in which they were written.
#[derive(Debug, Clone)]
pub struct Funcion {
    pub ecuaciones: Vec<Ecuacion>,
}

impl Default for Funcion {
    fn default() -> (f: Self)
        ensures
            f.ecuaciones@ == Seq::<Ecuacion>::empty(),
    {
        Funcion { ecuaciones: Vec::new() }
    }
}

/// The power rule applied to one term: a term in `x` with coefficient `m` and
/// power `k` becomes the term with coefficient `m * k` and power `k - 1`; a
/// constant is left as it is.
pub open spec fn derivar_termino(e: Ecuacion) -> Ecuacion {
    if e.es_variable() {
        Ecuacion {
            positivo: e.positivo,
            multiplicacion: (e.multiplicacion * e.potencial) as i32,
            potencial: (e.potencial - 1) as i32,
        }
    } else {
        e
    }
}

/// `derivar_termino` can be computed in `i32`.
pub open spec fn derivable(e: Ecuacion) -> bool {
    &&& e.positivo != i32::MIN
    &&& e.es_variable() ==> {
        &&& i32::MIN <= e.multiplicacion * e.potencial <= i32::MAX
        &&& e.potencial != i32::MIN
    }
}

/// A term of the power rule turned into the constant it stands for, as done
/// to the last term that remains: its value becomes `multiplicacion * positivo`
/// and its coefficient `0`.
pub open spec fn a_constante(e: Ecuacion) -> Ecuacion {
    Ecuacion {
        positivo: (e.multiplicacion * e.positivo) as i32,
        multiplicacion: 0,
        potencial: e.potencial,
    }
}

/// What `to_derivada` gives for the terms `s`: every term but the last goes
/// through the power rule, the last one is dropped, and the term that is then
/// last is turned into a constant.
pub open spec fn derivada(s: Seq<Ecuacion>) -> Seq<Ecuacion> {
    let d = s.drop_last().map_values(|e: Ecuacion| derivar_termino(e));
    d.update(d.len() - 1, a_constante(d.last()))
}

/// The terms `s` can go through `to_derivada` without overflow: there are at
/// least two, every one can be derived, and the turn into a constant fits.
pub open spec fn derivada_calculable(s: Seq<Ecuacion>) -> bool {
    &&& s.len() >= 2
    &&& forall|i: int| 0 <= i < s.len() ==> derivable(#[trigger] s[i])
    &&& {
        let e = derivar_termino(s[s.len() - 2]);
        i32::MIN <= e.multiplicacion * e.positivo <= i32::MAX
    }
}

/// `|x|`, for an `x` whose absolute value fits in `i32`.
pub fn valor_absoluto(x: i32) -> (r: i32)
    requires
        x != i32::MIN,
    ensures
        r == (if x < 0 { -x } else { x as int }),
{
    if x < 0 {
        -x
    } else {
        x
    }
}

impl Funcion {
    /// The derivative by the power rule, on the assumption that the last term
    /// is a constant and the one before it has power 1.
    pub fn to_derivada(&self) -> (r: Funcion)
        requires
            derivada_calculable(self.ecuaciones@),
        ensures
            r.ecuaciones@ == derivada(self.ecuaciones@),
            regla_de_la_potencia(self.ecuaciones@, r.ecuaciones@),
    {
        proof {
            ley_regla_potencia(self.ecuaciones@);
        }
        let n = self.ecuaciones.len();
        let mut ecuaciones: Vec<Ecuacion> = Vec::new();
        let mut i: usize = 0;
        while i < n
            invariant
                n == self.ecuaciones@.len(),
                i <= n,
                derivada_calculable(self.ecuaciones@),
                ecuaciones@.len() == i,
                forall|j: int|
                    0 <= j < i ==> ecuaciones@[j] == derivar_termino(#[trigger] self.ecuaciones@[j]),
            decreases n - i,
        {
            let mut eq = self.ecuaciones[i];
            assert(derivable(self.ecuaciones@[i as int]));
            if valor_absoluto(eq.positivo) > 1 {
            } else {
                let mul = eq.potencial;
                eq.multiplicacion = eq.multiplicacion * mul;
                eq.potencial = eq.potencial - 1;
            }
            ecuaciones.push(eq);
            i = i + 1;
        }
        ecuaciones.pop();
        let len = ecuaciones.len();
        let ultima = ecuaciones[len - 1];
        ecuaciones.set(
            len - 1,
            Ecuacion {
                positivo: ultima.multiplicacion * ultima.positivo,
                multiplicacion: 0,
                potencial: ultima.potencial,
            },
        );
        let r = Funcion { ecuaciones };
        assert(r.ecuaciones@ =~= derivada(self.ecuaciones@));
        r
    }
}

/// Whether `to_derivada` can run on `f` without panicking.
pub fn derivada_es_calculable(f: &Funcion) -> (r: bool)
    ensures
        r == derivada_calculable(f.ecuaciones@),
{
    let n = f.ecuaciones.len();
    if n < 2 {
        return false;
    }
    let mut i: usize = 0;
    while i < n
        invariant
            n == f.ecuaciones@.len(),
            i <= n,
            forall|j: int| 0 <= j < i ==> derivable(#[trigger] f.ecuaciones@[j]),
        decreases n - i,
    {
        let e = f.ecuaciones[i];
        if e.positivo == i32::MIN {
            return false;
        }
        if -1 <= e.positivo && e.positivo <= 1 {
            proof {
                crate::division::lema_producto_acotado(e.multiplicacion as int, e.potencial as int);
            }
            let prod = e.multiplicacion as i64 * e.potencial as i64;
            if prod < i32::MIN as i64 || prod > i32::MAX as i64 || e.potencial == i32::MIN {
                return false;
            }
        }
        i = i + 1;
    }
    let e = f.ecuaciones[n - 2];
    assert(derivable(f.ecuaciones@[n - 2]));
    let m: i32 = if -1 <= e.positivo && e.positivo <= 1 {
        e.multiplicacion * e.potencial
    } else {
        e.multiplicacion
    };
    proof {
        crate::division::lema_producto_acotado(m as int, e.positivo as int);
    }
    let prod = m as i64 * e.positivo as i64;
    prod >= i32::MIN as i64 && prod <= i32::MAX as i64
}

/// The value of a term at `x`: `positivo * multiplicacion * x^potencial`
/// for a term in `x`, the constant itself otherwise.
pub open spec fn valor_termino(e: Ecuacion, x: int) -> int {
    if e.es_variable() {
        e.positivo * e.multiplicacion * pow(x, e.potencial as nat)
    } else {
        e.positivo as int
    }
}

/// The value of the terms `s` at `x`: the sum of the values of the terms.
pub open spec fn valor_en(s: Seq<Ecuacion>, x: int) -> int
    decreases s.len(),
{
    if s.len() == 0 {
        0
    } else {
        valor_en(s.drop_last(), x) + valor_termino(s.last(), x)
    }
}

/// The slope of a term at `x`: `positivo * multiplicacion * k * x^(k - 1)`
/// for a term in `x` of power `k >= 1`, `0` otherwise.
pub open spec fn pendiente_termino(e: Ecuacion, x: int) -> int {
    if e.es_variable() && e.potencial >= 1 {
        e.positivo * e.multiplicacion * e.potencial * pow(x, (e.potencial - 1) as nat)
    } else {
        0
    }
}

/// The slope of the terms `s` at `x`: the value at `x` of their derivative.
pub open spec fn pendiente_en(s: Seq<Ecuacion>, x: int) -> int
    decreases s.len(),
{
    if s.len() == 0 {
        0
    } else {
        pendiente_en(s.drop_last(), x) + pendiente_termino(s.last(), x)
    }
}

proof fn lema_derivar_terminos(w: Seq<Ecuacion>, x: int)
    requires
        forall|i: int|
            0 <= i < w.len() ==> #[trigger] w[i].es_variable() && w[i].potencial >= 1 && derivable(
                w[i],
            ),
    ensures
        valor_en(w.map_values(|e: Ecuacion| derivar_termino(e)), x) == pendiente_en(w, x),
    decreases w.len(),
{
    if w.len() > 0 {
        let wd = w.map_values(|e: Ecuacion| derivar_termino(e));
        assert(wd.drop_last() =~= w.drop_last().map_values(|e: Ecuacion| derivar_termino(e)));
        lema_derivar_terminos(w.drop_last(), x);
        let e = w.last();
        assert(e == w[w.len() - 1]);
        let p = e.positivo as int;
        let m = e.multiplicacion as int;
        let k = e.potencial as int;
        let q = pow(x, (k - 1) as nat);
        assert(wd.last() == derivar_termino(e));
        assert(p * (m * k) * q == p * m * k * q) by (nonlinear_arith);
    }
}

/// The power rule: for terms in `x` of power at least 1 followed by a
/// constant, the one before it of power 1, the value of `to_derivada` at any
/// `x` is the slope of the given terms there. It fails where the term of
/// power 1 has `multiplicacion * positivo` equal to `1` or `-1`: the
/// resulting constant is then taken for a term in `x` with coefficient `0`.
pub proof fn ley_derivada(s: Seq<Ecuacion>, x: int)
    requires
        derivada_calculable(s),
        forall|i: int| 0 <= i < s.len() - 1 ==> #[trigger] s[i].es_variable() && s[i].potencial >= 1,
        s[s.len() - 2].potencial == 1,
        !s.last().es_variable() || s.last().potencial == 0,
        s[s.len() - 2].multiplicacion * s[s.len() - 2].positivo != 1,
        s[s.len() - 2].multiplicacion * s[s.len() - 2].positivo != -1,
    ensures
        valor_en(derivada(s), x) == pendiente_en(s, x),
{
    let u = s.drop_last();
    let v = u.drop_last();
    let d = u.map_values(|e: Ecuacion| derivar_termino(e));
    let r = derivada(s);
    assert(r.drop_last() =~= v.map_values(|e: Ecuacion| derivar_termino(e)));
    assert forall|i: int| 0 <= i < v.len() implies #[trigger] v[i].es_variable() && v[i].potencial
        >= 1 && derivable(v[i]) by {
        assert(v[i] == s[i]);
    }
    lema_derivar_terminos(v, x);
    let e = u.last();
    assert(e == s[s.len() - 2]);
    assert(derivable(s[s.len() - 2]));
    assert(d.last() == derivar_termino(e));
    let p = e.positivo as int;
    let m = e.multiplicacion as int;
    vstd::arithmetic::power::lemma_pow0(x);
    assert(pow(x, 0) == 1);
    assert(r.last() == a_constante(d.last()));
    assert(m * 1 == m);
    assert(p * m * 1 * 1 == m * p) by (nonlinear_arith);
    assert(p * 0 * 1 == 0);
    assert(pendiente_termino(s.last(), x) == 0);
    assert(r.len() == s.len() - 1);
    assert(valor_en(r, x) == valor_en(r.drop_last(), x) + valor_termino(r.last(), x));
    assert(valor_en(r.drop_last(), x) == pendiente_en(v, x));
    let c = a_constante(d.last());
    assert(c.positivo == m * p);
    assert(c.multiplicacion == 0);
    if c.es_variable() {
        assert(m * p == 0);
        assert(valor_termino(c, x) == c.positivo * 0 * pow(x, c.potencial as nat));
        assert(c.positivo * 0 * pow(x, c.potencial as nat) == 0) by (nonlinear_arith);
        assert(p * m == 0) by (nonlinear_arith)
            requires
                m * p == 0,
        ;
    }
    assert(valor_termino(r.last(), x) == pendiente_termino(e, x));
    assert(pendiente_en(s, x) == pendiente_en(u, x) + pendiente_termino(s.last(), x));
    assert(pendiente_en(u, x) == pendiente_en(v, x) + pendiente_termino(e, x));
}

/// `d` is what differentiating the terms `s` by the power rule gives, term
/// by term, with the term before the last one turned into a constant: one
/// term fewer; each term in `x` (`positivo` between `-1` and `1`) of
/// coefficient `m` and power `k` before it becomes coefficient `m * k` and
/// power `k - 1`, with the same sign, and each constant stays; the term before
/// the last becomes the constant `positivo * m * k` (a constant there becomes
/// `multiplicacion * positivo`), with coefficient `0`.
pub open spec fn regla_de_la_potencia(s: Seq<Ecuacion>, d: Seq<Ecuacion>) -> bool {
    let n = s.len() as int;
    &&& d.len() == n - 1
    &&& forall|i: int|
        0 <= i < n - 2 ==> if -1 <= #[trigger] s[i].positivo <= 1 {
            &&& d[i].positivo == s[i].positivo
            &&& d[i].multiplicacion == s[i].multiplicacion * s[i].potencial
            &&& d[i].potencial == s[i].potencial - 1
        } else {
            d[i] == s[i]
        }
    &&& {
        let e = s[n - 2];
        let u = d[n - 2];
        &&& u.multiplicacion == 0
        &&& if -1 <= e.positivo <= 1 {
            &&& u.positivo == e.positivo * e.multiplicacion * e.potencial
            &&& u.potencial == e.potencial - 1
        } else {
            &&& u.positivo == e.multiplicacion * e.positivo
            &&& u.potencial == e.potencial
        }
    }
}

/// The power rule, term by term, for every input `to_derivada` accepts,
/// whatever the power of the term before the constant.
pub proof fn ley_regla_potencia(s: Seq<Ecuacion>)
    requires
        derivada_calculable(s),
    ensures
        regla_de_la_potencia(s, derivada(s)),
{
    let n = s.len() as int;
    let d = derivada(s);
    assert forall|i: int| 0 <= i < n - 2 implies if -1 <= #[trigger] s[i].positivo <= 1 {
        &&& d[i].positivo == s[i].positivo
        &&& d[i].multiplicacion == s[i].multiplicacion * s[i].potencial
        &&& d[i].potencial == s[i].potencial - 1
    } else {
        d[i] == s[i]
    } by {
        assert(derivable(s[i]));
        assert(d[i] == derivar_termino(s[i]));
    }
    let e = s[n - 2];
    assert(derivable(s[n - 2]));
    let de = derivar_termino(e);
    assert(d[n - 2] == a_constante(de));
    if -1 <= e.positivo <= 1 {
        let p = e.positivo as int;
        let m = e.multiplicacion as int;
        let k = e.potencial as int;
        assert(de.multiplicacion == m * k);
        assert((m * k) * p == p * m * k) by (nonlinear_arith);
    }
}

} // verus!
