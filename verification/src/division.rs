use vstd::prelude::*;
use crate::funcion::{Ecuacion, Funcion, valor_absoluto, valor_termino};
use vstd::arithmetic::power::pow;

verus! {

/// `v` fits in `i32`.
pub open spec fn en_i32(v: int) -> bool {
    i32::MIN <= v <= i32::MAX
}

/// The divisors of `n` among `1..=k`, in increasing order.
pub open spec fn divisores(n: int, k: int) -> Seq<i32>
    decreases k,
{
    if k <= 0 {
        Seq::empty()
    } else {
        divisores(n, k - 1) + if n % k == 0 {
            seq![k as i32]
        } else {
            Seq::empty()
        }
    }
}

/// The divisors of `n` in increasing order (none for `n <= 0`).
pub fn get_factors(n: i32) -> (r: Vec<i32>)
    requires
        n < i32::MAX,
    ensures
        r@ == divisores(n as int, n as int),
{
    let mut r: Vec<i32> = Vec::new();
    let mut x: i32 = 1;
    while x <= n
        invariant
            n < i32::MAX,
            1 <= x,
            x <= n + 1 || x == 1,
            r@ == divisores(n as int, x - 1),
        decreases n + 1 - x,
    {
        if n % x == 0 {
            r.push(x);
        }
        x = x + 1;
    }
    assert(x - 1 == n || n < 1);
    assert(n < 1 ==> divisores(n as int, n as int) == divisores(n as int, x - 1));
    r
}

/// Horner's scheme from the running value `acc` over the coefficients still
/// to come: each step multiplies by `x` and adds the next coefficient.
pub open spec fn horner_desde(acc: int, resto: Seq<i32>, x: int) -> int
    decreases resto.len(),
{
    if resto.len() == 0 {
        acc
    } else {
        horner_desde(resto[0] + x * acc, resto.drop_first(), x)
    }
}

/// `resta` computes `horner_desde(acc, resto, x)` without overflow: every
/// product `x * acc` it forms (the last one too, which it forms before it
/// finds that no coefficient is left) and every sum fits in `i32`.
pub open spec fn horner_cabe(acc: int, resto: Seq<i32>, x: int) -> bool
    decreases resto.len(),
{
    &&& en_i32(x * acc)
    &&& resto.len() > 0 ==> {
        &&& en_i32(resto[0] + x * acc)
        &&& horner_cabe(resto[0] + x * acc, resto.drop_first(), x)
    }
}

/// One step of synthetic division: multiplies the running value `num` by
/// `factor`, adds the next coefficient of `independientes` (the ones still to
/// come), and goes on until the coefficients run out.
pub fn resta(independientes: &[i32], factor: &i32, num: &i32) -> (r: i32)
    requires
        horner_cabe(*num as int, independientes@, *factor as int),
    ensures
        r == horner_desde(*num as int, independientes@, *factor as int),
        r == *num * pow(*factor as int, independientes@.len()) + valor_polinomio(
            independientes@,
            *factor as int,
        ),
    decreases independientes@.len(),
{
    proof {
        lema_horner(*num as int, independientes@, *factor as int);
    }
    let mult = factor * num;
    if independientes.len() == 0 {
        return *num;
    }
    let siguiente = independientes[0];
    let resto = &independientes[1..independientes.len()];
    assert(resto@ =~= independientes@.drop_first());
    let res = siguiente + mult;
    resta(resto, factor, &res)
}

/// The value that synthetic division by `x` leaves for the coefficients `c`
/// (highest power first), or `None` when there are none.
pub open spec fn evaluacion_sintetica(c: Seq<i32>, x: int) -> Option<i32> {
    if c.len() == 0 {
        None
    } else {
        Some(horner_desde(c[0] as int, c.drop_first(), x) as i32)
    }
}

/// `division_sin` can run on `c` and `x` without overflow.
pub open spec fn division_calculable(c: Seq<i32>, x: int) -> bool {
    c.len() > 0 ==> horner_cabe(c[0] as int, c.drop_first(), x)
}

/// Synthetic division of the coefficients `term_in` (highest power first) by
/// `x - factor`: the pair of `factor` and the remainder, which is the value of
/// the polynomial at `factor`; `None` for no coefficients.
pub fn division_sin(factor: &i32, term_in: &Vec<i32>) -> (r: (i32, Option<i32>))
    requires
        division_calculable(term_in@, *factor as int),
    ensures
        r == (*factor, evaluacion_sintetica(term_in@, *factor as int)),
        term_in@.len() == 0 ==> r.1 is None,
        term_in@.len() > 0 ==> r.1 is Some && r.1->0 == valor_polinomio(term_in@, *factor as int),
{
    proof {
        ley_evaluacion_sintetica(term_in@, *factor as int);
        if term_in@.len() > 0 {
            lema_horner_en_i32(term_in@[0] as int, term_in@.drop_first(), *factor as int);
        }
    }
    let s = term_in.as_slice();
    if s.len() == 0 {
        return (*factor, None);
    }
    let prim_term_in = s[0];
    let resto = &s[1..s.len()];
    assert(resto@ =~= term_in@.drop_first());
    let res = resta(resto, factor, &prim_term_in);
    proof {
        lema_horner_en_i32(prim_term_in as int, resto@, *factor as int);
    }
    (*factor, Some(res))
}

proof fn lema_horner_en_i32(acc: int, resto: Seq<i32>, x: int)
    requires
        en_i32(acc),
        horner_cabe(acc, resto, x),
    ensures
        en_i32(horner_desde(acc, resto, x)),
    decreases resto.len(),
{
    if resto.len() > 0 {
        lema_horner_en_i32(resto[0] + x * acc, resto.drop_first(), x);
    }
}

/// The largest power among the terms `s`, or `0` if none is larger.
pub open spec fn potencia_maxima(s: Seq<Ecuacion>) -> int
    decreases s.len(),
{
    if s.len() == 0 {
        0
    } else {
        let m = potencia_maxima(s.drop_last());
        if s.last().potencial > m {
            s.last().potencial as int
        } else {
            m
        }
    }
}

/// `s` without its last element (`s` itself when empty).
pub open spec fn sin_ultimo(s: Seq<i32>) -> Seq<i32> {
    if s.len() == 0 {
        s
    } else {
        s.drop_last()
    }
}

/// The quotients `f / d` for the divisors `d` in `ds` that divide `f`, in
/// the order of `ds`.
pub open spec fn cocientes_de(f: i32, ds: Seq<i32>) -> Seq<i32>
    decreases ds.len(),
{
    if ds.len() == 0 {
        Seq::empty()
    } else {
        cocientes_de(f, ds.drop_last()) + if f % ds.last() == 0 {
            seq![(f / ds.last()) as i32]
        } else {
            Seq::empty()
        }
    }
}

/// The candidate roots: for each `f` in `fs` in order, `cocientes_de(f, ds)`.
pub open spec fn candidatos(fs: Seq<i32>, ds: Seq<i32>) -> Seq<i32>
    decreases fs.len(),
{
    if fs.len() == 0 {
        Seq::empty()
    } else {
        candidatos(fs.drop_last(), ds) + cocientes_de(fs.last(), ds)
    }
}

/// The coefficient that synthetic division uses for a term: `positivo *
/// multiplicacion` for a term in `x`, the value of a constant.
pub open spec fn coeficiente(e: Ecuacion) -> i32 {
    if e.es_variable() {
        (e.positivo * e.multiplicacion) as i32
    } else {
        e.positivo
    }
}

/// `actualizar_datos` runs on the terms `s` without overflow.
pub open spec fn datos_calculables(s: Seq<Ecuacion>) -> bool {
    s.len() > 0 ==> {
        &&& -i32::MAX < s.last().positivo < i32::MAX
        &&& potencia_maxima(s) < i32::MAX
        &&& forall|i: int|
            0 <= i < s.len() ==> {
                &&& #[trigger] s[i].positivo != i32::MIN
                &&& s[i].es_variable() ==> en_i32(s[i].positivo * s[i].multiplicacion)
            }
    }
}

/// The data and results of the synthetic division method.
#[derive(Debug)]
pub struct DivisionSintetica {
    /// Candidate roots.
    pub factores: Vec<i32>,
    /// Coefficients of the polynomial, highest power first.
    pub terminos_in: Vec<i32>,
    /// For each candidate, the candidate and the remainder of the division.
    pub resultados: Vec<(i32, Option<i32>)>,
}

impl Default for DivisionSintetica {
    fn default() -> (d: Self)
        ensures
            d.factores@ == Seq::<i32>::empty(),
            d.terminos_in@ == Seq::<i32>::empty(),
            d.resultados@ == Seq::<(i32, Option<i32>)>::empty(),
    {
        DivisionSintetica { factores: Vec::new(), terminos_in: Vec::new(), resultados: Vec::new() }
    }
}

impl DivisionSintetica {
    /// Divides by every candidate root and keeps the results in order.
    pub fn obtener_resultados(&mut self)
        requires
            forall|i: int|
                0 <= i < old(self).factores@.len() ==> division_calculable(
                    old(self).terminos_in@,
                    #[trigger] old(self).factores@[i] as int,
                ),
        ensures
            final(self).factores@ == old(self).factores@,
            final(self).terminos_in@ == old(self).terminos_in@,
            final(self).resultados@ == old(self).factores@.map_values(
                |f: i32| (f, evaluacion_sintetica(old(self).terminos_in@, f as int)),
            ),
    {
        self.resultados = Vec::new();
        let n = self.factores.len();
        let mut i: usize = 0;
        while i < n
            invariant
                n == self.factores@.len(),
                self.factores@ == old(self).factores@,
                self.terminos_in@ == old(self).terminos_in@,
                i <= n,
                forall|j: int|
                    0 <= j < self.factores@.len() ==> division_calculable(
                        self.terminos_in@,
                        #[trigger] self.factores@[j] as int,
                    ),
                self.resultados@.len() == i,
                forall|j: int|
                    0 <= j < i ==> #[trigger] self.resultados@[j] == (
                        self.factores@[j],
                        evaluacion_sintetica(self.terminos_in@, self.factores@[j] as int),
                    ),
            decreases n - i,
        {
            let r = division_sin(&self.factores[i], &self.terminos_in);
            self.resultados.push(r);
            i = i + 1;
        }
        assert(self.resultados@ =~= old(self).factores@.map_values(
            |f: i32| (f, evaluacion_sintetica(old(self).terminos_in@, f as int)),
        ));
    }

    /// Takes from the terms of `datos` the candidate roots (divisors of the
    /// constant divided by the divisors of the highest power other than
    /// itself) and the coefficients. With no terms, nothing changes.
    pub fn actualizar_datos(&mut self, datos: &Funcion)
        requires
            datos_calculables(datos.ecuaciones@),
        ensures
            datos.ecuaciones@.len() == 0 ==> *final(self) == *old(self),
            datos.ecuaciones@.len() > 0 ==> {
                let s = datos.ecuaciones@;
                let t = if s.last().positivo < 0 {
                    -s.last().positivo
                } else {
                    s.last().positivo as int
                };
                let p = potencia_maxima(s);
                &&& final(self).factores@ == candidatos(divisores(t, t), sin_ultimo(divisores(p, p)))
                &&& p >= 2 ==> forall|d: i32|
                    1 <= d <= t && t % (d as int) == 0 ==> #[trigger] final(self).factores@.contains(d)
                &&& final(self).terminos_in@ == s.map_values(|e: Ecuacion| coeficiente(e))
                &&& final(self).resultados@ == old(self).resultados@
            },
    {
        let n = datos.ecuaciones.len();
        if n == 0 {
            return ;
        }
        let term_in = valor_absoluto(datos.ecuaciones[n - 1].positivo);
        let term_in_factors = get_factors(term_in);
        let mut max: i32 = 0;
        let mut i: usize = 0;
        while i < n
            invariant
                n == datos.ecuaciones@.len(),
                i <= n,
                max == potencia_maxima(datos.ecuaciones@.take(i as int)),
            decreases n - i,
        {
            assert(datos.ecuaciones@.take(i + 1).drop_last() =~= datos.ecuaciones@.take(i as int));
            if datos.ecuaciones[i].potencial > max {
                max = datos.ecuaciones[i].potencial;
            }
            i = i + 1;
        }
        assert(datos.ecuaciones@.take(n as int) =~= datos.ecuaciones@);
        let todos = get_factors(max);
        let mut max_factors = todos;
        max_factors.pop();
        assert(max_factors@ == sin_ultimo(divisores(max as int, max as int)));
        let ghost ds = max_factors@;
        proof {
            lema_divisores_positivos(max as int, max as int);
            lema_divisores_positivos(term_in as int, term_in as int);
        }
        self.factores = Vec::new();
        let nf = term_in_factors.len();
        let nd = max_factors.len();
        let mut a: usize = 0;
        while a < nf
            invariant
                nf == term_in_factors@.len(),
                nd == max_factors@.len(),
                a <= nf,
                forall|j: int| 0 <= j < nf ==> #[trigger] term_in_factors@[j] >= 1,
                forall|j: int| 0 <= j < nd ==> #[trigger] max_factors@[j] >= 1,
                self.factores@ == candidatos(term_in_factors@.take(a as int), max_factors@),
                self.resultados@ == old(self).resultados@,
            decreases nf - a,
        {
            let fac = term_in_factors[a];
            let ghost antes = self.factores@;
            let mut c: usize = 0;
            while c < nd
                invariant
                    nd == max_factors@.len(),
                    c <= nd,
                    fac >= 1,
                    forall|j: int| 0 <= j < nd ==> #[trigger] max_factors@[j] >= 1,
                    self.factores@ == antes + cocientes_de(fac, max_factors@.take(c as int)),
                    self.resultados@ == old(self).resultados@,
                decreases nd - c,
            {
                let max_fac = max_factors[c];
                assert(max_factors@.take(c + 1).drop_last() =~= max_factors@.take(c as int));
                let val = fac % max_fac;
                if val == 0 {
                    self.factores.push(fac / max_fac);
                }
                c = c + 1;
                assert(self.factores@ =~= antes + cocientes_de(fac, max_factors@.take(c as int)));
            }
            assert(max_factors@.take(nd as int) =~= max_factors@);
            assert(term_in_factors@.take(a + 1).drop_last() =~= term_in_factors@.take(a as int));
            a = a + 1;
            assert(self.factores@ =~= candidatos(term_in_factors@.take(a as int), max_factors@));
        }
        assert(term_in_factors@.take(nf as int) =~= term_in_factors@);
        let mut h: Vec<i32> = Vec::new();
        let mut k: usize = 0;
        while k < n
            invariant
                n == datos.ecuaciones@.len(),
                k <= n,
                datos_calculables(datos.ecuaciones@),
                h@.len() == k,
                forall|j: int| 0 <= j < k ==> h@[j] == coeficiente(#[trigger] datos.ecuaciones@[j]),
            decreases n - k,
        {
            let dat = datos.ecuaciones[k];
            assert(dat.positivo != i32::MIN);
            if valor_absoluto(dat.positivo) > 1 {
                h.push(dat.positivo);
            } else {
                h.push(dat.positivo * dat.multiplicacion);
            }
            k = k + 1;
        }
        self.terminos_in = h;
        assert(self.terminos_in@ =~= datos.ecuaciones@.map_values(|e: Ecuacion| coeficiente(e)));
        assert(max == potencia_maxima(datos.ecuaciones@));
        assert(self.factores@ == candidatos(term_in_factors@, max_factors@));
        proof {
            if max >= 2 {
                ley_candidatos_incluyen_divisores(term_in as int, max as int);
            }
        }
    }
}

/// Every divisor listed by `divisores(n, k)` lies in `1..=k`.
pub proof fn lema_divisores_positivos(n: int, k: int)
    requires
        k <= i32::MAX,
    ensures
        forall|j: int|
            0 <= j < divisores(n, k).len() ==> 1 <= #[trigger] divisores(n, k)[j] <= k,
    decreases k,
{
    if k > 0 {
        lema_divisores_positivos(n, k - 1);
        let a = divisores(n, k - 1);
        let c: Seq<i32> = if n % k == 0 { seq![k as i32] } else { Seq::empty() };
        assert forall|j: int| 0 <= j < (a + c).len() implies 1 <= #[trigger] (a + c)[j] <= k by {
            if j >= a.len() {
                assert((a + c)[j] == c[j - a.len()]);
            }
        }
    }
}

/// Whether `division_sin(x, c)` can run without overflow.
pub fn horner_calculable(c: &Vec<i32>, x: i32) -> (r: bool)
    ensures
        r == division_calculable(c@, x as int),
{
    broadcast use crate::lectura::lema_salto;

    let n = c.len();
    if n == 0 {
        return true;
    }
    let mut acc: i64 = c[0] as i64;
    let mut j: usize = 1;
    assert(c@.drop_first() =~= c@.skip(1));
    loop
        invariant
            n == c@.len(),
            1 <= j <= n,
            horner_cabe(c@[0] as int, c@.drop_first(), x as int) == horner_cabe(
                acc as int,
                c@.skip(j as int),
                x as int,
            ),
            en_i32(acc as int),
        decreases n - j,
    {
        proof {
            lema_producto_acotado(x as int, acc as int);
        }
        let prod = x as i64 * acc;
        if prod < i32::MIN as i64 || prod > i32::MAX as i64 {
            return false;
        }
        if j == n {
            assert(c@.skip(j as int).len() == 0);
            return true;
        }
        let suma = c[j] as i64 + prod;
        if suma < i32::MIN as i64 || suma > i32::MAX as i64 {
            return false;
        }
        let ghost r = c@.skip(j as int);
        assert(r[0] == c@[j as int]);
        assert(r.drop_first() == c@.skip(j + 1));
        assert(horner_cabe(acc as int, r, x as int) == horner_cabe(suma as int, r.drop_first(), x as int));
        acc = suma;
        j = j + 1;
    }
}

/// The product of two values of `i32` is far inside `i64`.
pub proof fn lema_producto_acotado(a: int, b: int)
    requires
        en_i32(a),
        en_i32(b),
    ensures
        -0x4000_0000_0000_0000 <= a * b <= 0x4000_0000_0000_0000,
{
    assert(-0x4000_0000_0000_0000 <= a * b <= 0x4000_0000_0000_0000) by (nonlinear_arith)
        requires
            -0x8000_0000 <= a <= 0x7fff_ffff,
            -0x8000_0000 <= b <= 0x7fff_ffff,
    ;
}

/// Whether `obtener_resultados` can run on `d` without overflow.
pub fn resultados_calculables(d: &DivisionSintetica) -> (r: bool)
    ensures
        r == forall|i: int|
            0 <= i < d.factores@.len() ==> division_calculable(
                d.terminos_in@,
                #[trigger] d.factores@[i] as int,
            ),
{
    let n = d.factores.len();
    let mut i: usize = 0;
    while i < n
        invariant
            n == d.factores@.len(),
            i <= n,
            forall|j: int|
                0 <= j < i ==> division_calculable(d.terminos_in@, #[trigger] d.factores@[j] as int),
        decreases n - i,
    {
        if !horner_calculable(&d.terminos_in, d.factores[i]) {
            return false;
        }
        i = i + 1;
    }
    true
}

/// Whether `actualizar_datos` can run on `f` without overflow.
pub fn datos_son_calculables(f: &Funcion) -> (r: bool)
    ensures
        r == datos_calculables(f.ecuaciones@),
{
    let n = f.ecuaciones.len();
    if n == 0 {
        return true;
    }
    let ultimo = f.ecuaciones[n - 1].positivo;
    if !(-i32::MAX < ultimo && ultimo < i32::MAX) {
        return false;
    }
    let mut max: i32 = 0;
    let mut i: usize = 0;
    while i < n
        invariant
            n == f.ecuaciones@.len(),
            i <= n,
            max == potencia_maxima(f.ecuaciones@.take(i as int)),
            forall|j: int|
                0 <= j < i ==> {
                    &&& #[trigger] f.ecuaciones@[j].positivo != i32::MIN
                    &&& f.ecuaciones@[j].es_variable() ==> en_i32(
                        f.ecuaciones@[j].positivo * f.ecuaciones@[j].multiplicacion,
                    )
                },
        decreases n - i,
    {
        assert(f.ecuaciones@.take(i + 1).drop_last() =~= f.ecuaciones@.take(i as int));
        let e = f.ecuaciones[i];
        if e.positivo == i32::MIN {
            return false;
        }
        if -1 <= e.positivo && e.positivo <= 1 {
            proof {
                lema_producto_acotado(e.positivo as int, e.multiplicacion as int);
            }
            let prod = e.positivo as i64 * e.multiplicacion as i64;
            if prod < i32::MIN as i64 || prod > i32::MAX as i64 {
                return false;
            }
        }
        if e.potencial > max {
            max = e.potencial;
        }
        i = i + 1;
    }
    assert(f.ecuaciones@.take(n as int) =~= f.ecuaciones@);
    max < i32::MAX
}

/// The value at `x` of the polynomial with coefficients `c`, highest power
/// first: the sum of `c[i] * x^(len - 1 - i)`.
pub open spec fn valor_polinomio(c: Seq<i32>, x: int) -> int
    decreases c.len(),
{
    if c.len() == 0 {
        0
    } else {
        c[0] * pow(x, (c.len() - 1) as nat) + valor_polinomio(c.drop_first(), x)
    }
}

proof fn lema_horner(acc: int, resto: Seq<i32>, x: int)
    ensures
        horner_desde(acc, resto, x) == acc * pow(x, resto.len()) + valor_polinomio(resto, x),
    decreases resto.len(),
{
    vstd::arithmetic::power::lemma_pow0(x);
    if resto.len() > 0 {
        let r = resto.drop_first();
        lema_horner(resto[0] + x * acc, r, x);
        let p = pow(x, r.len());
        assert(pow(x, resto.len()) == x * p) by {
            reveal(pow);
        }
        assert((resto[0] + x * acc) * p == resto[0] * p + acc * (x * p)) by (nonlinear_arith);
    }
}

/// Synthetic division by `x - x0` leaves as remainder the value of the
/// polynomial at `x0`: Horner's scheme over the coefficients `c` (highest
/// power first) gives the sum of `c[i] * x0^(len - 1 - i)`. In particular the
/// remainder is zero exactly when `x0` is a root.
pub proof fn ley_division_es_valor(c: Seq<i32>, x0: int)
    requires
        c.len() > 0,
    ensures
        horner_desde(c[0] as int, c.drop_first(), x0) == valor_polinomio(c, x0),
{
    lema_horner(c[0] as int, c.drop_first(), x0);
}

proof fn lema_divisores_hasta(n: int, k: int)
    requires
        k <= n <= i32::MAX,
    ensures
        forall|j: int|
            0 <= j < divisores(n, k).len() ==> 1 <= #[trigger] divisores(n, k)[j] <= k && n % (
            divisores(n, k)[j] as int) == 0,
        forall|x: i32| 1 <= x <= k && n % (x as int) == 0 ==> #[trigger] divisores(n, k).contains(x),
        forall|i: int, j: int|
            0 <= i < j < divisores(n, k).len() ==> divisores(n, k)[i] < divisores(n, k)[j],
    decreases k,
{
    if k > 0 {
        lema_divisores_hasta(n, k - 1);
        let a = divisores(n, k - 1);
        let c: Seq<i32> = if n % k == 0 { seq![k as i32] } else { Seq::empty() };
        let d = a + c;
        assert(divisores(n, k) == d);
        assert forall|j: int| 0 <= j < d.len() implies 1 <= #[trigger] d[j] <= k && n % (
        d[j] as int) == 0 by {
            if j >= a.len() {
                assert(d[j] == c[j - a.len()]);
            } else {
                assert(d[j] == a[j]);
            }
        }
        assert forall|x: i32| 1 <= x <= k && n % (x as int) == 0 implies #[trigger] d.contains(x) by {
            if x < k {
                assert(a.contains(x));
                let w = choose|w: int| 0 <= w < a.len() && a[w] == x;
                assert(d[w] == a[w]);
            } else {
                assert(d[a.len() as int] == c[0]);
            }
        }
        assert forall|i: int, j: int| 0 <= i < j < d.len() implies d[i] < d[j] by {
            if j >= a.len() {
                assert(d[j] == k as i32);
                assert(d[i] == a[i]);
            } else {
                assert(d[i] == a[i] && d[j] == a[j]);
            }
        }
    }
}

/// `get_factors(n)` lists exactly the divisors of `n` between `1` and `n`,
/// each once, in increasing order.
pub proof fn ley_divisores(n: int)
    requires
        n <= i32::MAX,
    ensures
        forall|j: int|
            0 <= j < divisores(n, n).len() ==> 1 <= #[trigger] divisores(n, n)[j] <= n && n % (
            divisores(n, n)[j] as int) == 0,
        forall|x: i32| 1 <= x <= n && n % (x as int) == 0 ==> #[trigger] divisores(n, n).contains(x),
        forall|i: int, j: int|
            0 <= i < j < divisores(n, n).len() ==> divisores(n, n)[i] < divisores(n, n)[j],
{
    lema_divisores_hasta(n, n);
}

/// Synthetic division leaves the value of the polynomial: for coefficients
/// `c` (highest power first) and a point `x`, the result is `None` with no
/// coefficients and otherwise the sum of `c[i] * x^(len - 1 - i)`.
pub proof fn ley_evaluacion_sintetica(c: Seq<i32>, x: int)
    ensures
        c.len() == 0 ==> evaluacion_sintetica(c, x) is None,
        c.len() > 0 ==> evaluacion_sintetica(c, x) == Some(valor_polinomio(c, x) as i32),
        c.len() > 0 && division_calculable(c, x) ==> en_i32(valor_polinomio(c, x)),
{
    if c.len() > 0 {
        lema_horner(c[0] as int, c.drop_first(), x);
        assert(valor_polinomio(c, x) == c[0] * pow(x, (c.len() - 1) as nat) + valor_polinomio(
            c.drop_first(),
            x,
        ));
        if division_calculable(c, x) {
            lema_horner_en_i32(c[0] as int, c.drop_first(), x);
        }
    }
}

/// The divisors of `p` that `actualizar_datos` divides by are exactly the
/// divisors of `p` below `p` itself, each once, in increasing order.
pub proof fn ley_divisores_propios(p: int)
    requires
        p <= i32::MAX,
    ensures
        forall|x: i32|
            #[trigger] sin_ultimo(divisores(p, p)).contains(x) <==> 1 <= x < p && p % (x as int)
                == 0,
        forall|i: int, j: int|
            0 <= i < j < sin_ultimo(divisores(p, p)).len() ==> sin_ultimo(divisores(p, p))[i]
                < sin_ultimo(divisores(p, p))[j],
{
    if p >= 1 {
        assert(p % p == 0);
        assert(divisores(p, p) == divisores(p, p - 1) + seq![p as i32]);
        assert(sin_ultimo(divisores(p, p)) =~= divisores(p, p - 1));
        lema_divisores_hasta(p, p - 1);
        assert forall|x: i32| #[trigger] sin_ultimo(divisores(p, p)).contains(x) implies 1 <= x < p
            && p % (x as int) == 0 by {
            let w = choose|w: int|
                0 <= w < divisores(p, p - 1).len() && #[trigger] divisores(p, p - 1)[w] == x;
        }
    } else {
        assert(divisores(p, p) =~= Seq::<i32>::empty());
    }
}

proof fn lema_cocientes_uno(f: i32, ds: Seq<i32>)
    requires
        ds.len() > 0,
        ds[0] == 1,
    ensures
        cocientes_de(f, ds).contains(f),
    decreases ds.len(),
{
    if ds.len() == 1 {
        assert(ds.last() == 1);
        assert(f % 1i32 == 0);
        assert(cocientes_de(f, ds) =~= cocientes_de(f, ds.drop_last()) + seq![f]);
        assert(cocientes_de(f, ds)[cocientes_de(f, ds.drop_last()).len() as int] == f);
    } else {
        lema_cocientes_uno(f, ds.drop_last());
        let a = cocientes_de(f, ds.drop_last());
        let w = choose|w: int| 0 <= w < a.len() && a[w] == f;
        assert(cocientes_de(f, ds)[w] == a[w]);
    }
}

proof fn lema_candidatos_contienen(fs: Seq<i32>, ds: Seq<i32>, i: int, x: i32)
    requires
        0 <= i < fs.len(),
        cocientes_de(fs[i], ds).contains(x),
    ensures
        candidatos(fs, ds).contains(x),
    decreases fs.len(),
{
    let a = candidatos(fs.drop_last(), ds);
    let c = cocientes_de(fs.last(), ds);
    assert(candidatos(fs, ds) == a + c);
    if i == fs.len() - 1 {
        let w = choose|w: int| 0 <= w < c.len() && c[w] == x;
        assert((a + c)[a.len() + w] == c[w]);
    } else {
        assert(fs.drop_last()[i] == fs[i]);
        lema_candidatos_contienen(fs.drop_last(), ds, i, x);
        let w = choose|w: int| 0 <= w < a.len() && a[w] == x;
        assert((a + c)[w] == a[w]);
    }
}

/// Where the highest power `p` is at least 2 (so that `1` is one of its
/// divisors below it), every divisor of the constant `t` is a candidate root.
pub proof fn ley_candidatos_incluyen_divisores(t: int, p: int)
    requires
        t <= i32::MAX,
        2 <= p <= i32::MAX,
    ensures
        forall|d: i32|
            1 <= d <= t && t % (d as int) == 0 ==> #[trigger] candidatos(
                divisores(t, t),
                sin_ultimo(divisores(p, p)),
            ).contains(d),
{
    let ds = sin_ultimo(divisores(p, p));
    ley_divisores_propios(p);
    lema_divisores_hasta(p, p);
    assert(ds.contains(1i32));
    let w = choose|w: int| 0 <= w < ds.len() && ds[w] == 1i32;
    assert(ds[0] == 1i32) by {
        if w > 0 {
            assert(ds[0] < ds[w]) by {
                assert(ds[0] == divisores(p, p)[0]);
                assert(ds[w] == divisores(p, p)[w]);
            }
            assert(ds.contains(ds[0]));
        }
    }
    lema_divisores_hasta(t, t);
    assert forall|d: i32| 1 <= d <= t && t % (d as int) == 0 implies #[trigger] candidatos(
        divisores(t, t),
        ds,
    ).contains(d) by {
        assert(divisores(t, t).contains(d));
        let i = choose|i: int| 0 <= i < divisores(t, t).len() && divisores(t, t)[i] == d;
        lema_cocientes_uno(d, ds);
        lema_candidatos_contienen(divisores(t, t), ds, i, d);
    }
}

/// The coefficient that synthetic division uses for a term is the term's
/// value at `x = 1`: `positivo * multiplicacion` for a term in `x`, the value
/// of a constant.
pub proof fn ley_coeficiente(e: Ecuacion)
    requires
        -1 <= e.positivo <= 1 ==> en_i32(e.positivo * e.multiplicacion),
    ensures
        coeficiente(e) as int == valor_termino(e, 1),
{
    vstd::arithmetic::power::lemma1_pow(e.potencial as nat);
    if -1 <= e.positivo <= 1 {
        assert(e.positivo * e.multiplicacion * 1 == e.positivo * e.multiplicacion);
    }
}

/// `potencia_maxima(s)` is the largest power among the terms, or `0` where
/// none is positive: no term has a larger power, and it is `0` or the power
/// of some term.
pub proof fn ley_potencia_maxima(s: Seq<Ecuacion>)
    ensures
        potencia_maxima(s) >= 0,
        forall|i: int| 0 <= i < s.len() ==> (#[trigger] s[i]).potencial <= potencia_maxima(s),
        potencia_maxima(s) == 0 || exists|i: int|
            0 <= i < s.len() && (#[trigger] s[i]).potencial == potencia_maxima(s),
    decreases s.len(),
{
    if s.len() > 0 {
        let r = s.drop_last();
        ley_potencia_maxima(r);
        assert forall|i: int| 0 <= i < s.len() implies (#[trigger] s[i]).potencial
            <= potencia_maxima(s) by {
            if i < r.len() {
                assert(s[i] == r[i]);
            }
        }
        if potencia_maxima(s) != 0 {
            if s.last().potencial > potencia_maxima(r) {
                assert(s[s.len() - 1].potencial == potencia_maxima(s));
            } else {
                let i = choose|i: int| 0 <= i < r.len() && (#[trigger] r[i]).potencial == potencia_maxima(r);
                assert(s[i] == r[i]);
            }
        }
    }
}

/// `x` is `f / q` for some `f` of `fs` and some `q` of `ds` that divides `f`
/// exactly.
pub open spec fn es_cociente(x: i32, fs: Seq<i32>, ds: Seq<i32>) -> bool {
    exists|i: int, j: int|
        #![trigger fs[i], ds[j]]
        0 <= i < fs.len() && 0 <= j < ds.len() && (fs[i] as int) % (ds[j] as int) == 0 && x as int
            * ds[j] == fs[i] as int
}

/// Every candidate root is a quotient `f / q` of some `f` of `fs` by some
/// `q` of `ds` that divides it exactly.
pub proof fn ley_candidatos_son_cocientes(fs: Seq<i32>, ds: Seq<i32>)
    requires
        forall|j: int| 0 <= j < ds.len() ==> #[trigger] ds[j] >= 1,
        forall|i: int| 0 <= i < fs.len() ==> #[trigger] fs[i] >= 1,
    ensures
        forall|w: int|
            0 <= w < candidatos(fs, ds).len() ==> es_cociente(#[trigger] candidatos(fs, ds)[w], fs, ds),
    decreases fs.len(),
{
    if fs.len() > 0 {
        let fr = fs.drop_last();
        ley_candidatos_son_cocientes(fr, ds);
        let a = candidatos(fr, ds);
        let c = cocientes_de(fs.last(), ds);
        assert(fs.last() == fs[fs.len() - 1]);
        lema_cocientes_son(fs.last(), ds);
        assert(candidatos(fs, ds) == a + c);
        assert forall|w: int| 0 <= w < candidatos(fs, ds).len() implies es_cociente(
            #[trigger] candidatos(fs, ds)[w],
            fs,
            ds,
        ) by {
            if w < a.len() {
                assert(candidatos(fs, ds)[w] == a[w]);
                assert(es_cociente(a[w], fr, ds));
                let (i, j) = choose|i: int, j: int|
                    #![trigger fr[i], ds[j]]
                    0 <= i < fr.len() && 0 <= j < ds.len() && (fr[i] as int) % (ds[j] as int) == 0
                        && a[w] as int * ds[j] == fr[i] as int;
                assert(fs[i] == fr[i]);
            } else {
                let x = c[w - a.len()];
                assert(candidatos(fs, ds)[w] == x);
                assert(es_cociente(x, seq![fs.last()], ds));
                let (i, j) = choose|i: int, j: int|
                    #![trigger seq![fs.last()][i], ds[j]]
                    0 <= i < 1 && 0 <= j < ds.len() && (seq![fs.last()][i] as int) % (ds[j] as int)
                        == 0 && x as int * ds[j] == seq![fs.last()][i] as int;
                assert(fs[fs.len() - 1] == seq![fs.last()][i]);
            }
        }
    }
}

proof fn lema_cocientes_son(f: i32, ds: Seq<i32>)
    requires
        forall|j: int| 0 <= j < ds.len() ==> #[trigger] ds[j] >= 1,
        f >= 1,
    ensures
        forall|w: int|
            0 <= w < cocientes_de(f, ds).len() ==> es_cociente(
                #[trigger] cocientes_de(f, ds)[w],
                seq![f],
                ds,
            ),
    decreases ds.len(),
{
    if ds.len() > 0 {
        let dr = ds.drop_last();
        lema_cocientes_son(f, dr);
        let a = cocientes_de(f, dr);
        let q = ds.last();
        assert(q == ds[ds.len() - 1]);
        assert(q >= 1);
        assert forall|w: int| 0 <= w < cocientes_de(f, ds).len() implies es_cociente(
            #[trigger] cocientes_de(f, ds)[w],
            seq![f],
            ds,
        ) by {
            if w < a.len() {
                assert(cocientes_de(f, ds)[w] == a[w]);
                assert(es_cociente(a[w], seq![f], dr));
                let (i, j) = choose|i: int, j: int|
                    #![trigger seq![f][i], dr[j]]
                    0 <= i < 1 && 0 <= j < dr.len() && (seq![f][i] as int) % (dr[j] as int) == 0
                        && a[w] as int * dr[j] == seq![f][i] as int;
                assert(ds[j] == dr[j]);
            } else {
                assert(f % q == 0);
                assert(cocientes_de(f, ds)[w] == (f / q) as i32);
                assert((f as int) / (q as int) * (q as int) == f as int) by (nonlinear_arith)
                    requires
                        (f as int) % (q as int) == 0,
                        q >= 1,
                ;
                assert(0 <= (f as int) / (q as int) <= f) by (nonlinear_arith)
                    requires
                        q >= 1,
                        f >= 1,
                ;
                assert(seq![f][0] == f);
                assert(cocientes_de(f, ds)[w] as int * ds[ds.len() - 1] == seq![f][0] as int);
            }
        }
    }
}

} // verus!
