use vstd::prelude::*;
use std::str::Chars;
use vstd::std_specs::iter::IteratorSpec;
use vstd::string::StringSliceAdditionalSpecFns;
use crate::lectura::contiene_circunflejo;

verus! {

broadcast use vstd::string::axiom_spec_iter, vstd::string::next_postcondition;

/// Whether raised text stops being raised at `c`: a sign ends an exponent.
pub open spec fn sigue_elevado(elevado: bool, c: char) -> bool {
    elevado && !(c == '+' || c == '-')
}

/// The pieces of display for the characters `cs` when the text starts raised
/// (`elevado`) or not: each character with `true` where it is shown raised.
/// A `^` outside an exponent is not shown and raises what follows; a sign
/// lowers the text again.
pub open spec fn piezas(cs: Seq<char>, elevado: bool) -> Seq<(char, bool)>
    decreases cs.len(),
{
    if cs.len() == 0 {
        Seq::empty()
    } else {
        let c = cs[0];
        let e = sigue_elevado(elevado, c);
        if !e && c == '^' {
            piezas(cs.drop_first(), true)
        } else {
            seq![(c, e)] + piezas(cs.drop_first(), e)
        }
    }
}

/// Whether the text is raised after the characters `cs`.
pub open spec fn elevado_al_final(cs: Seq<char>, elevado: bool) -> bool
    decreases cs.len(),
{
    if cs.len() == 0 {
        elevado
    } else {
        let c = cs[0];
        let e = sigue_elevado(elevado, c);
        elevado_al_final(cs.drop_first(), !e && c == '^' || e)
    }
}

/// Appends to `job` the display pieces of the characters left in `s`,
/// starting raised where `upper` is set, and leaves in `upper` whether the
/// text ends raised.
pub fn recursive_append(s: &mut Chars, upper: &mut bool, job: &mut Vec<(char, bool)>)
    requires
        (*old(s)).decrease() is Some,
    ensures
        final(job)@ == old(job)@ + piezas((*old(s)).remaining(), *old(upper)),
        *final(upper) == elevado_al_final((*old(s)).remaining(), *old(upper)),
        (*final(s)).remaining().len() == 0,
        bien_presentado(
            (*old(s)).remaining(),
            final(job)@.subrange(old(job)@.len() as int, final(job)@.len() as int),
        ),
    decreases (*old(s)).decrease()->0,
{
    proof {
        ley_presentacion((*old(s)).remaining(), *old(upper));
    }
    let element = s.next();
    let c = match element {
        Some(val) => val,
        None => {
            assert(job@ =~= old(job)@ + Seq::<(char, bool)>::empty());
            assert(job@.subrange(old(job)@.len() as int, job@.len() as int) =~= piezas(
                (*old(s)).remaining(),
                *old(upper),
            ));
            return ;
        },
    };
    if *upper && (c == '+' || c == '-') {
        *upper = false;
    }
    if !*upper {
        if c == '^' {
            *upper = true;
        } else {
            job.push((c, false));
        }
    } else {
        job.push((c, true));
    }
    recursive_append(s, upper, job);
    proof {
        assert(job@ =~= old(job)@ + piezas((*old(s)).remaining(), *old(upper)));
        assert(job@.subrange(old(job)@.len() as int, job@.len() as int) =~= piezas(
            (*old(s)).remaining(),
            *old(upper),
        ));
    }
}

/// Appends every character left in `s` as an unraised piece.
fn anexar_sin_elevar(s: &mut Chars, job: &mut Vec<(char, bool)>)
    requires
        (*old(s)).decrease() is Some,
    ensures
        final(job)@ == old(job)@ + (*old(s)).remaining().map_values(|c: char| (c, false)),
    decreases (*old(s)).decrease()->0,
{
    match s.next() {
        Some(c) => {
            job.push((c, false));
            anexar_sin_elevar(s, job);
            assert(job@ =~= old(job)@ + (*old(s)).remaining().map_values(|c: char| (c, false)));
        },
        None => {
            assert(job@ =~= old(job)@ + (*old(s)).remaining().map_values(|c: char| (c, false)));
        },
    }
}

/// The display pieces of the polynomial text `s`, after the heading `Y= `:
/// with exponents raised where the text holds a `^`, else all unraised.
pub fn func_to_gui(s: &str) -> (job: Vec<(char, bool)>)
    ensures
        job@ == seq![('Y', false), ('=', false), (' ', false)] + if contiene_circunflejo(
            s.spec_bytes(),
            0,
        ) {
            piezas(s@, false)
        } else {
            s@.map_values(|c: char| (c, false))
        },
{
    let mut job: Vec<(char, bool)> = Vec::new();
    job.push(('Y', false));
    job.push(('=', false));
    job.push((' ', false));
    let bytes = s.as_bytes();
    let mut tiene = false;
    let mut j: usize = 0;
    while j < bytes.len()
        invariant
            bytes@ == s.spec_bytes(),
            j <= bytes@.len(),
            tiene == (exists|t: int| 0 <= t < j && bytes@[t] == 94),
        decreases bytes.len() - j,
    {
        if bytes[j] == 94 {
            tiene = true;
        }
        j = j + 1;
    }
    let mut ss = s.chars();
    if tiene {
        let mut bo = false;
        recursive_append(&mut ss, &mut bo, &mut job);
    } else {
        anexar_sin_elevar(&mut ss, &mut job);
    }
    job
}

/// The characters `cs` without their `^`.
pub open spec fn sin_circunflejos(cs: Seq<char>) -> Seq<char>
    decreases cs.len(),
{
    if cs.len() == 0 {
        Seq::empty()
    } else {
        (if cs[0] == '^' {
            Seq::empty()
        } else {
            seq![cs[0]]
        }) + sin_circunflejos(cs.drop_first())
    }
}

/// The display pieces `ps` of the characters `cs` are right: a sign is never
/// shown raised, a `^` is shown only inside an exponent (so a `^` that starts
/// one is not shown), and apart from `^` every character of `cs` is shown,
/// in order.
pub open spec fn bien_presentado(cs: Seq<char>, ps: Seq<(char, bool)>) -> bool {
    &&& forall|i: int|
        0 <= i < ps.len() ==> ((#[trigger] ps[i]).0 == '+' || ps[i].0 == '-') ==> !ps[i].1
    &&& forall|i: int| 0 <= i < ps.len() ==> (#[trigger] ps[i]).0 == '^' ==> ps[i].1
    &&& sin_circunflejos(ps.map_values(|p: (char, bool)| p.0)) == sin_circunflejos(cs)
}

/// Showing text with raised exponents never raises a sign, never shows the
/// `^` that starts an exponent, and keeps every other character in order,
/// whether the text starts raised or not.
pub proof fn ley_presentacion(cs: Seq<char>, elevado: bool)
    ensures
        bien_presentado(cs, piezas(cs, elevado)),
    decreases cs.len(),
{
    let ps = piezas(cs, elevado);
    if cs.len() == 0 {
        assert(ps.map_values(|p: (char, bool)| p.0) =~= Seq::<char>::empty());
    } else {
        let c = cs[0];
        let e = sigue_elevado(elevado, c);
        let r = cs.drop_first();
        if !e && c == '^' {
            ley_presentacion(r, true);
        } else {
            ley_presentacion(r, e);
            let rs = piezas(r, e);
            assert(ps == seq![(c, e)] + rs);
            assert forall|i: int| 0 <= i < ps.len() implies ((#[trigger] ps[i]).0 == '+' || ps[i].0
                == '-') ==> !ps[i].1 by {
                if i > 0 {
                    assert(ps[i] == rs[i - 1]);
                }
            }
            assert forall|i: int| 0 <= i < ps.len() implies (#[trigger] ps[i]).0 == '^' ==> ps[i].1 by {
                if i > 0 {
                    assert(ps[i] == rs[i - 1]);
                }
            }
            let m = ps.map_values(|p: (char, bool)| p.0);
            let mr = rs.map_values(|p: (char, bool)| p.0);
            assert(m =~= seq![c] + mr);
            assert(m[0] == c);
            assert(m.drop_first() =~= mr);
        }
    }
}

/// Whether the text ends raised is decided by its last character: a sign
/// leaves it lowered, a `^` leaves it raised, any other character leaves it
/// as it was; with no characters it stays as it started.
pub proof fn ley_elevado_al_final(cs: Seq<char>, elevado: bool, c: char)
    ensures
        elevado_al_final(Seq::empty(), elevado) == elevado,
        (c == '+' || c == '-') ==> !elevado_al_final(cs.push(c), elevado),
        c == '^' ==> elevado_al_final(cs.push(c), elevado),
        !(c == '+' || c == '-' || c == '^') ==> elevado_al_final(cs.push(c), elevado)
            == elevado_al_final(cs, elevado),
    decreases cs.len(),
{
    if cs.len() == 0 {
        assert(cs.push(c) =~= seq![c]);
        assert(seq![c].drop_first() =~= Seq::<char>::empty());
        let e = sigue_elevado(elevado, c);
        let u = !e && c == '^' || e;
        assert(elevado_al_final(seq![c], elevado) == elevado_al_final(Seq::<char>::empty(), u));
    } else {
        let x = cs[0];
        let e = sigue_elevado(elevado, x);
        let u = !e && x == '^' || e;
        ley_elevado_al_final(cs.drop_first(), u, c);
        assert(cs.push(c).drop_first() =~= cs.drop_first().push(c));
        assert(cs.push(c)[0] == x);
        assert(elevado_al_final(cs.push(c), elevado) == elevado_al_final(cs.push(c).drop_first(), u));
        assert(elevado_al_final(cs, elevado) == elevado_al_final(cs.drop_first(), u));
    }
}

/// What one character shows: a sign shows lowered, a `^` shows nothing when
/// the text is lowered and shows raised inside an exponent, and any other
/// character shows as the text stands.
pub proof fn ley_pieza_de_un_caracter(c: char, elevado: bool)
    ensures
        (c == '+' || c == '-') ==> piezas(seq![c], elevado) == seq![(c, false)],
        (c == '^' && !elevado) ==> piezas(seq![c], elevado) == Seq::<(char, bool)>::empty(),
        (c == '^' && elevado) ==> piezas(seq![c], elevado) == seq![(c, true)],
        !(c == '+' || c == '-' || c == '^') ==> piezas(seq![c], elevado) == seq![(c, elevado)],
{
    assert(seq![c].drop_first() =~= Seq::<char>::empty());
    let e = sigue_elevado(elevado, c);
    assert(piezas(Seq::<char>::empty(), e) == Seq::<(char, bool)>::empty());
    assert(piezas(Seq::<char>::empty(), true) == Seq::<(char, bool)>::empty());
    assert(seq![(c, e)] + Seq::<(char, bool)>::empty() =~= seq![(c, e)]);
}

/// Showing `cs` followed by `ds` shows `cs`, then `ds` from where `cs` left
/// the text, raised or not.
pub proof fn ley_piezas_concatenadas(cs: Seq<char>, ds: Seq<char>, elevado: bool)
    ensures
        piezas(cs + ds, elevado) == piezas(cs, elevado) + piezas(ds, elevado_al_final(cs, elevado)),
    decreases cs.len(),
{
    if cs.len() == 0 {
        assert(cs + ds =~= ds);
        assert(piezas(cs, elevado) + piezas(ds, elevado) =~= piezas(ds, elevado));
    } else {
        let c = cs[0];
        let e = sigue_elevado(elevado, c);
        let r = cs.drop_first();
        assert((cs + ds)[0] == c);
        assert((cs + ds).drop_first() =~= r + ds);
        if !e && c == '^' {
            ley_piezas_concatenadas(r, ds, true);
        } else {
            ley_piezas_concatenadas(r, ds, e);
            assert(piezas(cs + ds, elevado) == seq![(c, e)] + piezas(r + ds, e));
            assert(seq![(c, e)] + (piezas(r, e) + piezas(ds, elevado_al_final(r, e))) =~= (seq![
                (c, e),
            ] + piezas(r, e)) + piezas(ds, elevado_al_final(r, e)));
        }
    }
}

} // verus!
