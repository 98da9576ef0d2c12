# raices

A small program that reads a polynomial typed as text (`+1x^3-6x^2+11x^1-6`),
plots it and looks for its roots.

- `src/` is the verified library (Verus):
  - `funcion`: terms and polynomials, the derivative by the power rule;
  - `lectura`: reading numbers and whole polynomials from text;
  - `canonica`: how a polynomial is written, and the proof that reading the
    written text gives its terms back;
  - `division`: divisors, candidate roots and synthetic division (Horner);
  - `presentacion`: which characters of the text are shown raised;
  - `raices`: the root counts and the text handed to the root counter.
- `app/` is the window (eframe/egui), the floating-point methods (plot,
  bisection, Newton-Raphson) and the call into the C root counter.
- `tests/` runs the library on concrete inputs.
