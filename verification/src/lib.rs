//! Reading, differentiating and testing integer polynomials written as text
//! such as `+1x^3-6x^2+11x^1-6`.

pub mod funcion;
pub mod lectura;
pub mod division;
pub mod raices;
pub mod presentacion;
pub mod canonica;
