use vstd::prelude::*;
use vstd::string::StringSliceAdditionalSpecFns;
use vstd::utf8::{encode_utf8, encode_scalar, is_char_boundary};

verus! {

broadcast use vstd::string::axiom_spec_iter, vstd::string::next_postcondition,
    vstd::utf8::encode_utf8_valid_utf8, vstd::utf8::encode_utf8_decode_utf8;

/// How many positive and how many negative roots a polynomial may have.
#[derive(Debug, Clone, Copy, PartialEq, Eq, Structural)]
pub struct Raices {
    pub positivas: i32,
    pub negativas: i32,
}

/// The text that is handed to the root counter: `None` for an empty text,
/// the text without its leading `+` where it starts with one, else the text
/// as it is.
pub fn cadena_para_conteo(funcion: &str) -> (r: Option<&str>)
    ensures
        funcion@.len() == 0 ==> r is None,
        funcion@.len() > 0 && funcion@[0] == '+' ==> r is Some && r->0@ == funcion@.drop_first(),
        funcion@.len() > 0 && funcion@[0] != '+' ==> r is Some && r->0@ == funcion@,
{
    let mut chars = funcion.chars();
    let first = match chars.next() {
        Some(c) => c,
        None => {
            return None;
        },
    };
    if first == '+' {
        proof {
            let cs = funcion@;
            let b = funcion.spec_bytes();
            vstd::utf8::encode_utf8_first_scalar(cs);
            assert(43u32 & 0x7F == 43) by (bit_vector);
            assert(encode_scalar(cs[0] as u32) =~= seq![43u8]);
            assert(b =~= seq![43u8] + encode_utf8(cs.drop_first()));
            assert(is_char_boundary(b.subrange(1, b.len() as int), 0));
            assert(is_char_boundary(b, 1));
        }
        let (_, c) = funcion.split_at(1);
        proof {
            let cs = funcion@;
            let b = funcion.spec_bytes();
            assert(c.spec_bytes() =~= encode_utf8(cs.drop_first()));
            assert(vstd::utf8::decode_utf8(encode_utf8(c@)) == vstd::utf8::decode_utf8(
                encode_utf8(cs.drop_first()),
            ));
        }
        Some(c)
    } else {
        Some(funcion)
    }
}

} // verus!
