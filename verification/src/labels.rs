//! Short names for indices: `a`..`z` for the first 26, then a prefix letter and the
//! decimal index.
use vstd::prelude::*;
use crate::text::{decimal, decimal_string};

verus! {

/// The lowercase letter of `index < 26`.
pub open spec fn letter(index: nat) -> char {
    ((97 + index) as u8) as char
}

/// `a`..`z` for indices below 26, otherwise `prefix` followed by the decimal index.
pub open spec fn index_label(prefix: char, index: nat) -> Seq<char> {
    if index < 26 {
        seq![letter(index)]
    } else {
        seq![prefix] + decimal(index)
    }
}

pub fn label_for_index(prefix: char, index: usize) -> (r: String)
    ensures
        r@ == index_label(prefix, index as nat),
{
    let mut out = String::new();
    if index < 26 {
        let code: u8 = 97 + (index as u8);
        out.push(code as char);
    } else {
        out.push(prefix);
        crate::text::push_decimal(index, &mut out);
        proof {
            assert(Seq::<char>::empty().push(prefix) + decimal(index as nat) == seq![prefix]
                + decimal(index as nat));
        }
    }
    out
}

} // verus!
