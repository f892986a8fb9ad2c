//! Choosing the network interface: by default, by number, or by name.
//!
//! Names are resolved by the platform. The caller passes that facility in;
//! what is asked of it, and what is made of its answer, is decided here.

use crate::endpoint::DEFAULT_INTERFACE;
use crate::text::{chars_of, dec_digit, decimal_value, is_dec_digit, is_decimal};
use vstd::prelude::*;

verus! {

/// A network interface by index. Index zero leaves the choice to the system.
#[derive(Clone, Copy, Debug, PartialEq, Eq, Structural)]
pub struct InterfaceRef {
    pub index: u32,
}

impl InterfaceRef {
    /// Whether the choice of interface is left to the system.
    pub open spec fn is_default_spec(self) -> bool {
        self.index == DEFAULT_INTERFACE
    }

    /// Whether the choice of interface is left to the system.
    pub fn is_default(&self) -> (b: bool)
        ensures
            b == self.is_default_spec(),
    {
        self.index == DEFAULT_INTERFACE
    }
}

/// No interface goes by the given name.
#[derive(Debug)]
pub struct InterfaceNotFound {
    /// The name as it was given.
    pub name: String,
}

/// The index that `s` writes out, if `s` is a number: ASCII digits, with or
/// without a plus sign in front, of a value that fits in 32 bits.
pub open spec fn literal_index_spec(s: Seq<char>) -> Option<u32> {
    let digits = if s.len() > 0 && s[0] == '+' {
        s.skip(1)
    } else {
        s
    };
    if is_decimal(digits) && decimal_value(digits) <= u32::MAX {
        Some(decimal_value(digits) as u32)
    } else {
        None
    }
}

/// Reads `text` as an interface index, if it is a number.
pub fn literal_index(text: &str) -> (r: Option<u32>)
    ensures
        r == literal_index_spec(text@),
{
    let chars = chars_of(text);
    let start: usize = if chars.len() > 0 && chars[0] == '+' {
        1
    } else {
        0
    };
    let ghost digits = chars@.skip(start as int);
    proof {
        if start == 0 {
            assert(digits =~= text@);
        }
    }
    assert(digits == if text@.len() > 0 && text@[0] == '+' {
        text@.skip(1)
    } else {
        text@
    });
    if chars.len() == start {
        return None;
    }
    let mut value: u64 = 0;
    let mut fits = true;
    let mut i: usize = start;
    while i < chars.len()
        invariant
            start <= i <= chars@.len(),
            digits == chars@.skip(start as int),
            digits == if text@.len() > 0 && text@[0] == '+' {
                text@.skip(1)
            } else {
                text@
            },
            forall|j: int| 0 <= j < i - start ==> is_dec_digit(#[trigger] digits[j]),
            fits ==> value == decimal_value(digits.take(i - start)) && value <= u32::MAX,
            !fits ==> decimal_value(digits.take(i - start)) > u32::MAX,
        decreases chars@.len() - i,
    {
        let ghost before = digits.take(i - start);
        let ghost upto = digits.take(i - start + 1);
        assert(upto.drop_last() =~= before);
        assert(upto.last() == chars@[i as int]);
        match dec_digit(chars[i]) {
            None => {
                assert(!is_dec_digit(digits[i - start]));
                return None;
            },
            Some(d) => {
                if fits {
                    value = value * 10 + d as u64;
                    if value > 0xffff_ffff {
                        fits = false;
                    }
                }
            },
        }
        i = i + 1;
    }
    assert(digits.take(i - start) =~= digits);
    if fits {
        Some(value as u32)
    } else {
        None
    }
}

/// What the platform's answer for a name amounts to: an answer of zero, or
/// none, means that no interface goes by that name.
pub open spec fn named_index_spec(found: Option<u32>) -> Option<InterfaceRef> {
    match found {
        Some(index) => if index == 0 {
            None
        } else {
            Some(InterfaceRef { index })
        },
        None => None,
    }
}

/// Makes an interface of the platform's answer for `name`.
pub fn resolve_named(name: &str, found: Option<u32>) -> (r: Result<InterfaceRef, InterfaceNotFound>)
    ensures
        match r {
            Ok(interface) => named_index_spec(found) == Some(interface),
            Err(e) => named_index_spec(found) is None && e.name@ == name@,
        },
{
    match found {
        Some(index) => {
            if index == 0 {
                Err(InterfaceNotFound { name: name.to_owned() })
            } else {
                Ok(InterfaceRef { index })
            }
        },
        None => Err(InterfaceNotFound { name: name.to_owned() }),
    }
}

/// Resolves the interface that was asked for. Nothing asked for gives the
/// default. A number is taken at its word, whatever interfaces exist, and
/// `lookup` is not consulted. Anything else is a name: `lookup` is asked for
/// it once, and its answer decides (see [`resolve_named`]).
pub fn parse_iface<F: Fn(&str) -> Option<u32>>(iface: &Option<String>, lookup: F) -> (r: Result<
    InterfaceRef,
    InterfaceNotFound,
>)
    requires
        forall|name: &str| #[trigger] lookup.requires((name,)),
    ensures
        iface is None ==> r == Ok::<InterfaceRef, InterfaceNotFound>(
            InterfaceRef { index: DEFAULT_INTERFACE },
        ),
        iface matches Some(s) ==> match literal_index_spec(s@) {
            Some(index) => r == Ok::<InterfaceRef, InterfaceNotFound>(InterfaceRef { index }),
            None => exists|name: &str, found: Option<u32>|
                #![trigger lookup.ensures((name,), found)]
                name@ == s@ && lookup.ensures((name,), found) && match r {
                    Ok(interface) => named_index_spec(found) == Some(interface),
                    Err(e) => named_index_spec(found) is None && e.name@ == s@,
                },
        },
{
    match iface {
        None => Ok(InterfaceRef { index: DEFAULT_INTERFACE }),
        Some(s) => {
            match literal_index(s.as_str()) {
                Some(index) => Ok(InterfaceRef { index }),
                None => {
                    let name = s.as_str();
                    let found = lookup(name);
                    let r = resolve_named(name, found);
                    assert(name@ == s@ && lookup.ensures((name,), found) && match r {
                        Ok(interface) => named_index_spec(found) == Some(interface),
                        Err(e) => named_index_spec(found) is None && e.name@ == s@,
                    });
                    r
                },
            }
        },
    }
}

} // verus!
