use crate::text::{
    all_digits, digits_value, parse_u8, parse_unsigned_spec, trim, trimmed, unsigned_digits,
};
use vstd::prelude::*;

verus! {

/// The file through which the kernel offers turbo boost.
#[derive(Clone, Copy, Debug, PartialEq, Eq, Structural)]
pub enum Control {
    /// `intel_pstate/no_turbo`: 0 means turbo is on.
    NoTurbo,
    /// `cpufreq/boost`: 1 means turbo is on.
    Boost,
}

/// A small number as a sysfs file holds it: a `u8` with white space around it.
pub open spec fn value_spec(raw: Seq<char>) -> Option<u8> {
    match parse_unsigned_spec(trimmed(raw), u8::MAX as nat) {
        Some(v) => Some(v as u8),
        None => None,
    }
}

/// Reads the number in the text of a turbo control file.
pub fn read_value(raw: &str) -> (r: Option<u8>)
    ensures
        r == value_spec(raw@),
{
    parse_u8(trim(raw))
}

/// Whether turbo is on, from the control that the machine has and the text of its file
/// (`None` where there is no control, the file could not be read, or holds no number).
pub open spec fn state_spec(control: Option<Control>, raw: Option<Seq<char>>) -> Option<bool> {
    match (control, raw) {
        (Some(c), Some(t)) => match value_spec(t) {
            Some(v) => Some(
                match c {
                    Control::NoTurbo => v == 0,
                    Control::Boost => v == 1,
                },
            ),
            None => None,
        },
        _ => None,
    }
}

/// Whether turbo is on; see `state_spec`.
pub fn state(control: Option<Control>, raw: Option<&str>) -> (r: Option<bool>)
    ensures
        r == state_spec(
            control,
            match raw {
                Some(t) => Some(t@),
                None => None,
            },
        ),
{
    let c = match control {
        Some(c) => c,
        None => return None,
    };
    let t = match raw {
        Some(t) => t,
        None => return None,
    };
    let v = match read_value(t) {
        Some(v) => v,
        None => return None,
    };
    match c {
        Control::NoTurbo => Some(v == 0),
        Control::Boost => Some(v == 1),
    }
}

/// The text to write to a control to turn turbo on or off.
pub open spec fn write_text(control: Control, on: bool) -> Seq<char> {
    match control {
        Control::NoTurbo => if on {
            "0"@
        } else {
            "1"@
        },
        Control::Boost => if on {
            "1"@
        } else {
            "0"@
        },
    }
}

/// The text to write to `control` to turn turbo on or off.
pub fn write_value(control: Control, on: bool) -> (r: &'static str)
    ensures
        r@ == write_text(control, on),
{
    match control {
        Control::NoTurbo => if on {
            "0"
        } else {
            "1"
        },
        Control::Boost => if on {
            "1"
        } else {
            "0"
        },
    }
}

/// What is written to turn turbo on or off reads back as that state.
pub proof fn lemma_write_reads_back(control: Control, on: bool)
    ensures
        state_spec(Some(control), Some(write_text(control, on))) == Some(on),
{
    reveal_strlit("0");
    reveal_strlit("1");
    let zero = "0"@;
    let one = "1"@;
    assert(trimmed(zero) == zero) by {
        assert(zero.drop_last() =~= Seq::<char>::empty());
    }
    assert(trimmed(one) == one) by {
        assert(one.drop_last() =~= Seq::<char>::empty());
    }
    assert(zero.len() == 1 && zero[0] == '0');
    assert(one.len() == 1 && one[0] == '1');
    assert(zero.drop_last() =~= Seq::<char>::empty());
    assert(one.drop_last() =~= Seq::<char>::empty());
    assert(all_digits(zero));
    assert(all_digits(one));
    assert(digits_value(Seq::<char>::empty()) == 0);
    assert(zero.last() == '0' && one.last() == '1');
    assert(digits_value(zero) == 0);
    assert(digits_value(one) == 1);
    assert(unsigned_digits(zero) == zero);
    assert(unsigned_digits(one) == one);
    assert(value_spec(zero) == Some(0u8));
    assert(value_spec(one) == Some(1u8));
}

} // verus!
