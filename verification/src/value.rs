use vstd::prelude::*;
use vstd::string::StringExecFns;

verus! {

/// How successive values of one column are turned into text.
#[derive(Clone, Copy, Debug, PartialEq, Eq, Structural)]
pub enum DisplayKind {
    /// Show the value as a plain decimal number.
    Number,
    /// Show the change since the previously displayed value.
    Difference,
    /// Show a bar of `#` characters whose length is the value.
    Histogram,
}

/// Horizontal alignment of a cell's text within its column.
#[derive(Clone, Copy, Debug, PartialEq, Eq, Structural)]
pub enum Align {
    Right,
    Left,
}

/// A single measurement value handed to the row renderer.
///
/// `Int` is an integer observation (a counter).  `Text` carries a value the
/// core does not interpret numerically, already rendered to text by the
/// caller (for example a floating-point gauge); such a value is displayed
/// as that text under every display kind.
pub enum Value {
    Int(i64),
    Text(String),
}

/// Mathematical model of a `Value`.
pub enum ValueV {
    Int(int),
    Text(Seq<char>),
}

impl View for Value {
    type V = ValueV;

    open spec fn view(&self) -> ValueV {
        match self {
            Value::Int(x) => ValueV::Int(*x as int),
            Value::Text(s) => ValueV::Text(s@),
        }
    }
}

/// The character for one decimal digit.
pub open spec fn digit_char(d: int) -> char {
    if d == 0 {
        '0'
    } else if d == 1 {
        '1'
    } else if d == 2 {
        '2'
    } else if d == 3 {
        '3'
    } else if d == 4 {
        '4'
    } else if d == 5 {
        '5'
    } else if d == 6 {
        '6'
    } else if d == 7 {
        '7'
    } else if d == 8 {
        '8'
    } else {
        '9'
    }
}

/// Decimal digits of a non-negative integer, most significant first.
pub open spec fn dec_digits(n: int) -> Seq<char>
    decreases n,
{
    if n < 10 {
        seq![digit_char(n)]
    } else {
        dec_digits(n / 10).push(digit_char(n % 10))
    }
}

/// Decimal text of an integer, with a leading `-` when negative.
pub open spec fn int_text(i: int) -> Seq<char> {
    if i < 0 {
        seq!['-'] + dec_digits(-i)
    } else {
        dec_digits(i)
    }
}

/// The text a value displays as under the `Number` kind.
pub open spec fn value_text(v: ValueV) -> Seq<char> {
    match v {
        ValueV::Int(i) => int_text(i),
        ValueV::Text(s) => s,
    }
}

fn push_dec(out: &mut String, n: u64)
    ensures
        final(out)@ == old(out)@ + dec_digits(n as int),
    decreases n,
{
    if n >= 10 {
        push_dec(out, n / 10);
    }
    let d = n % 10;
    let s: &str = if d == 0 {
        "0"
    } else if d == 1 {
        "1"
    } else if d == 2 {
        "2"
    } else if d == 3 {
        "3"
    } else if d == 4 {
        "4"
    } else if d == 5 {
        "5"
    } else if d == 6 {
        "6"
    } else if d == 7 {
        "7"
    } else if d == 8 {
        "8"
    } else {
        "9"
    };
    proof {
        reveal_strlit("0");
        reveal_strlit("1");
        reveal_strlit("2");
        reveal_strlit("3");
        reveal_strlit("4");
        reveal_strlit("5");
        reveal_strlit("6");
        reveal_strlit("7");
        reveal_strlit("8");
        reveal_strlit("9");
        assert(s@ =~= seq![digit_char(d as int)]);
    }
    out.append(s);
    proof {
        assert(out@ =~= old(out)@ + dec_digits(n as int));
    }
}

/// Format an integer as decimal text.
pub fn int_to_string(x: i64) -> (r: String)
    ensures
        r@ == int_text(x as int),
{
    let mut s = String::new();
    if x < 0 {
        s.append("-");
        proof {
            reveal_strlit("-");
        }
        let mag: u64 = ((-(x + 1)) as u64) + 1;
        assert(mag as int == -(x as int));
        push_dec(&mut s, mag);
        proof {
            assert(s@ =~= int_text(x as int));
        }
    } else {
        push_dec(&mut s, x as u64);
        proof {
            assert(s@ =~= int_text(x as int));
        }
    }
    s
}

/// The `Number` text of a value.
pub fn value_to_string(v: &Value) -> (r: String)
    ensures
        r@ == value_text(v@),
{
    match v {
        Value::Int(x) => int_to_string(*x),
        Value::Text(s) => s.clone(),
    }
}

} // verus!
