//! Rendering the prediction table: the `ID,Disease` header row followed
//! by one row per query, the ID written as a decimal numeral.
use vstd::prelude::*;
use vstd::string::StringExecFns;

verus! {

/// The character of one decimal digit.
pub open spec fn digit_char(d: int) -> char {
    if d == 0 {
        '0'
    } else if d == 1 {
        '1'
    } else if d == 2 {
        '2'
    } else if d == 3 {
        '3'
    } else if d == 4 {
        '4'
    } else if d == 5 {
        '5'
    } else if d == 6 {
        '6'
    } else if d == 7 {
        '7'
    } else if d == 8 {
        '8'
    } else {
        '9'
    }
}

/// The decimal numeral of `n`, most significant digit first, without
/// leading zeros (`0` itself is the single digit `0`).
pub open spec fn decimal_of(n: int) -> Seq<char>
    decreases n,
{
    if n < 10 {
        seq![digit_char(n)]
    } else {
        decimal_of(n / 10).push(digit_char(n % 10))
    }
}

fn digit_str(d: u64) -> (r: &'static str)
    requires
        d < 10,
    ensures
        r@ == seq![digit_char(d as int)],
{
    proof {
        reveal_strlit("0");
        reveal_strlit("1");
        reveal_strlit("2");
        reveal_strlit("3");
        reveal_strlit("4");
        reveal_strlit("5");
        reveal_strlit("6");
        reveal_strlit("7");
        reveal_strlit("8");
        reveal_strlit("9");
    }
    if d == 0 {
        "0"
    } else if d == 1 {
        "1"
    } else if d == 2 {
        "2"
    } else if d == 3 {
        "3"
    } else if d == 4 {
        "4"
    } else if d == 5 {
        "5"
    } else if d == 6 {
        "6"
    } else if d == 7 {
        "7"
    } else if d == 8 {
        "8"
    } else {
        "9"
    }
}

/// Format an integer as its decimal numeral.
pub fn u64_to_decimal(n: u64) -> (r: String)
    ensures
        r@ == decimal_of(n as int),
    decreases n,
{
    if n < 10 {
        String::from_str(digit_str(n))
    } else {
        let rest = u64_to_decimal(n / 10);
        let r = rest.concat(digit_str(n % 10));
        proof {
            assert(r@ =~= decimal_of(n as int / 10).push(digit_char(n as int % 10)));
        }
        r
    }
}

/// Build the output table for a batch of (ID, label) results: the header
/// row exactly once, at the top, then one `ID,Disease` row per result in
/// order, the ID in decimal.
pub fn render_output(results: &Vec<(u64, String)>) -> (out: Vec<Vec<String>>)
    ensures
        out@.len() == results@.len() + 1,
        out@[0]@.len() == 2,
        out@[0]@[0]@ == "ID"@,
        out@[0]@[1]@ == "Disease"@,
        forall|i: int|
            0 <= i < results@.len()
                ==> (#[trigger] out@[i + 1])@.len() == 2
                    && out@[i + 1]@[0]@ == decimal_of(results@[i].0 as int)
                    && out@[i + 1]@[1]@ == results@[i].1@,
{
    let mut out: Vec<Vec<String>> = Vec::new();
    let mut header: Vec<String> = Vec::new();
    header.push(String::from_str("ID"));
    header.push(String::from_str("Disease"));
    out.push(header);
    let mut i: usize = 0;
    while i < results.len()
        invariant
            i <= results@.len(),
            out@.len() == i + 1,
            out@[0]@.len() == 2,
            out@[0]@[0]@ == "ID"@,
            out@[0]@[1]@ == "Disease"@,
            forall|t: int|
                0 <= t < i
                    ==> (#[trigger] out@[t + 1])@.len() == 2
                        && out@[t + 1]@[0]@ == decimal_of(results@[t].0 as int)
                        && out@[t + 1]@[1]@ == results@[t].1@,
        decreases results@.len() - i,
    {
        let mut line: Vec<String> = Vec::new();
        line.push(u64_to_decimal(results[i].0));
        line.push(results[i].1.clone());
        out.push(line);
        i += 1;
    }
    out
}

} // verus!
