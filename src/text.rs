use vstd::prelude::*;
use vstd::string::StringExecFns;

verus! {

/// The decimal digits of `n`, for messages.
pub(crate) fn push_number(s: &mut String, n: usize) {
    let mut digits: Vec<usize> = Vec::new();
    let mut m = n;
    loop
        invariant
            digits@.len() <= 20,
        decreases m,
    {
        if digits.len() < 20 {
            digits.push(m % 10);
        }
        m = m / 10;
        if m == 0 {
            break;
        }
    }
    let mut k = digits.len();
    while k > 0
        invariant
            k <= digits@.len(),
        decreases k,
    {
        k = k - 1;
        let d = digits[k];
        let t = if d == 0 {
            "0"
        } else if d == 1 {
            "1"
        } else if d == 2 {
            "2"
        } else if d == 3 {
            "3"
        } else if d == 4 {
            "4"
        } else if d == 5 {
            "5"
        } else if d == 6 {
            "6"
        } else if d == 7 {
            "7"
        } else if d == 8 {
            "8"
        } else {
            "9"
        };
        s.append(t);
    }
}

/// `head` followed by the one-based position `(row,col)` of `cell` and `tail`.
pub(crate) fn cell_message(head: &str, cell: usize, size: usize, tail: &str) -> String
    requires
        size > 0,
        cell < 1024,
{
    let mut s = String::from_str(head);
    s.append("(");
    push_number(&mut s, cell / size + 1);
    s.append(",");
    push_number(&mut s, cell % size + 1);
    s.append(")");
    s.append(tail);
    s
}

} // verus!
