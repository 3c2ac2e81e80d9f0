//! Verified text building blocks: decimal rendering of machine integers and
//! CSS selector lists, with their views stated exactly as `Seq<char>` values.
use vstd::prelude::*;
use vstd::string::StringExecFns;

verus! {

/// Relies on `str`'s equality: true exactly when the character sequences
/// match.
#[verifier::external_body]
pub(crate) fn str_eq(a: &str, b: &str) -> (r: bool)
    ensures
        r == (a@ == b@),
{
    a == b
}

/// The single decimal digit `d` as a one-character sequence.
pub open spec fn digit_seq(d: nat) -> Seq<char> {
    if d == 0 {
        "0"@
    } else if d == 1 {
        "1"@
    } else if d == 2 {
        "2"@
    } else if d == 3 {
        "3"@
    } else if d == 4 {
        "4"@
    } else if d == 5 {
        "5"@
    } else if d == 6 {
        "6"@
    } else if d == 7 {
        "7"@
    } else if d == 8 {
        "8"@
    } else {
        "9"@
    }
}

/// The usual decimal notation of `n`, most significant digit first,
/// without leading zeros (except for `n == 0` itself).
pub open spec fn decimal_seq(n: nat) -> Seq<char>
    decreases n,
{
    if n < 10 {
        digit_seq(n)
    } else {
        decimal_seq(n / 10) + digit_seq(n % 10)
    }
}

fn digit_str(d: usize) -> (s: &'static str)
    requires
        d < 10,
    ensures
        s@ == digit_seq(d as nat),
{
    match d {
        0 => "0",
        1 => "1",
        2 => "2",
        3 => "3",
        4 => "4",
        5 => "5",
        6 => "6",
        7 => "7",
        8 => "8",
        _ => "9",
    }
}

/// Renders `n` in decimal notation.
pub fn decimal_str(n: usize) -> (s: String)
    ensures
        s@ == decimal_seq(n as nat),
    decreases n,
{
    if n < 10 {
        String::from_str(digit_str(n))
    } else {
        proof {
            assert(n / 10 < n) by (nonlinear_arith)
                requires
                    n >= 10,
            ;
        }
        let mut s = decimal_str(n / 10);
        s.append(digit_str(n % 10));
        s
    }
}

/// The views of a sequence of strings.
pub open spec fn views_of(v: Seq<String>) -> Seq<Seq<char>> {
    Seq::new(v.len(), |i: int| v[i]@)
}

/// The CSS selector list naming every class of `clss` in order:
/// `.a, .b, .c` (empty when there is no class).
pub open spec fn selector_seq(clss: Seq<Seq<char>>) -> Seq<char>
    decreases clss.len(),
{
    if clss.len() == 0 {
        Seq::empty()
    } else if clss.len() == 1 {
        "."@ + clss[0]
    } else {
        selector_seq(clss.drop_last()) + ", "@ + "."@ + clss[clss.len() - 1]
    }
}

/// Appends to `out` the selector list over `v[from .. to]`.
pub fn append_selector(out: &mut String, v: &Vec<String>, from: usize, to: usize)
    requires
        from <= to <= v@.len(),
    ensures
        final(out)@ == old(out)@ + selector_seq(views_of(v@.subrange(from as int, to as int))),
{
    let ghost base = out@;
    let mut i: usize = from;
    while i < to
        invariant
            from <= i <= to <= v@.len(),
            out@ == base + selector_seq(views_of(v@.subrange(from as int, i as int))),
        decreases to - i,
    {
        if i > from {
            out.append(", ");
        }
        out.append(".");
        out.append(v[i].as_str());
        proof {
            let prev = views_of(v@.subrange(from as int, i as int));
            let cur = views_of(v@.subrange(from as int, i + 1 as int));
            assert(cur.drop_last() =~= prev);
            assert(cur[cur.len() - 1] == v@[i as int]@);
            assert(out@ =~= base + selector_seq(cur));
        }
        i = i + 1;
    }
}

} // verus!
