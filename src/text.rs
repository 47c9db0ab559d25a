//! Decimal and opacity text, written character by character.
use vstd::prelude::*;
use vstd::string::*;

verus! {

/// The text of one decimal digit.
pub open spec fn digit_text(d: nat) -> Seq<char> {
    if d == 0 {
        "0"@
    } else if d == 1 {
        "1"@
    } else if d == 2 {
        "2"@
    } else if d == 3 {
        "3"@
    } else if d == 4 {
        "4"@
    } else if d == 5 {
        "5"@
    } else if d == 6 {
        "6"@
    } else if d == 7 {
        "7"@
    } else if d == 8 {
        "8"@
    } else {
        "9"@
    }
}

/// The shortest decimal text of `n`, without sign or leading zeros.
pub open spec fn decimal(n: nat) -> Seq<char>
    decreases n,
{
    if n < 10 {
        digit_text(n)
    } else {
        decimal(n / 10) + digit_text(n % 10)
    }
}

fn push_digit(s: &mut String, d: u32)
    requires
        d < 10,
    ensures
        final(s)@ == old(s)@ + digit_text(d as nat),
{
    if d == 0 {
        s.append("0");
    } else if d == 1 {
        s.append("1");
    } else if d == 2 {
        s.append("2");
    } else if d == 3 {
        s.append("3");
    } else if d == 4 {
        s.append("4");
    } else if d == 5 {
        s.append("5");
    } else if d == 6 {
        s.append("6");
    } else if d == 7 {
        s.append("7");
    } else if d == 8 {
        s.append("8");
    } else {
        s.append("9");
    }
}

/// Appends the decimal text of `n` to `s`.
pub fn push_decimal(s: &mut String, n: u32)
    ensures
        final(s)@ == old(s)@ + decimal(n as nat),
    decreases n,
{
    if n >= 10 {
        push_decimal(s, n / 10);
    }
    push_digit(s, n % 10);
    assert(final(s)@ =~= old(s)@ + decimal(n as nat));
}

/// An alpha value as thousandths of full opacity, rounded half up.
pub open spec fn opacity_milli(alpha: nat) -> nat {
    (alpha * 2000 + 255) / 510
}

/// The opacity of an alpha value as a short decimal fraction of at most
/// three places, with trailing zeros dropped ("0", "0.5", "0.502", "1").
pub open spec fn opacity_text(alpha: nat) -> Seq<char> {
    let m = opacity_milli(alpha);
    if m == 0 {
        "0"@
    } else if m >= 1000 {
        "1"@
    } else if m % 10 != 0 {
        "0."@ + digit_text(m / 100) + digit_text((m / 10) % 10) + digit_text(m % 10)
    } else if m % 100 != 0 {
        "0."@ + digit_text(m / 100) + digit_text((m / 10) % 10)
    } else {
        "0."@ + digit_text(m / 100)
    }
}

/// The opacity text of `alpha`.
pub fn opacity_of(alpha: u8) -> (r: String)
    ensures
        r@ == opacity_text(alpha as nat),
{
    let m: u32 = (alpha as u32 * 2000 + 255) / 510;
    let mut s = String::new();
    if m == 0 {
        s.append("0");
    } else if m >= 1000 {
        s.append("1");
    } else {
        s.append("0.");
        push_digit(&mut s, m / 100);
        if m % 10 != 0 {
            push_digit(&mut s, (m / 10) % 10);
            push_digit(&mut s, m % 10);
        } else if m % 100 != 0 {
            push_digit(&mut s, (m / 10) % 10);
        }
    }
    s
}

/// The opacity texts of all 256 alpha values, computed once and then shared.
pub struct OpacityTable {
    entries: Vec<String>,
}

impl OpacityTable {
    /// The table holds the opacity text of every alpha value at its index.
    pub closed spec fn wf(&self) -> bool {
        &&& self.entries@.len() == 256
        &&& forall|a: int| 0 <= a < 256 ==> #[trigger] self.entries@[a]@ == opacity_text(a as nat)
    }

    pub fn new() -> (t: OpacityTable)
        ensures
            t.wf(),
    {
        let mut entries: Vec<String> = Vec::new();
        let mut a: u32 = 0;
        while a < 256
            invariant
                a <= 256,
                entries@.len() == a,
                forall|k: int| 0 <= k < a ==> #[trigger] entries@[k]@ == opacity_text(k as nat),
            decreases 256 - a,
        {
            entries.push(opacity_of(a as u8));
            a = a + 1;
        }
        OpacityTable { entries }
    }

    /// The opacity text of `alpha`, read from the table.
    pub fn lookup(&self, alpha: u8) -> (r: &String)
        requires
            self.wf(),
        ensures
            r@ == opacity_text(alpha as nat),
    {
        &self.entries[alpha as usize]
    }
}

} // verus!
