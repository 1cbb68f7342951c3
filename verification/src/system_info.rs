//! Readable renderings of byte counts and durations, exact to the digit:
//! a byte count is scaled to its unit and shown with two decimals, an
//! uptime is broken into days, hours, minutes and seconds.

use vstd::prelude::*;
use vstd::arithmetic::div_mod::lemma_fundamental_div_mod;
use vstd::string::StringExecFns;

verus! {

/// The decimal digit character of `d`.
pub open spec fn digit_char(d: int) -> char {
    if d == 0 {
        '0'
    } else if d == 1 {
        '1'
    } else if d == 2 {
        '2'
    } else if d == 3 {
        '3'
    } else if d == 4 {
        '4'
    } else if d == 5 {
        '5'
    } else if d == 6 {
        '6'
    } else if d == 7 {
        '7'
    } else if d == 8 {
        '8'
    } else {
        '9'
    }
}

/// The decimal digits of `n`, most significant first, no leading zeros
/// (a single zero for `n == 0`).
pub open spec fn dec_seq(n: nat) -> Seq<char>
    decreases n,
{
    if n < 10 {
        seq![digit_char(n as int)]
    } else {
        dec_seq(n / 10).push(digit_char((n % 10) as int))
    }
}

/// Which unit a byte count is shown in: 0 bytes, 1 KB, 2 MB, 3 GB, 4 TB.
pub open spec fn unit_index(bytes: nat) -> nat {
    if bytes < 1024 {
        0
    } else if bytes < 1048576 {
        1
    } else if bytes < 1073741824 {
        2
    } else if bytes < 1099511627776 {
        3
    } else {
        4
    }
}

/// Bytes per unit at index `k`.
pub open spec fn unit_divisor(k: nat) -> nat {
    if k == 0 {
        1
    } else if k == 1 {
        1024
    } else if k == 2 {
        1048576
    } else if k == 3 {
        1073741824
    } else {
        1099511627776
    }
}

/// The unit's label.
pub open spec fn unit_label(k: nat) -> Seq<char> {
    if k == 0 {
        seq!['B']
    } else if k == 1 {
        seq!['K', 'B']
    } else if k == 2 {
        seq!['M', 'B']
    } else if k == 3 {
        seq!['G', 'B']
    } else {
        seq!['T', 'B']
    }
}

/// The byte count scaled to its unit, in hundredths, rounded to the
/// nearest hundredth with halves rounded up.
pub open spec fn scaled_hundredths(bytes: nat) -> nat {
    (bytes * 100 + unit_divisor(unit_index(bytes)) / 2) / unit_divisor(unit_index(bytes))
}

/// A byte count as shown: the scaled value with two decimals, a space,
/// and the unit's label.
pub open spec fn bytes_seq(bytes: nat) -> Seq<char> {
    let q = scaled_hundredths(bytes);
    dec_seq(q / 100) + seq!['.'] + seq![digit_char(((q % 100) / 10) as int)]
        + seq![digit_char((q % 10) as int)] + seq![' '] + unit_label(unit_index(bytes))
}

/// An uptime as shown: largest nonzero part first, seconds always.
pub open spec fn uptime_seq(u: nat) -> Seq<char> {
    let days = u / 86400;
    let hours = (u % 86400) / 3600;
    let minutes = (u % 3600) / 60;
    let seconds = u % 60;
    if days > 0 {
        dec_seq(days) + seq!['d', ' '] + dec_seq(hours) + seq!['h', ' '] + dec_seq(minutes)
            + seq!['m', ' '] + dec_seq(seconds) + seq!['s']
    } else if hours > 0 {
        dec_seq(hours) + seq!['h', ' '] + dec_seq(minutes) + seq!['m', ' '] + dec_seq(seconds)
            + seq!['s']
    } else if minutes > 0 {
        dec_seq(minutes) + seq!['m', ' '] + dec_seq(seconds) + seq!['s']
    } else {
        dec_seq(seconds) + seq!['s']
    }
}

/// The one-character string of a decimal digit.
fn digit_str(d: u64) -> (s: &'static str)
    requires
        d < 10,
    ensures
        s@ == seq![digit_char(d as int)],
{
    proof {
        reveal_strlit("0");
        reveal_strlit("1");
        reveal_strlit("2");
        reveal_strlit("3");
        reveal_strlit("4");
        reveal_strlit("5");
        reveal_strlit("6");
        reveal_strlit("7");
        reveal_strlit("8");
        reveal_strlit("9");
    }
    if d == 0 {
        "0"
    } else if d == 1 {
        "1"
    } else if d == 2 {
        "2"
    } else if d == 3 {
        "3"
    } else if d == 4 {
        "4"
    } else if d == 5 {
        "5"
    } else if d == 6 {
        "6"
    } else if d == 7 {
        "7"
    } else if d == 8 {
        "8"
    } else {
        "9"
    }
}

/// `n` in decimal, most significant digit first.
pub fn decimal_string(n: u64) -> (s: String)
    ensures
        s@ == dec_seq(n as nat),
    decreases n,
{
    if n < 10 {
        digit_str(n).to_owned()
    } else {
        let mut s = decimal_string(n / 10);
        s.append(digit_str(n % 10));
        proof {
            assert(dec_seq((n / 10) as nat).push(digit_char((n % 10) as int)) =~= dec_seq(
                (n / 10) as nat,
            ) + seq![digit_char((n % 10) as int)]);
        }
        s
    }
}

/// A byte count scaled to B, KB, MB, GB or TB with two decimals, as in
/// `1.50 KB`.
pub fn format_bytes(bytes: u64) -> (s: String)
    ensures
        s@ == bytes_seq(bytes as nat),
{
    let q: u64 = if bytes < 1024 {
        bytes * 100
    } else if bytes < 1048576 {
        (bytes * 100 + 512) / 1024
    } else if bytes < 1073741824 {
        (bytes * 100 + 524288) / 1048576
    } else if bytes < 1099511627776 {
        (bytes * 100 + 536870912) / 1073741824
    } else {
        let wide = ((bytes as u128) * 100 + 549755813888) / 1099511627776;
        proof {
            lemma_fundamental_div_mod(
                (bytes as int) * 100 + 549755813888,
                1099511627776,
            );
        }
        wide as u64
    };
    assert(q == scaled_hundredths(bytes as nat));
    let unit: &'static str = if bytes < 1024 {
        "B"
    } else if bytes < 1048576 {
        "KB"
    } else if bytes < 1073741824 {
        "MB"
    } else if bytes < 1099511627776 {
        "GB"
    } else {
        "TB"
    };
    proof {
        reveal_strlit("B");
        reveal_strlit("KB");
        reveal_strlit("MB");
        reveal_strlit("GB");
        reveal_strlit("TB");
        reveal_strlit(".");
        reveal_strlit(" ");
        assert(unit@ =~= unit_label(unit_index(bytes as nat)));
    }
    let mut s = decimal_string(q / 100);
    s.append(".");
    s.append(digit_str((q % 100) / 10));
    s.append(digit_str(q % 10));
    s.append(" ");
    s.append(unit);
    proof {
        assert((".")@ =~= seq!['.']);
        assert((" ")@ =~= seq![' ']);
        assert(s@ =~= bytes_seq(bytes as nat));
    }
    s
}

/// An uptime in seconds as days, hours, minutes and seconds, the largest
/// nonzero part first, as in `1d 2h 3m 4s`.
pub fn format_uptime(uptime_seconds: u64) -> (s: String)
    ensures
        s@ == uptime_seq(uptime_seconds as nat),
{
    let days = uptime_seconds / 86400;
    let hours = (uptime_seconds % 86400) / 3600;
    let minutes = (uptime_seconds % 3600) / 60;
    let seconds = uptime_seconds % 60;
    proof {
        reveal_strlit("d ");
        reveal_strlit("h ");
        reveal_strlit("m ");
        reveal_strlit("s");
        assert(("d ")@ =~= seq!['d', ' ']);
        assert(("h ")@ =~= seq!['h', ' ']);
        assert(("m ")@ =~= seq!['m', ' ']);
        assert(("s")@ =~= seq!['s']);
    }
    if days > 0 {
        let mut s = decimal_string(days);
        s.append("d ");
        s.append(decimal_string(hours).as_str());
        s.append("h ");
        s.append(decimal_string(minutes).as_str());
        s.append("m ");
        s.append(decimal_string(seconds).as_str());
        s.append("s");
        proof {
            assert(s@ =~= uptime_seq(uptime_seconds as nat));
        }
        s
    } else if hours > 0 {
        let mut s = decimal_string(hours);
        s.append("h ");
        s.append(decimal_string(minutes).as_str());
        s.append("m ");
        s.append(decimal_string(seconds).as_str());
        s.append("s");
        proof {
            assert(s@ =~= uptime_seq(uptime_seconds as nat));
        }
        s
    } else if minutes > 0 {
        let mut s = decimal_string(minutes);
        s.append("m ");
        s.append(decimal_string(seconds).as_str());
        s.append("s");
        proof {
            assert(s@ =~= uptime_seq(uptime_seconds as nat));
        }
        s
    } else {
        let mut s = decimal_string(seconds);
        s.append("s");
        proof {
            assert(s@ =~= uptime_seq(uptime_seconds as nat));
        }
        s
    }
}

} // verus!
