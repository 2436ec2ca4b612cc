//! Plain-text rendering of numbers, as the disassembler prints them.
use vstd::prelude::*;

verus! {

/// The lowercase hexadecimal digit character of a value below 16.
pub open spec fn hex_digit_char(d: int) -> char {
    if d == 0 {
        '0'
    } else if d == 1 {
        '1'
    } else if d == 2 {
        '2'
    } else if d == 3 {
        '3'
    } else if d == 4 {
        '4'
    } else if d == 5 {
        '5'
    } else if d == 6 {
        '6'
    } else if d == 7 {
        '7'
    } else if d == 8 {
        '8'
    } else if d == 9 {
        '9'
    } else if d == 10 {
        'a'
    } else if d == 11 {
        'b'
    } else if d == 12 {
        'c'
    } else if d == 13 {
        'd'
    } else if d == 14 {
        'e'
    } else {
        'f'
    }
}

/// The hexadecimal digits of a number, most significant first.
pub open spec fn hex_digits(n: int) -> Seq<char>
    decreases n,
{
    if n < 16 {
        seq![hex_digit_char(n)]
    } else {
        hex_digits(n / 16).push(hex_digit_char(n % 16))
    }
}

/// The decimal digits of a number, most significant first.
pub open spec fn dec_digits(n: int) -> Seq<char>
    decreases n,
{
    if n < 10 {
        seq![hex_digit_char(n)]
    } else {
        dec_digits(n / 10).push(hex_digit_char(n % 10))
    }
}

/// Text left-padded with a fill character up to the given width.
pub open spec fn pad_left(s: Seq<char>, fill: char, width: int) -> Seq<char> {
    if s.len() >= width {
        s
    } else {
        Seq::new((width - s.len()) as nat, |i: int| fill) + s
    }
}

/// The lowercase hexadecimal digit of a value below 16, as text.
fn digit_text(d: u8) -> (text: &'static str)
    requires
        d < 16,
    ensures
        text@ == seq![hex_digit_char(d as int)],
{
    proof {
        reveal_strlit("0");
        reveal_strlit("1");
        reveal_strlit("2");
        reveal_strlit("3");
        reveal_strlit("4");
        reveal_strlit("5");
        reveal_strlit("6");
        reveal_strlit("7");
        reveal_strlit("8");
        reveal_strlit("9");
        reveal_strlit("a");
        reveal_strlit("b");
        reveal_strlit("c");
        reveal_strlit("d");
        reveal_strlit("e");
        reveal_strlit("f");
    }
    let text = if d == 0 {
        "0"
    } else if d == 1 {
        "1"
    } else if d == 2 {
        "2"
    } else if d == 3 {
        "3"
    } else if d == 4 {
        "4"
    } else if d == 5 {
        "5"
    } else if d == 6 {
        "6"
    } else if d == 7 {
        "7"
    } else if d == 8 {
        "8"
    } else if d == 9 {
        "9"
    } else if d == 10 {
        "a"
    } else if d == 11 {
        "b"
    } else if d == 12 {
        "c"
    } else if d == 13 {
        "d"
    } else if d == 14 {
        "e"
    } else {
        "f"
    };
    proof {
        assert(text@ =~= seq![hex_digit_char(d as int)]);
    }
    text
}

/// Render a number in lowercase hexadecimal.
pub fn hex_text(n: usize) -> (text: String)
    ensures
        text@ == hex_digits(n as int),
    decreases n,
{
    if n < 16 {
        String::from_str(digit_text(n as u8))
    } else {
        let mut text = hex_text(n / 16);
        text.append(digit_text((n % 16) as u8));
        proof {
            assert(text@ =~= hex_digits(n as int));
        }
        text
    }
}

/// Render a number in decimal.
pub fn dec_text(n: usize) -> (text: String)
    ensures
        text@ == dec_digits(n as int),
    decreases n,
{
    if n < 10 {
        String::from_str(digit_text(n as u8))
    } else {
        let mut text = dec_text(n / 10);
        text.append(digit_text((n % 10) as u8));
        proof {
            assert(text@ =~= dec_digits(n as int));
        }
        text
    }
}

/// How many hexadecimal digits a number renders to, by magnitude.
proof fn lemma_hex_digits_len(n: int)
    requires
        n >= 0,
    ensures
        n < 16 ==> hex_digits(n).len() == 1,
        16 <= n < 256 ==> hex_digits(n).len() == 2,
        256 <= n < 4096 ==> hex_digits(n).len() == 3,
        n >= 4096 ==> hex_digits(n).len() >= 4,
    decreases n,
{
    if n >= 16 {
        lemma_hex_digits_len(n / 16);
    }
}

/// How many decimal digits a number renders to, by magnitude.
proof fn lemma_dec_digits_len(n: int)
    requires
        n >= 0,
    ensures
        n < 10 ==> dec_digits(n).len() == 1,
        10 <= n < 100 ==> dec_digits(n).len() == 2,
        100 <= n < 1000 ==> dec_digits(n).len() == 3,
        n >= 1000 ==> dec_digits(n).len() >= 4,
    decreases n,
{
    if n >= 10 {
        lemma_dec_digits_len(n / 10);
    }
}

/// Render a number in hexadecimal, left-padded with zeros to at least
/// four digits.
pub fn hex4_text(n: usize) -> (text: String)
    ensures
        text@ == pad_left(hex_digits(n as int), '0', 4),
{
    proof {
        lemma_hex_digits_len(n as int);
        reveal_strlit("000");
        reveal_strlit("00");
        reveal_strlit("0");
        reveal_strlit("");
    }
    let prefix: &'static str = if n < 16 {
        "000"
    } else if n < 256 {
        "00"
    } else if n < 4096 {
        "0"
    } else {
        ""
    };
    let mut text = String::from_str(prefix);
    let digits = hex_text(n);
    text.append(digits.as_str());
    proof {
        assert(text@ =~= pad_left(hex_digits(n as int), '0', 4));
    }
    text
}

/// Render a number in decimal, left-padded with spaces to at least four
/// characters.
pub fn dec4_text(n: usize) -> (text: String)
    ensures
        text@ == pad_left(dec_digits(n as int), ' ', 4),
{
    proof {
        lemma_dec_digits_len(n as int);
        reveal_strlit("   ");
        reveal_strlit("  ");
        reveal_strlit(" ");
        reveal_strlit("");
    }
    let prefix: &'static str = if n < 10 {
        "   "
    } else if n < 100 {
        "  "
    } else if n < 1000 {
        " "
    } else {
        ""
    };
    let mut text = String::from_str(prefix);
    let digits = dec_text(n);
    text.append(digits.as_str());
    proof {
        assert(text@ =~= pad_left(dec_digits(n as int), ' ', 4));
    }
    text
}

} // verus!
