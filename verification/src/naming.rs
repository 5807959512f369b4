//! Names of the extracted files: the ordinal of the payload in decimal, padded
//! with zeros to four digits, followed by `.png`.

use vstd::prelude::*;

verus! {

/// The ten decimal digits, in order.
pub open spec fn digits() -> Seq<char> {
    seq!['0', '1', '2', '3', '4', '5', '6', '7', '8', '9']
}

/// `n` in decimal, without leading zeros.
pub open spec fn decimal(n: nat) -> Seq<char>
    decreases n,
{
    if n < 10 {
        seq![digits()[n as int]]
    } else {
        decimal(n / 10).push(digits()[(n % 10) as int])
    }
}

/// `n` in decimal, with zeros in front until the text has `width` characters.
pub open spec fn zero_padded(n: nat, width: nat) -> Seq<char> {
    let text = decimal(n);
    if text.len() >= width {
        text
    } else {
        Seq::new((width - text.len()) as nat, |i: int| '0') + text
    }
}

/// The extension of every extracted file.
pub open spec fn extension() -> Seq<char> {
    seq!['.', 'p', 'n', 'g']
}

/// The file name of the payload with the given ordinal.
pub open spec fn name_of(ordinal: nat) -> Seq<char> {
    zero_padded(ordinal, 4) + extension()
}

/// The number of characters of `decimal(n)` for `n` below ten thousand, and
/// a lower bound for the others.
pub proof fn lemma_decimal_len(n: nat)
    ensures
        n < 10 ==> decimal(n).len() == 1,
        10 <= n < 100 ==> decimal(n).len() == 2,
        100 <= n < 1000 ==> decimal(n).len() == 3,
        1000 <= n ==> decimal(n).len() >= 4,
    decreases n,
{
    if n >= 10 {
        lemma_decimal_len(n / 10);
    }
}

/// One decimal digit as text.
fn digit_text(d: u32) -> (text: &'static str)
    requires
        d < 10,
    ensures
        text@ == seq![digits()[d as int]],
{
    proof {
        reveal_strlit("0");
        reveal_strlit("1");
        reveal_strlit("2");
        reveal_strlit("3");
        reveal_strlit("4");
        reveal_strlit("5");
        reveal_strlit("6");
        reveal_strlit("7");
        reveal_strlit("8");
        reveal_strlit("9");
    }
    let text = match d {
        0 => "0",
        1 => "1",
        2 => "2",
        3 => "3",
        4 => "4",
        5 => "5",
        6 => "6",
        7 => "7",
        8 => "8",
        _ => "9",
    };
    assert(text@ =~= seq![digits()[d as int]]);
    text
}

/// Appends `n` in decimal to `text`.
fn append_decimal(text: &mut String, n: u32)
    ensures
        final(text)@ == old(text)@ + decimal(n as nat),
    decreases n,
{
    if n >= 10 {
        append_decimal(text, n / 10);
    }
    text.append(digit_text(n % 10));
    assert(final(text)@ =~= old(text)@ + decimal(n as nat));
}

/// The file name of the payload with the given ordinal: `1` gives
/// `0001.png`, `12345` gives `12345.png`.
pub fn artifact_name(ordinal: u32) -> (name: String)
    ensures
        name@ == name_of(ordinal as nat),
{
    let mut name = String::new();
    proof {
        lemma_decimal_len(ordinal as nat);
        reveal_strlit("000");
        reveal_strlit("00");
        reveal_strlit("0");
        reveal_strlit(".png");
    }
    if ordinal < 10 {
        name.append("000");
        assert(name@ =~= Seq::new(3, |i: int| '0'));
    } else if ordinal < 100 {
        name.append("00");
        assert(name@ =~= Seq::new(2, |i: int| '0'));
    } else if ordinal < 1000 {
        name.append("0");
        assert(name@ =~= Seq::new(1, |i: int| '0'));
    }
    let ghost padding = name@;
    assert(padding + decimal(ordinal as nat) =~= zero_padded(ordinal as nat, 4));
    append_decimal(&mut name, ordinal);
    name.append(".png");
    assert(".png"@ =~= extension());
    name
}

} // verus!
