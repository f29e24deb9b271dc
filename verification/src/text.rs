//! Decimal and hexadecimal renderings used by the human-readable forms of references.

use vstd::prelude::*;

verus! {

/// The digit characters of bases up to sixteen.
pub open spec fn digit_char(d: int) -> char {
    if d == 0 { '0' }
    else if d == 1 { '1' }
    else if d == 2 { '2' }
    else if d == 3 { '3' }
    else if d == 4 { '4' }
    else if d == 5 { '5' }
    else if d == 6 { '6' }
    else if d == 7 { '7' }
    else if d == 8 { '8' }
    else if d == 9 { '9' }
    else if d == 10 { 'a' }
    else if d == 11 { 'b' }
    else if d == 12 { 'c' }
    else if d == 13 { 'd' }
    else if d == 14 { 'e' }
    else { 'f' }
}

/// The decimal numeral of `n`, without leading zeros.
pub open spec fn decimal(n: nat) -> Seq<char>
    decreases n,
{
    if n < 10 {
        seq![digit_char(n as int)]
    } else {
        decimal(n / 10).push(digit_char((n % 10) as int))
    }
}

/// The two-digit lower-case hexadecimal form of each byte, in order.
pub open spec fn hex(bytes: Seq<u8>) -> Seq<char>
    decreases bytes.len(),
{
    if bytes.len() == 0 {
        Seq::empty()
    } else {
        hex(bytes.drop_last())
            + seq![digit_char(bytes.last() as int / 16), digit_char(bytes.last() as int % 16)]
    }
}

/// `parts` joined with `", "` between neighbours.
pub open spec fn comma_joined(parts: Seq<Seq<char>>) -> Seq<char>
    decreases parts.len(),
{
    if parts.len() == 0 {
        Seq::empty()
    } else if parts.len() == 1 {
        parts[0]
    } else {
        comma_joined(parts.drop_last()) + seq![',', ' '] + parts.last()
    }
}

fn digit_text(d: u8) -> (r: &'static str)
    requires
        d < 16,
    ensures
        r@ == seq![digit_char(d as int)],
{
    proof {
        reveal_strlit("0");
        reveal_strlit("1");
        reveal_strlit("2");
        reveal_strlit("3");
        reveal_strlit("4");
        reveal_strlit("5");
        reveal_strlit("6");
        reveal_strlit("7");
        reveal_strlit("8");
        reveal_strlit("9");
        reveal_strlit("a");
        reveal_strlit("b");
        reveal_strlit("c");
        reveal_strlit("d");
        reveal_strlit("e");
        reveal_strlit("f");
    }
    match d {
        0 => "0",
        1 => "1",
        2 => "2",
        3 => "3",
        4 => "4",
        5 => "5",
        6 => "6",
        7 => "7",
        8 => "8",
        9 => "9",
        10 => "a",
        11 => "b",
        12 => "c",
        13 => "d",
        14 => "e",
        _ => "f",
    }
}

/// Renders `n` in base ten.
pub fn decimal_text(n: u64) -> (r: String)
    ensures
        r@ == decimal(n as nat),
    decreases n,
{
    if n < 10 {
        String::from_str(digit_text(n as u8))
    } else {
        let mut head = decimal_text(n / 10);
        let ghost before = head@;
        head.append(digit_text((n % 10) as u8));
        assert(head@ == before.push(digit_char((n % 10) as int)));
        head
    }
}

/// Renders `bytes` as lower-case hexadecimal.
pub fn hex_text(bytes: &[u8]) -> (r: String)
    ensures
        r@ == hex(bytes@),
{
    let mut out = String::new();
    let mut i: usize = 0;
    while i < bytes.len()
        invariant
            i <= bytes@.len(),
            out@ == hex(bytes@.take(i as int)),
        decreases bytes@.len() - i,
    {
        let b: u8 = bytes[i];
        let ghost before = out@;
        out.append(digit_text(b / 16));
        out.append(digit_text(b % 16));
        proof {
            let longer = bytes@.take(i + 1);
            assert(longer.drop_last() == bytes@.take(i as int));
            assert(out@ == before + seq![digit_char(b as int / 16), digit_char(b as int % 16)]);
        }
        i += 1;
    }
    assert(bytes@.take(bytes@.len() as int) == bytes@);
    out
}

/// Joins `parts` with `", "`.
pub fn comma_joined_text(parts: &Vec<String>) -> (r: String)
    ensures
        r@ == comma_joined(parts@.map_values(|s: String| s@)),
{
    let ghost views = parts@.map_values(|s: String| s@);
    let mut out = String::new();
    let mut i: usize = 0;
    while i < parts.len()
        invariant
            i <= parts@.len(),
            views == parts@.map_values(|s: String| s@),
            out@ == comma_joined(views.take(i as int)),
        decreases parts@.len() - i,
    {
        let ghost before = out@;
        if i > 0 {
            proof {
                reveal_strlit(", ");
            }
            out.append(", ");
            assert(", "@ == seq![',', ' ']);
        }
        out.append(parts[i].as_str());
        proof {
            let longer = views.take(i + 1);
            assert(longer.drop_last() == views.take(i as int));
            assert(longer.last() == parts@[i as int]@);
            if i == 0 {
                assert(out@ == longer[0]);
            }
        }
        i += 1;
    }
    assert(views.take(views.len() as int) == views);
    out
}

/// The digits are `0` to `9` and then `a` to `f`.
pub proof fn law_digits(d: int)
    requires
        0 <= d < 16,
    ensures
        d < 10 ==> digit_char(d) as int == '0' as int + d,
        d >= 10 ==> digit_char(d) as int == 'a' as int + d - 10,
{
}

/// Whether `high` and `low` are the digits of `b` in base sixteen.
pub open spec fn writes_byte(high: char, low: char, b: u8) -> bool {
    exists|h: int, l: int|
        0 <= h < 16 && 0 <= l < 16 && #[trigger] digit_char(h) == high && #[trigger] digit_char(l)
            == low && b == 16 * h + l
}

/// Each byte is written as two digits, the high one first, in the order of the bytes.
pub proof fn law_hex_writes_each_byte(bytes: Seq<u8>)
    ensures
        hex(bytes).len() == 2 * bytes.len(),
        forall|i: int|
            0 <= i < bytes.len() ==> writes_byte(
                hex(bytes)[2 * i],
                hex(bytes)[2 * i + 1],
                #[trigger] bytes[i],
            ),
    decreases bytes.len(),
{
    if bytes.len() > 0 {
        let front = bytes.drop_last();
        law_hex_writes_each_byte(front);
        assert forall|i: int| 0 <= i < bytes.len() implies writes_byte(
            hex(bytes)[2 * i],
            hex(bytes)[2 * i + 1],
            #[trigger] bytes[i],
        ) by {
            if i < front.len() {
                assert(front[i] == bytes[i]);
                assert(hex(bytes)[2 * i] == hex(front)[2 * i]);
                assert(hex(bytes)[2 * i + 1] == hex(front)[2 * i + 1]);
            } else {
                let b = bytes[i] as int;
                assert(hex(bytes)[2 * i] == digit_char(b / 16));
                assert(hex(bytes)[2 * i + 1] == digit_char(b % 16));
                assert(b == 16 * (b / 16) + b % 16);
            }
        }
    }
}

/// Nothing joined is nothing, one part joined is that part, and each further part follows a comma
/// and a space.
pub proof fn law_joined_by_commas(parts: Seq<Seq<char>>, part: Seq<char>)
    ensures
        comma_joined(Seq::empty()) == Seq::<char>::empty(),
        comma_joined(seq![part]) == part,
        parts.len() > 0 ==> comma_joined(parts.push(part)) == comma_joined(parts) + seq![',', ' ']
            + part,
{
    assert(parts.push(part).drop_last() =~= parts);
}

/// A numeral has no leading zero, and its last digit is the number modulo ten.
pub proof fn law_decimal_digits(n: nat)
    ensures
        decimal(n).len() > 0,
        decimal(n).last() as int == '0' as int + n % 10,
        n >= 10 ==> decimal(n).drop_last() == decimal(n / 10),
        n < 10 ==> decimal(n).len() == 1,
{
    if n >= 10 {
        assert(decimal(n).drop_last() =~= decimal(n / 10));
    }
}

} // verus!
