//! Verified plain-text rendering helpers: lowercase hexadecimal and decimal
//! digits, used by the hex utilities and by error messages.

use vstd::prelude::*;

verus! {

/// The lowercase hex digit for a nibble value.
pub open spec fn hex_char(n: int) -> char {
    if n == 0 {
        '0'
    } else if n == 1 {
        '1'
    } else if n == 2 {
        '2'
    } else if n == 3 {
        '3'
    } else if n == 4 {
        '4'
    } else if n == 5 {
        '5'
    } else if n == 6 {
        '6'
    } else if n == 7 {
        '7'
    } else if n == 8 {
        '8'
    } else if n == 9 {
        '9'
    } else if n == 10 {
        'a'
    } else if n == 11 {
        'b'
    } else if n == 12 {
        'c'
    } else if n == 13 {
        'd'
    } else if n == 14 {
        'e'
    } else {
        'f'
    }
}

/// Two lowercase hex digits per byte, in order.
pub open spec fn hex_chars_of(bytes: Seq<u8>) -> Seq<char>
    decreases bytes.len(),
{
    if bytes.len() == 0 {
        Seq::empty()
    } else {
        seq![hex_char(bytes[0] as int / 16), hex_char(bytes[0] as int % 16)] + hex_chars_of(bytes.skip(1))
    }
}

/// Appends the lowercase hex digit for `n` to `s`.
pub fn append_hex_digit(s: &mut String, n: u8)
    requires
        n < 16,
    ensures
        final(s)@ == old(s)@ + seq![hex_char(n as int)],
{
    if n == 0 {
        proof { reveal_strlit("0"); }
        s.append("0");
    } else if n == 1 {
        proof { reveal_strlit("1"); }
        s.append("1");
    } else if n == 2 {
        proof { reveal_strlit("2"); }
        s.append("2");
    } else if n == 3 {
        proof { reveal_strlit("3"); }
        s.append("3");
    } else if n == 4 {
        proof { reveal_strlit("4"); }
        s.append("4");
    } else if n == 5 {
        proof { reveal_strlit("5"); }
        s.append("5");
    } else if n == 6 {
        proof { reveal_strlit("6"); }
        s.append("6");
    } else if n == 7 {
        proof { reveal_strlit("7"); }
        s.append("7");
    } else if n == 8 {
        proof { reveal_strlit("8"); }
        s.append("8");
    } else if n == 9 {
        proof { reveal_strlit("9"); }
        s.append("9");
    } else if n == 10 {
        proof { reveal_strlit("a"); }
        s.append("a");
    } else if n == 11 {
        proof { reveal_strlit("b"); }
        s.append("b");
    } else if n == 12 {
        proof { reveal_strlit("c"); }
        s.append("c");
    } else if n == 13 {
        proof { reveal_strlit("d"); }
        s.append("d");
    } else if n == 14 {
        proof { reveal_strlit("e"); }
        s.append("e");
    } else {
        proof { reveal_strlit("f"); }
        s.append("f");
    }
}

/// Appends the two hex digits of one byte to `s`.
pub fn append_hex_byte(s: &mut String, b: u8)
    ensures
        final(s)@ == old(s)@ + seq![hex_char(b as int / 16), hex_char(b as int % 16)],
{
    append_hex_digit(s, b / 16);
    append_hex_digit(s, b % 16);
}

/// Lowercase hex rendering of a byte slice.
pub fn hex_of_bytes(bytes: &[u8]) -> (r: String)
    ensures
        r@ == hex_chars_of(bytes@),
{
    let mut s = String::new();
    let mut i: usize = 0;
    while i < bytes.len()
        invariant
            i <= bytes@.len(),
            s@ == hex_chars_of(bytes@.take(i as int)),
        decreases bytes@.len() - i,
    {
        let b = bytes[i];
        append_hex_byte(&mut s, b);
        proof {
            lemma_hex_chars_snoc(bytes@, i as int);
        }
        i = i + 1;
    }
    proof {
        assert(bytes@.take(bytes@.len() as int) =~= bytes@);
    }
    s
}

/// Appending one byte to a prefix appends its two digits to the rendering.
proof fn lemma_hex_chars_snoc(bytes: Seq<u8>, i: int)
    requires
        0 <= i < bytes.len(),
    ensures
        hex_chars_of(bytes.take(i + 1)) == hex_chars_of(bytes.take(i)) + seq![
            hex_char(bytes[i] as int / 16),
            hex_char(bytes[i] as int % 16),
        ],
    decreases i,
{
    if i == 0 {
        assert(bytes.take(1) =~= seq![bytes[0]]);
        assert(bytes.take(1).skip(1) =~= Seq::<u8>::empty());
        assert(bytes.take(0) =~= Seq::<u8>::empty());
        assert(hex_chars_of(bytes.take(0)) =~= Seq::<char>::empty());
        assert(hex_chars_of(bytes.take(1)) =~= seq![
            hex_char(bytes[0] as int / 16),
            hex_char(bytes[0] as int % 16),
        ]);
    } else {
        lemma_hex_chars_snoc(bytes.skip(1), i - 1);
        assert(bytes.take(i + 1).skip(1) =~= bytes.skip(1).take(i));
        assert(bytes.take(i).skip(1) =~= bytes.skip(1).take(i - 1));
        assert(bytes.take(i + 1)[0] == bytes[0]);
        assert(bytes.take(i)[0] == bytes[0]);
        assert(bytes.skip(1)[i - 1] == bytes[i]);
    }
}

/// The numeric value of a lowercase or uppercase hex digit byte, if any.
pub open spec fn hex_val(b: u8) -> Option<u8> {
    if 48 <= b <= 57 {
        Some((b - 48) as u8)
    } else if 97 <= b <= 102 {
        Some((b - 97 + 10) as u8)
    } else if 65 <= b <= 70 {
        Some((b - 65 + 10) as u8)
    } else {
        None
    }
}

/// Parses one hex digit byte.
pub fn parse_hex_digit(b: u8) -> (r: Option<u8>)
    ensures
        r == hex_val(b),
{
    if b >= 48 && b <= 57 {
        Some(b - 48)
    } else if b >= 97 && b <= 102 {
        Some(b - 97 + 10)
    } else if b >= 65 && b <= 70 {
        Some(b - 65 + 10)
    } else {
        None
    }
}

/// Decimal digits of `n`, most significant first.
pub open spec fn dec_chars_of(n: int) -> Seq<char>
    decreases n,
{
    if n < 10 {
        seq![hex_char(if n < 0 { 0 } else { n })]
    } else {
        dec_chars_of(n / 10) + seq![hex_char(n % 10)]
    }
}

/// Renders `n` in decimal.
pub fn u64_to_string(n: u64) -> (r: String)
    ensures
        r@ == dec_chars_of(n as int),
{
    let mut digits: Vec<u8> = Vec::new();
    let mut m: u64 = n;
    loop
        invariant_except_break
            dec_chars_of(n as int) == dec_chars_of(m as int) + digits_as_chars(digits@),
            forall|j: int| 0 <= j < digits@.len() ==> digits@[j] < 10,
        ensures
            dec_chars_of(n as int) == digits_as_chars(digits@),
            forall|j: int| 0 <= j < digits@.len() ==> digits@[j] < 10,
        decreases m,
    {
        let d: u64 = m % 10;
        let m2: u64 = m / 10;
        proof {
            assert(digits@.insert(0, d as u8).skip(1) =~= digits@);
            assert(digits@.insert(0, d as u8)[0] == d as u8);
            assert(digits_as_chars(digits@.insert(0, d as u8)) =~= seq![
                hex_char(d as int),
            ] + digits_as_chars(digits@));
            if m < 10 {
                assert(dec_chars_of(m as int) == seq![hex_char(m as int)]);
            } else {
                assert(dec_chars_of(m as int) == dec_chars_of(m as int / 10) + seq![
                    hex_char(m as int % 10),
                ]);
            }
            if m2 == 0 {
                assert(dec_chars_of(n as int) =~= seq![hex_char(d as int)] + digits_as_chars(
                    digits@,
                ));
            } else {
                assert(dec_chars_of(n as int) =~= dec_chars_of(m2 as int) + (seq![
                    hex_char(d as int),
                ] + digits_as_chars(digits@)));
            }
        }
        digits.insert(0, d as u8);
        m = m2;
        if m == 0 {
            break;
        }
    }
    let mut s = String::new();
    let mut i: usize = 0;
    while i < digits.len()
        invariant
            i <= digits@.len(),
            forall|j: int| 0 <= j < digits@.len() ==> digits@[j] < 10,
            s@ == digits_as_chars(digits@.take(i as int)),
        decreases digits@.len() - i,
    {
        proof {
            lemma_digits_as_chars_snoc(digits@, i as int);
        }
        append_hex_digit(&mut s, digits[i]);
        i = i + 1;
    }
    proof {
        assert(digits@.take(digits@.len() as int) =~= digits@);
    }
    s
}

/// The characters of a digit sequence (each digit below 16).
pub open spec fn digits_as_chars(ds: Seq<u8>) -> Seq<char>
    decreases ds.len(),
{
    if ds.len() == 0 {
        Seq::empty()
    } else {
        seq![hex_char(ds[0] as int)] + digits_as_chars(ds.skip(1))
    }
}

proof fn lemma_digits_as_chars_snoc(ds: Seq<u8>, i: int)
    requires
        0 <= i < ds.len(),
    ensures
        digits_as_chars(ds.take(i + 1)) == digits_as_chars(ds.take(i)) + seq![
            hex_char(ds[i] as int),
        ],
    decreases i,
{
    if i == 0 {
        assert(ds.take(1) =~= seq![ds[0]]);
        assert(ds.take(1).skip(1) =~= Seq::<u8>::empty());
        assert(ds.take(0) =~= Seq::<u8>::empty());
        assert(digits_as_chars(ds.take(1)) =~= seq![hex_char(ds[0] as int)]);
    } else {
        lemma_digits_as_chars_snoc(ds.skip(1), i - 1);
        assert(ds.take(i + 1).skip(1) =~= ds.skip(1).take(i));
        assert(ds.take(i).skip(1) =~= ds.skip(1).take(i - 1));
        assert(ds.take(i + 1)[0] == ds[0]);
        assert(ds.take(i)[0] == ds[0]);
        assert(ds.skip(1)[i - 1] == ds[i]);
    }
}

} // verus!
