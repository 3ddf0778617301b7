//! Upper-case hexadecimal rendering of byte strings, and its injectivity.

use vstd::prelude::*;

verus! {

/// The character standing for one hex digit value, upper case.
pub open spec fn hex_digit_char(n: int) -> char {
    if n == 0 {
        '0'
    } else if n == 1 {
        '1'
    } else if n == 2 {
        '2'
    } else if n == 3 {
        '3'
    } else if n == 4 {
        '4'
    } else if n == 5 {
        '5'
    } else if n == 6 {
        '6'
    } else if n == 7 {
        '7'
    } else if n == 8 {
        '8'
    } else if n == 9 {
        '9'
    } else if n == 10 {
        'A'
    } else if n == 11 {
        'B'
    } else if n == 12 {
        'C'
    } else if n == 13 {
        'D'
    } else if n == 14 {
        'E'
    } else {
        'F'
    }
}

/// Two upper-case hex characters for every byte, high nibble first.
pub open spec fn hex_of(bytes: Seq<u8>) -> Seq<char>
    decreases bytes.len(),
{
    if bytes.len() == 0 {
        Seq::empty()
    } else {
        seq![
            hex_digit_char(bytes[0] as int / 16),
            hex_digit_char(bytes[0] as int % 16),
        ] + hex_of(bytes.drop_first())
    }
}

pub proof fn lemma_hex_of_len(bytes: Seq<u8>)
    ensures
        hex_of(bytes).len() == 2 * bytes.len(),
    decreases bytes.len(),
{
    if bytes.len() > 0 {
        lemma_hex_of_len(bytes.drop_first());
    }
}

/// Appending one byte appends its two hex characters.
pub proof fn lemma_hex_of_push(bytes: Seq<u8>, b: u8)
    ensures
        hex_of(bytes.push(b)) == hex_of(bytes) + seq![
            hex_digit_char(b as int / 16),
            hex_digit_char(b as int % 16),
        ],
    decreases bytes.len(),
{
    let two = seq![hex_digit_char(b as int / 16), hex_digit_char(b as int % 16)];
    if bytes.len() == 0 {
        assert(bytes.push(b)[0] == b);
        assert(bytes.push(b).drop_first() =~= Seq::<u8>::empty());
        assert(hex_of(bytes.push(b).drop_first()) =~= Seq::<char>::empty());
        assert(hex_of(bytes) =~= Seq::<char>::empty());
        assert(hex_of(bytes.push(b)) =~= hex_of(bytes) + two);
    } else {
        lemma_hex_of_push(bytes.drop_first(), b);
        assert(bytes.push(b)[0] == bytes[0]);
        assert(bytes.push(b).drop_first() =~= bytes.drop_first().push(b));
        let head = seq![
            hex_digit_char(bytes[0] as int / 16),
            hex_digit_char(bytes[0] as int % 16),
        ];
        assert(hex_of(bytes.push(b)) == head + (hex_of(bytes.drop_first()) + two));
        assert(head + (hex_of(bytes.drop_first()) + two) =~= (head + hex_of(bytes.drop_first()))
            + two);
    }
}

proof fn lemma_hex_digit_char_injective(a: int, b: int)
    requires
        0 <= a < 16,
        0 <= b < 16,
        hex_digit_char(a) == hex_digit_char(b),
    ensures
        a == b,
{
}

/// Distinct byte strings render to distinct hex strings.
pub proof fn lemma_hex_of_injective(a: Seq<u8>, b: Seq<u8>)
    requires
        hex_of(a) == hex_of(b),
    ensures
        a == b,
    decreases a.len(),
{
    lemma_hex_of_len(a);
    lemma_hex_of_len(b);
    if a.len() == 0 {
        assert(a =~= b);
    } else {
        let ha = seq![hex_digit_char(a[0] as int / 16), hex_digit_char(a[0] as int % 16)];
        let hb = seq![hex_digit_char(b[0] as int / 16), hex_digit_char(b[0] as int % 16)];
        assert(hex_of(a) == ha + hex_of(a.drop_first()));
        assert(hex_of(b) == hb + hex_of(b.drop_first()));
        assert(hex_of(a)[0] == hex_of(b)[0]);
        assert(hex_of(a)[1] == hex_of(b)[1]);
        assert(hex_of(a)[0] == hex_digit_char(a[0] as int / 16));
        assert(hex_of(a)[1] == hex_digit_char(a[0] as int % 16));
        assert(hex_of(b)[0] == hex_digit_char(b[0] as int / 16));
        assert(hex_of(b)[1] == hex_digit_char(b[0] as int % 16));
        lemma_hex_digit_char_injective(a[0] as int / 16, b[0] as int / 16);
        lemma_hex_digit_char_injective(a[0] as int % 16, b[0] as int % 16);
        assert(a[0] == b[0]);
        assert(hex_of(a.drop_first()) =~= hex_of(a).subrange(2, hex_of(a).len() as int));
        assert(hex_of(b.drop_first()) =~= hex_of(b).subrange(2, hex_of(b).len() as int));
        lemma_hex_of_injective(a.drop_first(), b.drop_first());
        assert forall|i: int| 0 <= i < a.len() implies a[i] == b[i] by {
            if i > 0 {
                assert(a[i] == a.drop_first()[i - 1]);
                assert(b[i] == b.drop_first()[i - 1]);
            }
        }
        assert(a =~= b);
    }
}

/// Relies on std's `String::push`: it appends exactly the given character.
#[verifier::external_body]
pub(crate) fn push_char(s: &mut String, c: char)
    ensures
        final(s)@ == old(s)@.push(c),
{
    s.push(c);
}

fn hex_digit(n: u8) -> (c: char)
    requires
        n < 16,
    ensures
        c == hex_digit_char(n as int),
{
    match n {
        0 => '0',
        1 => '1',
        2 => '2',
        3 => '3',
        4 => '4',
        5 => '5',
        6 => '6',
        7 => '7',
        8 => '8',
        9 => '9',
        10 => 'A',
        11 => 'B',
        12 => 'C',
        13 => 'D',
        14 => 'E',
        _ => 'F',
    }
}

/// Render a byte string as upper-case hex, two characters per byte.
#[verifier::loop_isolation(false)]
pub fn to_upper_hex(bytes: &Vec<u8>) -> (r: String)
    ensures
        r@ == hex_of(bytes@),
        r@.len() == 2 * bytes@.len(),
{
    proof {
        lemma_hex_of_len(bytes@);
    }
    let mut s = String::new();
    let n = bytes.len();
    let mut i: usize = 0;
    proof {
        assert(bytes@.take(0) =~= Seq::<u8>::empty());
    }
    while i < n
        invariant
            i <= n,
            s@ == hex_of(bytes@.take(i as int)),
        decreases n - i,
    {
        let b = bytes[i];
        proof {
            assert(bytes@.take(i + 1) =~= bytes@.take(i as int).push(bytes@[i as int]));
            lemma_hex_of_push(bytes@.take(i as int), bytes@[i as int]);
        }
        push_char(&mut s, hex_digit(b / 16));
        push_char(&mut s, hex_digit(b % 16));
        proof {
            assert(s@ =~= hex_of(bytes@.take(i + 1)));
        }
        i += 1;
    }
    proof {
        assert(bytes@.take(n as int) =~= bytes@);
    }
    s
}

} // verus!
