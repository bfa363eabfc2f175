use vstd::prelude::*;
use vstd::string::StringExecFns;

verus! {

/// The lower-case hexadecimal digits.
pub open spec fn hex_digits() -> Seq<char> {
    seq!['0', '1', '2', '3', '4', '5', '6', '7', '8', '9', 'a', 'b', 'c', 'd', 'e', 'f']
}

/// A byte as two hexadecimal digits.
pub open spec fn hex_byte(b: u8) -> Seq<char> {
    seq![hex_digits()[b as int / 16], hex_digits()[b as int % 16]]
}

/// The bytes as two-digit hexadecimal numbers, separated by ", ".
pub open spec fn hex_list(bs: Seq<u8>) -> Seq<char>
    decreases bs.len(),
{
    if bs.len() == 0 {
        Seq::empty()
    } else if bs.len() == 1 {
        hex_byte(bs[0])
    } else {
        hex_list(bs.drop_last()) + seq![',', ' '] + hex_byte(bs.last())
    }
}

fn push_hex_digit(s: &mut String, n: u8)
    requires
        n < 16,
    ensures
        final(s)@ == old(s)@.push(hex_digits()[n as int]),
{
    let digit = if n == 0 {
        "0"
    } else if n == 1 {
        "1"
    } else if n == 2 {
        "2"
    } else if n == 3 {
        "3"
    } else if n == 4 {
        "4"
    } else if n == 5 {
        "5"
    } else if n == 6 {
        "6"
    } else if n == 7 {
        "7"
    } else if n == 8 {
        "8"
    } else if n == 9 {
        "9"
    } else if n == 10 {
        "a"
    } else if n == 11 {
        "b"
    } else if n == 12 {
        "c"
    } else if n == 13 {
        "d"
    } else if n == 14 {
        "e"
    } else {
        "f"
    };
    proof {
        reveal_strlit("0");
        reveal_strlit("1");
        reveal_strlit("2");
        reveal_strlit("3");
        reveal_strlit("4");
        reveal_strlit("5");
        reveal_strlit("6");
        reveal_strlit("7");
        reveal_strlit("8");
        reveal_strlit("9");
        reveal_strlit("a");
        reveal_strlit("b");
        reveal_strlit("c");
        reveal_strlit("d");
        reveal_strlit("e");
        reveal_strlit("f");
    }
    assert(digit@ =~= seq![hex_digits()[n as int]]);
    s.append(digit);
}

/// The bytes as `[xx, yy, ...]` in hexadecimal.
pub fn bytes_to_debug_string(bytes: &[u8]) -> (r: String)
    ensures
        r@ == seq!['['] + hex_list(bytes@) + seq![']'],
{
    let mut result = String::new();
    proof {
        reveal_strlit("[");
        reveal_strlit("]");
        reveal_strlit(", ");
    }
    result.append("[");
    let mut i: usize = 0;
    while i < bytes.len()
        invariant
            i <= bytes@.len(),
            result@ == seq!['['] + hex_list(bytes@.take(i as int)),
        decreases bytes@.len() - i,
    {
        let ghost before = result@;
        proof {
            reveal_strlit(", ");
        }
        if i > 0 {
            result.append(", ");
        }
        let ghost sep = result@;
        let b = bytes[i];
        push_hex_digit(&mut result, b / 16);
        push_hex_digit(&mut result, b % 16);
        assert(result@ =~= sep + hex_byte(b));
        let ghost next = bytes@.take(i + 1);
        assert(next.drop_last() =~= bytes@.take(i as int));
        assert(next.last() == b);
        if i == 0 {
            assert(next.len() == 1 && next[0] == b);
            assert(hex_list(next) == hex_byte(b));
            assert(hex_list(bytes@.take(0)) =~= Seq::<char>::empty());
            assert(sep =~= seq!['[']);
        } else {
            assert(hex_list(next) == hex_list(bytes@.take(i as int)) + seq![',', ' '] + hex_byte(b));
            assert(sep =~= before + seq![',', ' ']);
        }
        i = i + 1;
        assert(result@ =~= seq!['['] + hex_list(bytes@.take(i as int)));
    }
    assert(bytes@.take(i as int) =~= bytes@);
    result.append("]");
    result
}

} // verus!
