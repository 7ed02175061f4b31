//! Verified construction of the strings the pass needs: the annotation key
//! `"osm_<kind>_id"` and the generated geometry id `"geo:<kind>:osm:<n>"`.

use vstd::prelude::*;

verus! {

/// The character standing for one decimal digit.
pub open spec fn digit_char(d: nat) -> char {
    if d == 0 {
        '0'
    } else if d == 1 {
        '1'
    } else if d == 2 {
        '2'
    } else if d == 3 {
        '3'
    } else if d == 4 {
        '4'
    } else if d == 5 {
        '5'
    } else if d == 6 {
        '6'
    } else if d == 7 {
        '7'
    } else if d == 8 {
        '8'
    } else {
        '9'
    }
}

/// The decimal writing of `n`, most significant digit first, no leading zero
/// (`0` itself is written `"0"`).
pub open spec fn decimal_digits(n: nat) -> Seq<char>
    decreases n,
{
    if n < 10 {
        seq![digit_char(n)]
    } else {
        decimal_digits(n / 10).push(digit_char(n % 10))
    }
}

/// The key a transit entity's codes are searched for: `"osm_<kind>_id"`.
pub open spec fn code_key_model(object_type: Seq<char>) -> Seq<char> {
    "osm_"@ + object_type + "_id"@
}

/// The id given to the `n`-th generated geometry of one kind:
/// `"geo:<kind>:osm:<n>"`.
pub open spec fn geometry_id_model(object_type: Seq<char>, n: nat) -> Seq<char> {
    "geo:"@ + object_type + ":osm:"@ + decimal_digits(n)
}

fn digit_str(d: u64) -> (r: &'static str)
    requires
        d < 10,
    ensures
        r@ == seq![digit_char(d as nat)],
{
    proof {
        reveal_strlit("0");
        reveal_strlit("1");
        reveal_strlit("2");
        reveal_strlit("3");
        reveal_strlit("4");
        reveal_strlit("5");
        reveal_strlit("6");
        reveal_strlit("7");
        reveal_strlit("8");
        reveal_strlit("9");
    }
    let r = match d {
        0 => "0",
        1 => "1",
        2 => "2",
        3 => "3",
        4 => "4",
        5 => "5",
        6 => "6",
        7 => "7",
        8 => "8",
        _ => "9",
    };
    proof {
        assert(r@ =~= seq![digit_char(d as nat)]);
    }
    r
}

/// Writes `n` in decimal.
pub fn u64_to_string(n: u64) -> (r: String)
    ensures
        r@ == decimal_digits(n as nat),
    decreases n,
{
    if n < 10 {
        String::from_str(digit_str(n))
    } else {
        let mut s = u64_to_string(n / 10);
        s.append(digit_str(n % 10));
        proof {
            assert(s@ =~= decimal_digits(n as nat));
        }
        s
    }
}

/// Builds the annotation key `"osm_<kind>_id"`.
pub fn code_key(object_type: &str) -> (r: String)
    ensures
        r@ == code_key_model(object_type@),
{
    let mut s = String::from_str("osm_");
    s.append(object_type);
    s.append("_id");
    proof {
        assert(s@ =~= code_key_model(object_type@));
    }
    s
}

/// Builds the geometry id `"geo:<kind>:osm:<n>"`.
pub fn geometry_id(object_type: &str, n: u64) -> (r: String)
    ensures
        r@ == geometry_id_model(object_type@, n as nat),
{
    let mut s = String::from_str("geo:");
    s.append(object_type);
    s.append(":osm:");
    let digits = u64_to_string(n);
    s.append(digits.as_str());
    proof {
        assert(s@ =~= geometry_id_model(object_type@, n as nat));
    }
    s
}

/// Decimal writings are distinct for distinct numbers.
pub proof fn lemma_decimal_digits_injective(m: nat, n: nat)
    requires
        decimal_digits(m) == decimal_digits(n),
    ensures
        m == n,
    decreases m,
{
    assert(forall|a: nat, b: nat|
        a < 10 && b < 10 && digit_char(a) == digit_char(b) ==> a == b);
    if m < 10 && n < 10 {
        assert(decimal_digits(m) =~= seq![digit_char(m)]);
        assert(decimal_digits(n) =~= seq![digit_char(n)]);
        assert(decimal_digits(m)[0] == digit_char(m));
        assert(decimal_digits(n)[0] == digit_char(n));
        assert(digit_char(m) == digit_char(n));
        assert(m == n);
    } else if m < 10 && 10 <= n {
        assert(decimal_digits(m).len() == 1);
        assert(decimal_digits(n).len() == decimal_digits(n / 10).len() + 1);
        assert(decimal_digits(n / 10).len() >= 1) by {
            lemma_decimal_digits_len(n / 10);
        }
    } else if 10 <= m && n < 10 {
        assert(decimal_digits(n).len() == 1);
        assert(decimal_digits(m).len() == decimal_digits(m / 10).len() + 1);
        assert(decimal_digits(m / 10).len() >= 1) by {
            lemma_decimal_digits_len(m / 10);
        }
    } else {
        let dm = decimal_digits(m / 10);
        let dn = decimal_digits(n / 10);
        assert(dm.push(digit_char(m % 10)).last() == digit_char(m % 10));
        assert(dn.push(digit_char(n % 10)).last() == digit_char(n % 10));
        assert(m % 10 == n % 10);
        assert(dm.push(digit_char(m % 10)).drop_last() =~= dm);
        assert(dn.push(digit_char(n % 10)).drop_last() =~= dn);
        assert(dm == dn);
        lemma_decimal_digits_injective(m / 10, n / 10);
        assert(m == 10 * (m / 10) + m % 10) by (nonlinear_arith);
        assert(n == 10 * (n / 10) + n % 10) by (nonlinear_arith);
        assert(m == n);
    }
}

/// A decimal writing holds at least one character.
pub proof fn lemma_decimal_digits_len(n: nat)
    ensures
        decimal_digits(n).len() >= 1,
    decreases n,
{
    if n >= 10 {
        lemma_decimal_digits_len(n / 10);
    }
}

/// Generated geometry ids of one kind are distinct for distinct counters.
pub proof fn lemma_geometry_id_injective(object_type: Seq<char>, m: nat, n: nat)
    requires
        geometry_id_model(object_type, m) == geometry_id_model(object_type, n),
    ensures
        m == n,
{
    let prefix = "geo:"@ + object_type + ":osm:"@;
    let a = prefix + decimal_digits(m);
    let b = prefix + decimal_digits(n);
    assert(geometry_id_model(object_type, m) =~= a);
    assert(geometry_id_model(object_type, n) =~= b);
    lemma_decimal_digits_len(m);
    lemma_decimal_digits_len(n);
    if decimal_digits(m).len() <= decimal_digits(n).len() {
        assert(decimal_digits(m) =~= a.subrange(
            prefix.len() as int,
            prefix.len() + decimal_digits(m).len() as int,
        ));
        assert(decimal_digits(n) =~= b.subrange(
            prefix.len() as int,
            prefix.len() + decimal_digits(n).len() as int,
        ));
        assert(a.len() == b.len());
        assert(decimal_digits(m) =~= decimal_digits(n));
    } else {
        assert(a.len() == b.len());
        assert(decimal_digits(m).len() == decimal_digits(n).len());
    }
    lemma_decimal_digits_injective(m, n);
}

} // verus!
