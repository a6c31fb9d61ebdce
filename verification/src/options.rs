//! Reading the options of a built-in: a JSON object whose members name its settings.
use crate::atom::Payload;
use crate::text::{decimal_bytes, same};
use vstd::prelude::*;

verus! {

/// How often `x` occurs in `s`.
pub open spec fn occurs(s: Seq<Seq<char>>, x: Seq<char>) -> nat
    decreases s.len(),
{
    if s.len() == 0 {
        0
    } else {
        occurs(s.drop_last(), x) + if s.last() == x {
            1nat
        } else {
            0nat
        }
    }
}

/// Whether the member names are exactly `fields`, each once: sorted, they equal the sorted
/// field list.
pub open spec fn fits_schema(keys: Seq<Seq<char>>, fields: Seq<Seq<char>>) -> bool {
    &&& keys.len() == fields.len()
    &&& forall|i: int| 0 <= i < fields.len() ==> occurs(keys, #[trigger] fields[i]) == 1
}

/// The names of an object's members, in order.
pub open spec fn member_keys(members: Seq<(String, Payload)>) -> Seq<Seq<char>> {
    members.map_values(|m: (String, Payload)| m.0@)
}

/// The value of the first member named `name`.
pub open spec fn member(members: Seq<(String, Payload)>, name: Seq<char>) -> Option<Payload>
    decreases members.len(),
{
    if members.len() == 0 {
        None
    } else if members[0].0@ == name {
        Some(members[0].1)
    } else {
        member(members.drop_first(), name)
    }
}

/// The value of the decimal digits `b` (bytes 48..=57), most significant first.
pub open spec fn digits_value(b: Seq<u8>) -> nat
    decreases b.len(),
{
    if b.len() == 0 {
        0
    } else {
        digits_value(b.drop_last()) * 10 + (b.last() - 48) as nat
    }
}

/// Whether `b` is a non-empty run of decimal digits.
pub open spec fn all_digits(b: Seq<u8>) -> bool {
    b.len() > 0 && forall|i: int| 0 <= i < b.len() ==> 48 <= #[trigger] b[i] <= 57
}

/// The non-empty text of a value, if it is one.
pub open spec fn text_value(p: Option<Payload>) -> Option<Seq<char>> {
    match p {
        Some(Payload::Text(s)) => if s@.len() > 0 {
            Some(s@)
        } else {
            None
        },
        _ => None,
    }
}

/// The unsigned integer a value holds, if it is one that fits `u64`, as a JSON reader gives
/// it: a number written as decimal digits alone.
pub open spec fn number_value(p: Option<Payload>) -> Option<u64> {
    match p {
        Some(Payload::Number(n)) => {
            let b = crate::text::bytes_of(n@);
            if all_digits(b) && digits_value(b) <= u64::MAX {
                Some(digits_value(b) as u64)
            } else {
                None
            }
        },
        _ => None,
    }
}

/// Whether the member names are exactly `fields`, each once.
pub fn fits_fields(members: &Vec<(String, Payload)>, fields: &Vec<&str>) -> (r: bool)
    ensures
        r == fits_schema(member_keys(members@), fields@.map_values(|f: &str| f@)),
{
    let ghost keys = member_keys(members@);
    let ghost wanted = fields@.map_values(|f: &str| f@);
    if members.len() != fields.len() {
        return false;
    }
    let mut i: usize = 0;
    while i < fields.len()
        invariant
            keys == member_keys(members@),
            wanted == fields@.map_values(|f: &str| f@),
            keys.len() == wanted.len(),
            i <= wanted.len(),
            forall|j: int| 0 <= j < i ==> occurs(keys, #[trigger] wanted[j]) == 1,
        decreases wanted.len() - i,
    {
        let field = fields[i];
        let mut count: usize = 0;
        let mut k: usize = 0;
        while k < members.len()
            invariant
                keys == member_keys(members@),
                k <= members@.len(),
                count == occurs(keys.subrange(0, k as int), field@),
                count <= k,
            decreases members@.len() - k,
        {
            proof {
                let t = keys.subrange(0, k + 1);
                assert(t.drop_last() =~= keys.subrange(0, k as int));
            }
            if same(members[k].0.as_str(), field) {
                count = count + 1;
            }
            k = k + 1;
        }
        assert(keys.subrange(0, members@.len() as int) =~= keys);
        assert(wanted[i as int] == field@);
        if count != 1 {
            return false;
        }
        i = i + 1;
    }
    true
}

/// The value of the first member named `name`.
pub fn find_member<'a>(members: &'a Vec<(String, Payload)>, name: &str) -> (r: Option<&'a Payload>)
    ensures
        match r {
            Some(p) => member(members@, name@) == Some(*p),
            None => member(members@, name@) is None,
        },
{
    let mut i: usize = 0;
    assert(members@.skip(0) =~= members@);
    while i < members.len()
        invariant
            i <= members@.len(),
            member(members@, name@) == member(members@.skip(i as int), name@),
        decreases members@.len() - i,
    {
        proof {
            assert(members@.skip(i as int).drop_first() =~= members@.skip(i + 1));
        }
        if same(members[i].0.as_str(), name) {
            return Some(&members[i].1);
        }
        i = i + 1;
    }
    None
}

/// The non-empty text of a value.
pub fn text_of(p: Option<&Payload>) -> (r: Option<String>)
    ensures
        match r {
            Some(t) => text_value(match p {
                Some(q) => Some(*q),
                None => None,
            }) == Some(t@),
            None => text_value(match p {
                Some(q) => Some(*q),
                None => None,
            }) is None,
        },
{
    match p {
        Some(Payload::Text(s)) => if !s.as_str().is_empty() {
            Some(s.clone())
        } else {
            None
        },
        _ => None,
    }
}

/// The unsigned integer a value holds.
pub fn number_of(p: Option<&Payload>) -> (r: Option<u64>)
    ensures
        r == number_value(match p {
            Some(q) => Some(*q),
            None => None,
        }),
{
    match p {
        Some(Payload::Number(n)) => {
            let b = n.as_str().as_bytes();
            assert(b@ == crate::text::bytes_of(n@));
            if b.len() == 0 {
                return None;
            }
            let mut value: u64 = 0;
            let mut i: usize = 0;
            while i < b.len()
                invariant
                    number_value(match p {
                        Some(q) => Some(*q),
                        None => None,
                    }) == (if all_digits(b@) && digits_value(b@) <= u64::MAX {
                        Some(digits_value(b@) as u64)
                    } else {
                        None
                    }),
                    b@.len() > 0,
                    i <= b@.len(),
                    forall|j: int| 0 <= j < i ==> 48 <= #[trigger] b@[j] <= 57,
                    value == digits_value(b@.take(i as int)),
                decreases b@.len() - i,
            {
                let d = b[i];
                proof {
                    let t = b@.take(i + 1);
                    assert(t.drop_last() =~= b@.take(i as int));
                }
                if d < 48 || d > 57 {
                    proof {
                        assert(!all_digits(b@));
                    }
                    return None;
                }
                let digit = (d - 48) as u64;
                if value > (u64::MAX - digit) / 10 {
                    proof {
                        let t = b@.take(i + 1);
                        assert(t.last() == d);
                        assert(digits_value(t) == value * 10 + digit);
                        lemma_digits_grow(b@, i as int + 1);
                        assert(value * 10 + digit > u64::MAX) by (nonlinear_arith)
                            requires
                                value > (u64::MAX - digit) / 10,
                                digit <= 9,
                        ;
                    }
                    return None;
                }
                value = value * 10 + digit;
                i = i + 1;
            }
            assert(b@.take(b@.len() as int) =~= b@);
            Some(value)
        },
        _ => None,
    }
}

/// Digits that continue a prefix of too great a value keep the value too great.
pub proof fn lemma_digits_grow(b: Seq<u8>, n: int)
    requires
        0 <= n <= b.len(),
        forall|i: int| 0 <= i < b.len() ==> 48 <= #[trigger] b[i] <= 57 || i >= n,
    ensures
        all_digits(b) ==> digits_value(b) >= digits_value(b.take(n)),
    decreases b.len() - n,
{
    if n < b.len() && all_digits(b) {
        let t = b.take(n + 1);
        assert(t.drop_last() =~= b.take(n));
        lemma_digits_grow(b, n + 1);
        assert(digits_value(b.take(n + 1)) >= digits_value(b.take(n)));
    } else if n == b.len() {
        assert(b.take(n) =~= b);
    }
}

/// A decimal rendering is a run of digits with the value it renders.
pub proof fn lemma_decimal_digits(n: nat)
    ensures
        all_digits(decimal_bytes(n)),
        digits_value(decimal_bytes(n)) == n,
    decreases n,
{
    if n >= 10 {
        lemma_decimal_digits(n / 10);
        let b = decimal_bytes(n);
        assert(b.drop_last() =~= decimal_bytes(n / 10));
        assert(n == (n / 10) * 10 + n % 10) by (nonlinear_arith);
        assert(b.last() == (48 + n % 10) as u8);
        assert(b.last() - 48 == n % 10);
        assert(digits_value(b) == digits_value(b.drop_last()) * 10 + (b.last() - 48) as nat);
    } else {
        let b = decimal_bytes(n);
        assert(b.drop_last() =~= Seq::<u8>::empty());
        assert(digits_value(b.drop_last()) == 0);
        assert(b.last() == (48 + n) as u8);
        assert(b.last() - 48 == n);
        assert(digits_value(b) == digits_value(b.drop_last()) * 10 + (b.last() - 48) as nat);
    }
}

} // verus!
