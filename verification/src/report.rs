use vstd::prelude::*;

verus! {

/// The character of decimal digit `d` (for `d` below 10).
pub open spec fn digit_char(d: nat) -> char {
    ('0' as nat + d) as char
}

/// The decimal notation of `n`, without leading zeros.
pub open spec fn decimal(n: nat) -> Seq<char>
    decreases n,
{
    if n < 10 {
        seq![digit_char(n)]
    } else {
        decimal(n / 10).push(digit_char(n % 10))
    }
}

/// The amount that `map` gives `key`: its first entry for that key, 0 when there is none.
pub open spec fn amount_for(map: Seq<(String, usize)>, key: Seq<char>) -> nat
    decreases map.len(),
{
    if map.len() == 0 {
        0
    } else if map[0].0@ == key {
        map[0].1 as nat
    } else {
        amount_for(map.drop_first(), key)
    }
}

/// `key:amount` for one key.
pub open spec fn key_amount(map: Seq<(String, usize)>, key: Seq<char>) -> Seq<char> {
    key + seq![':'] + decimal(amount_for(map, key))
}

/// `key:amount` for each of `keys`, separated by single spaces.
pub open spec fn key_amounts(map: Seq<(String, usize)>, keys: Seq<String>) -> Seq<char>
    decreases keys.len(),
{
    if keys.len() == 0 {
        Seq::empty()
    } else if keys.len() == 1 {
        key_amount(map, keys[0]@)
    } else {
        key_amounts(map, keys.drop_last()) + seq![' '] + key_amount(map, keys.last()@)
    }
}

/// The text shown for a resource map: `-` when there is none, otherwise `key:amount`
/// for each key in turn.
pub open spec fn resource_text(map: Option<Seq<(String, usize)>>, keys: Seq<String>) -> Seq<char> {
    match map {
        None => seq!['-'],
        Some(m) => key_amounts(m, keys),
    }
}

/// `String::push`: appends one character.
#[verifier::external_body]
fn push_char(s: &mut String, c: char)
    ensures
        final(s)@ == old(s)@.push(c),
{
    s.push(c);
}

/// `String::push_str`: appends a string slice.
#[verifier::external_body]
fn push_text(s: &mut String, t: &str)
    ensures
        final(s)@ == old(s)@ + t@,
{
    s.push_str(t);
}

/// Appends the decimal notation of `n`.
fn push_decimal(s: &mut String, n: usize)
    ensures
        final(s)@ == old(s)@ + decimal(n as nat),
    decreases n,
{
    if n >= 10 {
        push_decimal(s, n / 10);
    }
    let c = match n % 10 {
        0 => '0',
        1 => '1',
        2 => '2',
        3 => '3',
        4 => '4',
        5 => '5',
        6 => '6',
        7 => '7',
        8 => '8',
        _ => '9',
    };
    proof {
        assert(c == digit_char((n % 10) as nat));
    }
    push_char(s, c);
    proof {
        if n >= 10 {
            assert(decimal(n as nat) == decimal((n / 10) as nat).push(digit_char((n % 10) as nat)));
        }
    }
}

fn amount_in_map(map: &Vec<(String, usize)>, key: &String) -> (a: usize)
    ensures
        a == amount_for(map@, key@),
{
    let mut i: usize = 0;
    assert(map@.skip(0) =~= map@);
    while i < map.len()
        invariant
            i <= map@.len(),
            amount_for(map@, key@) == amount_for(map@.skip(i as int), key@),
        decreases map@.len() - i,
    {
        proof {
            assert(map@.skip(i as int).drop_first() =~= map@.skip(i + 1));
        }
        if map[i].0 == *key {
            return map[i].1;
        }
        i = i + 1;
    }
    0
}

/// The text shown for a resource map, such as `printer:2 disk:0`: `key:amount` for each of
/// `keys` in turn (0 for a key the map lacks), separated by spaces; `-` when there is no map.
pub fn format_resource_map(map: Option<&Vec<(String, usize)>>, keys: &Vec<String>) -> (s: String)
    ensures
        s@ == resource_text(
            match map {
                Some(m) => Some(m@),
                None => None,
            },
            keys@,
        ),
{
    match map {
        None => {
            let mut s = String::new();
            push_char(&mut s, '-');
            s
        },
        Some(m) => {
            let mut s = String::new();
            let mut i: usize = 0;
            while i < keys.len()
                invariant
                    i <= keys@.len(),
                    s@ == key_amounts(m@, keys@.take(i as int)),
                decreases keys@.len() - i,
            {
                proof {
                    assert(keys@.take(i + 1).drop_last() =~= keys@.take(i as int));
                    assert(keys@.take(i + 1).last() == keys@[i as int]);
                }
                if i > 0 {
                    push_char(&mut s, ' ');
                }
                push_text(&mut s, keys[i].as_str());
                push_char(&mut s, ':');
                push_decimal(&mut s, amount_in_map(m, &keys[i]));
                proof {
                    assert(s@ =~= key_amounts(m@, keys@.take(i + 1)));
                }
                i = i + 1;
            }
            assert(keys@.take(i as int) =~= keys@);
            s
        },
    }
}

} // verus!
