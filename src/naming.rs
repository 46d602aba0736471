use vstd::prelude::*;

verus! {

/// The decimal digit character of `d` (taken as 9 above 9).
pub open spec fn digit_char(d: nat) -> char {
    if d == 0 {
        '0'
    } else if d == 1 {
        '1'
    } else if d == 2 {
        '2'
    } else if d == 3 {
        '3'
    } else if d == 4 {
        '4'
    } else if d == 5 {
        '5'
    } else if d == 6 {
        '6'
    } else if d == 7 {
        '7'
    } else if d == 8 {
        '8'
    } else {
        '9'
    }
}

/// Whether `c` is a decimal digit.
pub open spec fn is_digit(c: char) -> bool {
    c == '0' || c == '1' || c == '2' || c == '3' || c == '4' || c == '5' || c == '6' || c == '7'
        || c == '8' || c == '9'
}

/// The value of a decimal digit character.
pub open spec fn digit_value(c: char) -> nat {
    if c == '1' {
        1
    } else if c == '2' {
        2
    } else if c == '3' {
        3
    } else if c == '4' {
        4
    } else if c == '5' {
        5
    } else if c == '6' {
        6
    } else if c == '7' {
        7
    } else if c == '8' {
        8
    } else if c == '9' {
        9
    } else {
        0
    }
}

/// The decimal digits of `n`, most significant first, without leading zeros.
pub open spec fn decimal(n: nat) -> Seq<char>
    decreases n,
{
    if n < 10 {
        seq![digit_char(n)]
    } else {
        decimal(n / 10).push(digit_char(n % 10))
    }
}

/// The number that a sequence of decimal digits writes.
pub open spec fn digits_value(ds: Seq<char>) -> nat
    decreases ds.len(),
{
    if ds.len() == 0 {
        0
    } else {
        digits_value(ds.drop_last()) * 10 + digit_value(ds.last())
    }
}

/// The suffix of a segment file name.
pub open spec fn log_suffix() -> Seq<char> {
    seq!['.', 'l', 'o', 'g']
}

/// The file name of segment `gen`: `<gen>.log`.
pub open spec fn log_name(gen: u64) -> Seq<char> {
    decimal(gen as nat) + log_suffix()
}

/// The generation that a file name names: one or more decimal digits, then
/// `.log`, with a value that fits a `u64`; `None` for any other name.
pub open spec fn parse_log_name_spec(s: Seq<char>) -> Option<u64> {
    if s.len() > 4 && s.subrange(s.len() - 4, s.len() as int) == log_suffix() && (forall|i: int|
        0 <= i < s.len() - 4 ==> is_digit(#[trigger] s[i])) && digits_value(s.subrange(0, s.len() - 4))
        <= u64::MAX {
        Some(digits_value(s.subrange(0, s.len() - 4)) as u64)
    } else {
        None
    }
}

fn digit_str(d: u64) -> (r: &'static str)
    requires
        d < 10,
    ensures
        r@ == seq![digit_char(d as nat)],
{
    proof {
        reveal_strlit("0");
        reveal_strlit("1");
        reveal_strlit("2");
        reveal_strlit("3");
        reveal_strlit("4");
        reveal_strlit("5");
        reveal_strlit("6");
        reveal_strlit("7");
        reveal_strlit("8");
        reveal_strlit("9");
    }
    if d == 0 {
        "0"
    } else if d == 1 {
        "1"
    } else if d == 2 {
        "2"
    } else if d == 3 {
        "3"
    } else if d == 4 {
        "4"
    } else if d == 5 {
        "5"
    } else if d == 6 {
        "6"
    } else if d == 7 {
        "7"
    } else if d == 8 {
        "8"
    } else {
        "9"
    }
}

fn push_decimal(s: &mut String, n: u64)
    ensures
        final(s)@ == old(s)@ + decimal(n as nat),
    decreases n,
{
    if n >= 10 {
        push_decimal(s, n / 10);
    }
    s.append(digit_str(n % 10));
    proof {
        if n >= 10 {
            assert(decimal(n as nat) == decimal((n / 10) as nat).push(digit_char((n % 10) as nat)));
        }
    }
    assert(final(s)@ =~= old(s)@ + decimal(n as nat));
}

/// The file name of the segment of generation `gen`.
pub fn log_path(gen: u64) -> (r: String)
    ensures
        r@ == log_name(gen),
{
    let mut s = String::new();
    push_decimal(&mut s, gen);
    proof {
        reveal_strlit(".log");
    }
    s.append(".log");
    assert(s@ =~= log_name(gen));
    s
}

fn char_digit(c: char) -> (r: Option<u64>)
    ensures
        r is Some <==> is_digit(c),
        r matches Some(d) ==> d == digit_value(c) && d < 10,
{
    if c == '0' {
        Some(0)
    } else if c == '1' {
        Some(1)
    } else if c == '2' {
        Some(2)
    } else if c == '3' {
        Some(3)
    } else if c == '4' {
        Some(4)
    } else if c == '5' {
        Some(5)
    } else if c == '6' {
        Some(6)
    } else if c == '7' {
        Some(7)
    } else if c == '8' {
        Some(8)
    } else if c == '9' {
        Some(9)
    } else {
        None
    }
}

proof fn lemma_digits_mono(ds: Seq<char>, n: int)
    requires
        0 <= n <= ds.len(),
    ensures
        digits_value(ds.subrange(0, n)) <= digits_value(ds),
    decreases ds.len(),
{
    if n < ds.len() {
        assert(ds.drop_last().subrange(0, n) =~= ds.subrange(0, n));
        lemma_digits_mono(ds.drop_last(), n);
        assert(digits_value(ds.drop_last()) <= digits_value(ds.drop_last()) * 10) by (nonlinear_arith);
    } else {
        assert(ds.subrange(0, n) =~= ds);
    }
}

/// The generation that the file name `name` names, if it is `<gen>.log`.
pub fn parse_log_name(name: &str) -> (r: Option<u64>)
    ensures
        r == parse_log_name_spec(name@),
{
    proof {
        reveal_strlit(".log");
    }
    let len = name.unicode_len();
    if len <= 4 {
        return None;
    }
    let stem = len - 4;
    if name.get_char(stem) != '.' || name.get_char(stem + 1) != 'l' || name.get_char(stem + 2) != 'o'
        || name.get_char(stem + 3) != 'g' {
        proof {
            let s = name@;
            if s.subrange(s.len() - 4, s.len() as int) == log_suffix() {
                assert(s.subrange(s.len() - 4, s.len() as int)[0] == s[stem as int]);
                assert(s.subrange(s.len() - 4, s.len() as int)[1] == s[stem + 1]);
                assert(s.subrange(s.len() - 4, s.len() as int)[2] == s[stem + 2]);
                assert(s.subrange(s.len() - 4, s.len() as int)[3] == s[stem + 3]);
            }
        }
        return None;
    }
    assert(name@.subrange(name@.len() - 4, name@.len() as int) =~= log_suffix());
    let ghost digits = name@.subrange(0, stem as int);
    let mut value: u64 = 0;
    let mut i: usize = 0;
    while i < stem
        invariant
            stem == name@.len() - 4,
            i <= stem,
            digits == name@.subrange(0, stem as int),
            forall|j: int| 0 <= j < i ==> is_digit(#[trigger] name@[j]),
            value == digits_value(name@.subrange(0, i as int)),
        decreases stem - i,
    {
        let c = name.get_char(i);
        let d = match char_digit(c) {
            None => return None,
            Some(d) => d,
        };
        let ghost pre = name@.subrange(0, i as int + 1);
        proof {
            assert(pre.drop_last() =~= name@.subrange(0, i as int));
        }
        if value > 1844674407370955161 || (value == 1844674407370955161 && d > 5) {
            proof {
                assert(digits_value(pre) > u64::MAX) by (nonlinear_arith)
                    requires
                        digits_value(pre) == value * 10 + d,
                        value > 1844674407370955161 || (value == 1844674407370955161 && d > 5),
                ;
                assert(digits.subrange(0, i as int + 1) =~= pre);
                lemma_digits_mono(digits, i as int + 1);
            }
            return None;
        }
        proof {
            assert(value * 10 + d <= u64::MAX) by (nonlinear_arith)
                requires
                    !(value > 1844674407370955161 || (value == 1844674407370955161 && d > 5)),
                    d < 10,
            ;
        }
        value = value * 10 + d;
        i = i + 1;
    }
    assert(name@.subrange(0, i as int) =~= digits);
    Some(value)
}

/// The file name of a segment names its generation.
pub proof fn law_log_name_round_trip(gen: u64)
    ensures
        parse_log_name_spec(log_name(gen)) == Some(gen),
{
    let s = log_name(gen);
    let d = decimal(gen as nat);
    lemma_decimal(gen as nat);
    assert(s.subrange(0, s.len() - 4) =~= d);
    assert(s.subrange(s.len() - 4, s.len() as int) =~= log_suffix());
    assert forall|i: int| 0 <= i < s.len() - 4 implies is_digit(#[trigger] s[i]) by {
        assert(s[i] == d[i]);
    }
}

proof fn lemma_digit(d: nat)
    requires
        d < 10,
    ensures
        digit_value(digit_char(d)) == d,
        is_digit(digit_char(d)),
{
    if d == 0 {
    } else if d == 1 {
    } else if d == 2 {
    } else if d == 3 {
    } else if d == 4 {
    } else if d == 5 {
    } else if d == 6 {
    } else if d == 7 {
    } else if d == 8 {
    } else {
    }
}

proof fn lemma_decimal(n: nat)
    ensures
        digits_value(decimal(n)) == n,
        decimal(n).len() >= 1,
        forall|i: int| 0 <= i < decimal(n).len() ==> is_digit(#[trigger] decimal(n)[i]),
    decreases n,
{
    if n < 10 {
        lemma_digit(n);
        assert(seq![digit_char(n)].drop_last() =~= Seq::<char>::empty());
        assert(digits_value(decimal(n)) == digits_value(Seq::<char>::empty()) * 10 + digit_value(digit_char(n)));
    } else {
        lemma_digit(n % 10);
        lemma_decimal(n / 10);
        let p = decimal(n / 10);
        assert(decimal(n).drop_last() =~= p);
        assert((n / 10) * 10 + n % 10 == n) by (nonlinear_arith);
        assert(digits_value(decimal(n)) == digits_value(p) * 10 + digit_value(digit_char(n % 10)));
        assert forall|i: int| 0 <= i < decimal(n).len() implies is_digit(#[trigger] decimal(n)[i]) by {
            if i < p.len() {
                assert(decimal(n)[i] == p[i]);
            }
        }
    }
}

/// The generations named by `names`, in the order of the names.
pub open spec fn named_gens(names: Seq<Seq<char>>) -> Seq<u64>
    decreases names.len(),
{
    if names.len() == 0 {
        Seq::empty()
    } else {
        match parse_log_name_spec(names.last()) {
            Some(g) => named_gens(names.drop_last()).push(g),
            None => named_gens(names.drop_last()),
        }
    }
}

/// Relies on `slice::sort_unstable`: the same items, in ascending order.
#[verifier::external_body]
fn sort_ascending(v: &mut Vec<u64>)
    ensures
        final(v)@.to_multiset() == old(v)@.to_multiset(),
        forall|i: int, j: int| 0 <= i < j < final(v)@.len() ==> final(v)@[i] <= final(v)@[j],
{
    v.sort_unstable();
}

/// The generations that the file names of a directory name, ascending.
pub fn sort_gen_list(names: &Vec<String>) -> (r: Vec<u64>)
    ensures
        r@.to_multiset() == named_gens(names@.map_values(|s: String| s@)).to_multiset(),
        forall|i: int, j: int| 0 <= i < j < r@.len() ==> r@[i] <= r@[j],
{
    let ghost views = names@.map_values(|s: String| s@);
    let mut gens: Vec<u64> = Vec::new();
    let mut i: usize = 0;
    while i < names.len()
        invariant
            i <= names@.len(),
            views == names@.map_values(|s: String| s@),
            gens@ == named_gens(views.subrange(0, i as int)),
        decreases names@.len() - i,
    {
        let ghost pre = views.subrange(0, i as int + 1);
        proof {
            assert(pre.drop_last() =~= views.subrange(0, i as int));
            assert(pre.last() == names@[i as int]@);
        }
        match parse_log_name(names[i].as_str()) {
            Some(g) => gens.push(g),
            None => {},
        }
        i = i + 1;
    }
    assert(views.subrange(0, i as int) =~= views);
    sort_ascending(&mut gens);
    gens
}

} // verus!
