//! Decimal rendering and parsing of the numeric crawl cursor, with the
//! round-trip lemmas the durable-state formats rest on.
use vstd::prelude::*;

verus! {

pub open spec fn is_digit(c: char) -> bool {
    c == '0' || c == '1' || c == '2' || c == '3' || c == '4' || c == '5' || c == '6' || c == '7'
        || c == '8' || c == '9'
}

pub open spec fn digit_char(d: int) -> char {
    if d == 0 {
        '0'
    } else if d == 1 {
        '1'
    } else if d == 2 {
        '2'
    } else if d == 3 {
        '3'
    } else if d == 4 {
        '4'
    } else if d == 5 {
        '5'
    } else if d == 6 {
        '6'
    } else if d == 7 {
        '7'
    } else if d == 8 {
        '8'
    } else {
        '9'
    }
}

pub open spec fn digit_val(c: char) -> int {
    if c == '0' {
        0
    } else if c == '1' {
        1
    } else if c == '2' {
        2
    } else if c == '3' {
        3
    } else if c == '4' {
        4
    } else if c == '5' {
        5
    } else if c == '6' {
        6
    } else if c == '7' {
        7
    } else if c == '8' {
        8
    } else {
        9
    }
}

/// The decimal rendering of `n`, most significant digit first, no sign and
/// no leading zero (`0` itself renders as `"0"`).
pub open spec fn dec_str(n: nat) -> Seq<char>
    decreases n,
{
    if n < 10 {
        seq![digit_char(n as int)]
    } else {
        dec_str(n / 10).push(digit_char((n % 10) as int))
    }
}

pub open spec fn all_digits(s: Seq<char>) -> bool {
    forall|i: int| 0 <= i < s.len() ==> is_digit(s[i])
}

/// The numeric value of a digit string, most significant digit first.
pub open spec fn dec_val(s: Seq<char>) -> int
    decreases s.len(),
{
    if s.len() == 0 {
        0
    } else {
        dec_val(s.drop_last()) * 10 + digit_val(s.last())
    }
}

/// A digit string that `dec_str` could have produced: nonempty, and no
/// leading zero unless it is exactly `"0"`.
pub open spec fn canonical_digits(s: Seq<char>) -> bool {
    all_digits(s) && s.len() >= 1 && (s.len() == 1 || s[0] != '0')
}

pub proof fn lemma_dec_val_nonneg(s: Seq<char>)
    ensures
        dec_val(s) >= 0,
    decreases s.len(),
{
    if s.len() > 0 {
        lemma_dec_val_nonneg(s.drop_last());
    }
}

/// A digit string with a nonzero leading digit has value at least 1.
pub proof fn lemma_dec_val_positive(s: Seq<char>)
    requires
        all_digits(s),
        s.len() >= 1,
        s[0] != '0',
    ensures
        dec_val(s) >= 1,
    decreases s.len(),
{
    if s.len() == 1 {
        assert(s.last() == s[0]);
        assert(dec_val(s.drop_last()) == 0);
        assert(is_digit(s[0]));
        assert(digit_val(s[0]) >= 1);
    } else {
        let pre = s.drop_last();
        assert(pre[0] == s[0]);
        assert(all_digits(pre));
        lemma_dec_val_positive(pre);
        assert(s.last() == s[s.len() - 1]);
        assert(is_digit(s.last()));
        assert(digit_val(s.last()) >= 0);
        assert(dec_val(s) == dec_val(pre) * 10 + digit_val(s.last()));
    }
}

/// `dec_str(n)` really renders `n`: all digits, value `n`, canonical form,
/// and a nonzero leading digit whenever `n >= 1`.
pub proof fn lemma_dec_str_props(n: nat)
    ensures
        all_digits(dec_str(n)),
        dec_str(n).len() >= 1,
        dec_val(dec_str(n)) == n,
        canonical_digits(dec_str(n)),
        n >= 1 ==> dec_str(n)[0] != '0',
    decreases n,
{
    if n < 10 {
        let s = dec_str(n);
        assert(s =~= seq![digit_char(n as int)]);
        assert(s.drop_last().len() == 0);
        assert(dec_val(s.drop_last()) == 0);
        assert(s.last() == digit_char(n as int));
        assert(dec_val(s) == digit_val(digit_char(n as int)));
        assert(digit_val(digit_char(n as int)) == n);
    } else {
        assert(dec_str(n) == dec_str(n / 10).push(digit_char((n % 10) as int)));
        lemma_dec_str_props(n / 10);
        let pre = dec_str(n / 10);
        let s = pre.push(digit_char((n % 10) as int));
        assert(s.drop_last() =~= pre);
        assert(s.last() == digit_char((n % 10) as int));
        assert(digit_val(digit_char((n % 10) as int)) == n % 10);
        assert(dec_val(s) == dec_val(pre) * 10 + n % 10);
        assert((n / 10) * 10 + n % 10 == n) by {
            vstd::arithmetic::div_mod::lemma_fundamental_div_mod(n as int, 10);
        }
        assert(n / 10 >= 1);
        assert(s[0] == pre[0]);
    }
}

/// Every canonical digit string is the rendering of its own value.
pub proof fn lemma_canonical_dec_str(s: Seq<char>)
    requires
        canonical_digits(s),
    ensures
        dec_val(s) >= 0,
        dec_str(dec_val(s) as nat) == s,
    decreases s.len(),
{
    lemma_dec_val_nonneg(s);
    if s.len() == 1 {
        let c = s[0];
        assert(is_digit(c));
        assert(dec_val(s) == digit_val(c)) by {
            assert(s.drop_last().len() == 0);
            assert(dec_val(s.drop_last()) == 0);
            assert(s.last() == c);
        }
        assert(dec_str(digit_val(c) as nat) =~= s);
    } else {
        let pre = s.drop_last();
        let c = s.last();
        assert(pre[0] == s[0]);
        assert(all_digits(pre)) by {
            assert(forall|i: int| 0 <= i < pre.len() ==> pre[i] == s[i]);
        }
        assert(canonical_digits(pre));
        lemma_canonical_dec_str(pre);
        lemma_dec_val_positive(pre);
        let v = dec_val(s);
        assert(is_digit(c));
        assert(v == dec_val(pre) * 10 + digit_val(c));
        assert(v / 10 == dec_val(pre) && v % 10 == digit_val(c)) by {
            vstd::arithmetic::div_mod::lemma_fundamental_div_mod_converse(
                v,
                10,
                dec_val(pre),
                digit_val(c),
            );
        }
        assert(v >= 10);
        assert(dec_str(v as nat) == dec_str(dec_val(pre) as nat).push(digit_char(digit_val(c))));
        assert(digit_char(digit_val(c)) == c);
        assert(pre.push(c) =~= s);
    }
}

/// Extending a digit string on the right never lowers its value.
pub proof fn lemma_dec_val_prefix_mono(s: Seq<char>, i: int)
    requires
        0 <= i <= s.len(),
    ensures
        dec_val(s) >= dec_val(s.subrange(0, i)),
    decreases s.len() - i,
{
    if i == s.len() {
        assert(s.subrange(0, i) =~= s);
    } else {
        let shorter = s.subrange(0, i);
        let longer = s.subrange(0, i + 1);
        assert(longer.drop_last() =~= shorter);
        lemma_dec_val_nonneg(shorter);
        assert(dec_val(longer) == dec_val(shorter) * 10 + digit_val(longer.last()));
        assert(dec_val(longer) >= dec_val(shorter));
        lemma_dec_val_prefix_mono(s, i + 1);
    }
}

fn digit_str(d: usize) -> (r: &'static str)
    requires
        d < 10,
    ensures
        r@ =~= seq![digit_char(d as int)],
{
    proof {
        reveal_strlit("0");
        reveal_strlit("1");
        reveal_strlit("2");
        reveal_strlit("3");
        reveal_strlit("4");
        reveal_strlit("5");
        reveal_strlit("6");
        reveal_strlit("7");
        reveal_strlit("8");
        reveal_strlit("9");
    }
    match d {
        0 => "0",
        1 => "1",
        2 => "2",
        3 => "3",
        4 => "4",
        5 => "5",
        6 => "6",
        7 => "7",
        8 => "8",
        _ => "9",
    }
}

pub fn usize_to_string(n: usize) -> (r: String)
    ensures
        r@ == dec_str(n as nat),
    decreases n,
{
    if n < 10 {
        let r = digit_str(n).to_owned();
        proof {
            assert(r@ =~= dec_str(n as nat));
        }
        r
    } else {
        let mut r = usize_to_string(n / 10);
        r.append(digit_str(n % 10));
        proof {
            assert(r@ =~= dec_str((n / 10) as nat).push(digit_char((n % 10) as int)));
        }
        r
    }
}

fn digit_of(c: char) -> (r: Option<usize>)
    ensures
        match r {
            Some(d) => is_digit(c) && d < 10 && d as int == digit_val(c),
            None => !is_digit(c),
        },
{
    match c {
        '0' => Some(0),
        '1' => Some(1),
        '2' => Some(2),
        '3' => Some(3),
        '4' => Some(4),
        '5' => Some(5),
        '6' => Some(6),
        '7' => Some(7),
        '8' => Some(8),
        '9' => Some(9),
        _ => None,
    }
}

/// Parses a nonempty all-digit string into its value; `None` exactly when
/// the string is not such a rendering or its value does not fit.
pub fn parse_usize(s: &str) -> (r: Option<usize>)
    ensures
        match r {
            Some(v) => all_digits(s@) && s@.len() > 0 && v as int == dec_val(s@),
            None => !(all_digits(s@) && s@.len() > 0 && dec_val(s@) <= usize::MAX),
        },
{
    let n = s.unicode_len();
    if n == 0 {
        return None;
    }
    let mut acc: usize = 0;
    let mut i: usize = 0;
    while i < n
        invariant
            n == s@.len(),
            i <= n,
            all_digits(s@.subrange(0, i as int)),
            acc as int == dec_val(s@.subrange(0, i as int)),
        decreases n - i,
    {
        let ghost prefix = s@.subrange(0, i as int);
        let ghost extended = s@.subrange(0, i + 1);
        proof {
            assert(extended.drop_last() =~= prefix);
            assert(extended.last() == s@[i as int]);
        }
        let c = s.get_char(i);
        match digit_of(c) {
            None => {
                assert(!is_digit(s@[i as int]));
                return None;
            },
            Some(d) => {
                let step = match acc.checked_mul(10) {
                    Some(t) => t.checked_add(d),
                    None => None,
                };
                match step {
                    None => {
                        proof {
                            assert(dec_val(extended) == acc as int * 10 + d);
                            assert(dec_val(extended) > usize::MAX);
                            if all_digits(s@) {
                                lemma_dec_val_prefix_mono(s@, i + 1);
                            }
                        }
                        return None;
                    },
                    Some(v) => {
                        acc = v;
                    },
                }
            },
        }
        i += 1;
        assert(s@.subrange(0, i as int) =~= extended);
    }
    assert(s@.subrange(0, n as int) =~= s@);
    Some(acc)
}

} // verus!
