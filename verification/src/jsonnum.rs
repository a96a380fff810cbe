use crate::text::matches_at;
use vstd::arithmetic::div_mod::{
    lemma_fundamental_div_mod_converse_div, lemma_fundamental_div_mod_converse_mod,
};
use vstd::prelude::*;

verus! {

/// A decimal digit character.
pub open spec fn is_digit(c: char) -> bool {
    48 <= c as u32 && c as u32 <= 57
}

/// The value of a decimal or lowercase hexadecimal digit character.
pub open spec fn digit_val(c: char) -> int {
    if is_digit(c) {
        c as u32 - 48
    } else {
        c as u32 - 87
    }
}

/// The character for a digit value up to fifteen.
pub open spec fn digit(v: int) -> char {
    if v == 0 {
        '0'
    } else if v == 1 {
        '1'
    } else if v == 2 {
        '2'
    } else if v == 3 {
        '3'
    } else if v == 4 {
        '4'
    } else if v == 5 {
        '5'
    } else if v == 6 {
        '6'
    } else if v == 7 {
        '7'
    } else if v == 8 {
        '8'
    } else if v == 9 {
        '9'
    } else if v == 10 {
        'a'
    } else if v == 11 {
        'b'
    } else if v == 12 {
        'c'
    } else if v == 13 {
        'd'
    } else if v == 14 {
        'e'
    } else {
        'f'
    }
}

/// A decimal digit or lowercase hexadecimal letter.
pub open spec fn is_lower_hex(c: char) -> bool {
    is_digit(c) || (97 <= c as u32 && c as u32 <= 102)
}

/// The canonical decimal spelling of a number: no sign, no leading zero
/// except for zero itself.
pub open spec fn dec_u64(n: nat) -> Seq<char>
    decreases n,
{
    if n < 10 {
        seq![digit(n as int)]
    } else {
        dec_u64(n / 10).push(digit((n % 10) as int))
    }
}

/// The number a digit run spells, most significant digit first.
pub open spec fn val_of(t: Seq<char>) -> int
    decreases t.len(),
{
    if t.len() == 0 {
        0
    } else {
        val_of(t.drop_last()) * 10 + digit_val(t.last())
    }
}

/// Ten to the `k`.
pub open spec fn pow10(k: nat) -> int
    decreases k,
{
    if k == 0 {
        1
    } else {
        10 * pow10((k - 1) as nat)
    }
}

/// Casting a character to its scalar value and back is the identity.
pub proof fn lemma_char_scalar_identity(c: char)
    ensures
        ((c as u32) as char) == c,
{
}

/// The digit table and the digit value are mutually inverse on digit
/// characters.
pub proof fn lemma_digit_char_inverse(c: char)
    requires
        is_digit(c),
    ensures
        digit(digit_val(c)) == c,
        0 <= digit_val(c) <= 9,
{
    lemma_char_scalar_identity(c);
    lemma_char_scalar_identity('0');
    lemma_char_scalar_identity('1');
    lemma_char_scalar_identity('2');
    lemma_char_scalar_identity('3');
    lemma_char_scalar_identity('4');
    lemma_char_scalar_identity('5');
    lemma_char_scalar_identity('6');
    lemma_char_scalar_identity('7');
    lemma_char_scalar_identity('8');
    lemma_char_scalar_identity('9');
}

/// The digit table and the digit value are mutually inverse on hexadecimal
/// digit characters.
pub proof fn lemma_hex_char_inverse(c: char)
    requires
        is_lower_hex(c),
    ensures
        digit(digit_val(c)) == c,
        0 <= digit_val(c) <= 15,
{
    lemma_char_scalar_identity(c);
    lemma_char_scalar_identity('0');
    lemma_char_scalar_identity('1');
    lemma_char_scalar_identity('2');
    lemma_char_scalar_identity('3');
    lemma_char_scalar_identity('4');
    lemma_char_scalar_identity('5');
    lemma_char_scalar_identity('6');
    lemma_char_scalar_identity('7');
    lemma_char_scalar_identity('8');
    lemma_char_scalar_identity('9');
    lemma_char_scalar_identity('a');
    lemma_char_scalar_identity('b');
    lemma_char_scalar_identity('c');
    lemma_char_scalar_identity('d');
    lemma_char_scalar_identity('e');
    lemma_char_scalar_identity('f');
}

/// The digit table and the digit value are mutually inverse on digit values.
pub proof fn lemma_digit_val_inverse(v: int)
    requires
        0 <= v <= 15,
    ensures
        digit_val(digit(v)) == v,
        is_lower_hex(digit(v)),
        v <= 9 ==> is_digit(digit(v)),
{
}

/// The value of a hexadecimal digit character.
pub fn hex_val_of(c: char) -> (d: u32)
    requires
        is_lower_hex(c),
    ensures
        d == digit_val(c),
        d <= 15,
{
    let cv = c as u32;
    if cv <= 57 {
        cv - 48
    } else {
        cv - 87
    }
}

pub proof fn lemma_pow10_pos(k: nat)
    ensures
        pow10(k) >= 1,
    decreases k,
{
    if k > 0 {
        lemma_pow10_pos((k - 1) as nat);
    }
}

/// All-digit runs spell nonnegative numbers.
pub proof fn lemma_val_of_nonneg(t: Seq<char>)
    requires
        forall|k: int| 0 <= k < t.len() ==> is_digit(#[trigger] t[k]),
    ensures
        val_of(t) >= 0,
    decreases t.len(),
{
    if t.len() > 0 {
        lemma_val_of_nonneg(t.drop_last());
    }
}

/// Peeling the most significant digit off a run.
pub proof fn lemma_val_of_first(t: Seq<char>)
    requires
        t.len() > 0,
    ensures
        val_of(t) == digit_val(t[0]) * pow10((t.len() - 1) as nat) + val_of(
            t.subrange(1, t.len() as int),
        ),
    decreases t.len(),
{
    let rest = t.subrange(1, t.len() as int);
    if t.len() == 1 {
        assert(t.drop_last() =~= Seq::<char>::empty());
        assert(rest =~= Seq::<char>::empty());
    } else {
        let head = t.drop_last();
        lemma_val_of_first(head);
        assert(head[0] == t[0]);
        assert(head.subrange(1, head.len() as int) =~= rest.drop_last());
        assert(rest.last() == t.last());
        let k = (t.len() - 2) as nat;
        assert(val_of(head) == digit_val(t[0]) * pow10(k) + val_of(rest.drop_last()));
        assert(val_of(t) == val_of(head) * 10 + digit_val(t.last()));
        assert(val_of(rest) == val_of(rest.drop_last()) * 10 + digit_val(rest.last()));
        assert(digit_val(t[0]) * pow10(k) * 10 == digit_val(t[0]) * pow10((k + 1) as nat))
            by (nonlinear_arith)
            requires
                pow10((k + 1) as nat) == 10 * pow10(k),
        ;
        assert((digit_val(t[0]) * pow10(k) + val_of(rest.drop_last())) * 10 == digit_val(t[0])
            * pow10(k) * 10 + val_of(rest.drop_last()) * 10) by (nonlinear_arith);
    }
}

/// The canonical spelling is made of digits and spells its number.
pub proof fn lemma_dec_u64_val(n: nat)
    ensures
        dec_u64(n).len() >= 1,
        forall|k: int| 0 <= k < dec_u64(n).len() ==> is_digit(#[trigger] dec_u64(n)[k]),
        val_of(dec_u64(n)) == n,
    decreases n,
{
    if n < 10 {
        lemma_digit_val_inverse(n as int);
        assert(dec_u64(n) =~= seq![digit(n as int)]);
        assert(dec_u64(n).drop_last() =~= Seq::<char>::empty());
        assert(val_of(Seq::<char>::empty()) == 0);
        assert(val_of(dec_u64(n)) == val_of(Seq::<char>::empty()) * 10 + digit_val(
            digit(n as int),
        ));
    } else {
        lemma_dec_u64_val(n / 10);
        lemma_digit_val_inverse((n % 10) as int);
        let t = dec_u64(n);
        assert(t == dec_u64(n / 10).push(digit((n % 10) as int)));
        assert(t.drop_last() =~= dec_u64(n / 10));
        assert(t.last() == digit((n % 10) as int));
        assert(val_of(t) == (n / 10) * 10 + n % 10);
        assert((n / 10) * 10 + n % 10 == n) by {
            vstd::arithmetic::div_mod::lemma_fundamental_div_mod(n as int, 10);
        }
    }
}

/// The leading digit of a positive number is never zero.
pub proof fn lemma_dec_u64_first_nonzero(n: nat)
    requires
        n >= 1,
    ensures
        dec_u64(n)[0] != '0',
    decreases n,
{
    if n < 10 {
        assert(digit(n as int) != '0');
    } else {
        lemma_dec_u64_first_nonzero(n / 10);
        lemma_dec_u64_val(n / 10);
        assert(dec_u64(n)[0] == dec_u64(n / 10)[0]);
    }
}

/// A digit run with no leading zero is the canonical spelling of its number.
pub proof fn lemma_dec_canonical(t: Seq<char>)
    requires
        t.len() >= 1,
        forall|k: int| 0 <= k < t.len() ==> is_digit(#[trigger] t[k]),
        t.len() == 1 || t[0] != '0',
    ensures
        val_of(t) >= 0,
        dec_u64(val_of(t) as nat) == t,
    decreases t.len(),
{
    lemma_val_of_nonneg(t);
    if t.len() == 1 {
        let c = t[0];
        lemma_digit_char_inverse(c);
        assert(t.drop_last() =~= Seq::<char>::empty());
        assert(val_of(Seq::<char>::empty()) == 0);
        assert(val_of(t) == val_of(Seq::<char>::empty()) * 10 + digit_val(t.last()));
        assert(val_of(t) == digit_val(c));
        assert(dec_u64(val_of(t) as nat) =~= t);
    } else {
        let head = t.drop_last();
        let v = val_of(t);
        lemma_val_of_nonneg(head);
        assert(head[0] == t[0]);
        lemma_dec_canonical(head);
        let hv = val_of(head);
        // the head value is at least one, so the whole is at least ten
        lemma_digit_char_inverse(t[0]);
        assert(digit_val(t[0]) >= 1);
        lemma_val_of_first(head);
        lemma_pow10_pos((head.len() - 1) as nat);
        lemma_val_of_nonneg(head.subrange(1, head.len() as int));
        assert(hv >= digit_val(t[0]) * pow10((head.len() - 1) as nat)) by (nonlinear_arith)
            requires
                hv == digit_val(t[0]) * pow10((head.len() - 1) as nat) + val_of(
                    head.subrange(1, head.len() as int),
                ),
                val_of(head.subrange(1, head.len() as int)) >= 0,
        ;
        assert(digit_val(t[0]) * pow10((head.len() - 1) as nat) >= 1) by (nonlinear_arith)
            requires
                digit_val(t[0]) >= 1,
                pow10((head.len() - 1) as nat) >= 1,
        ;
        assert(v == hv * 10 + digit_val(t.last()));
        assert(0 <= digit_val(t.last()) < 10);
        assert(v >= 10) by (nonlinear_arith)
            requires
                v == hv * 10 + digit_val(t.last()),
                hv >= 1,
                digit_val(t.last()) >= 0,
        ;
        lemma_fundamental_div_mod_converse_div(v, 10, hv, digit_val(t.last()));
        lemma_fundamental_div_mod_converse_mod(v, 10, hv, digit_val(t.last()));
        assert(v / 10 == hv && v % 10 == digit_val(t.last()));
        let c = t.last();
        lemma_digit_char_inverse(c);
        assert(dec_u64(v as nat) == dec_u64(hv as nat).push(c));
        assert(dec_u64(v as nat) =~= t);
    }
}

/// A greedy left-to-right digit accumulation with an overflow guard,
/// starting from `acc`.
pub open spec fn parse_digits(s: Seq<char>, i: int, acc: u64) -> Option<(u64, int)>
    decreases s.len() - i,
{
    if 0 <= i < s.len() && is_digit(s[i]) {
        let d = digit_val(s[i]);
        if acc * 10 + d <= u64::MAX {
            parse_digits(s, i + 1, (acc * 10 + d) as u64)
        } else {
            None
        }
    } else {
        Some((acc, i))
    }
}

/// A canonical unsigned decimal number starting at `i`: a single zero, or a
/// nonzero digit followed greedily by further digits, within the range of
/// sixty-four bits.
pub open spec fn parse_u64(s: Seq<char>, i: int) -> Option<(u64, int)> {
    if 0 <= i < s.len() && is_digit(s[i]) {
        if s[i] == '0' {
            Some((0, i + 1))
        } else {
            parse_digits(s, i, 0)
        }
    } else {
        None
    }
}

/// The accumulation reads exactly the digit run in front of it.
pub proof fn lemma_parse_digits_complete(s: Seq<char>, i: int, t: Seq<char>, acc: u64)
    requires
        matches_at(s, i, t),
        forall|k: int| 0 <= k < t.len() ==> is_digit(#[trigger] t[k]),
        i + t.len() == s.len() || !is_digit(s[i + t.len()]),
        acc * pow10(t.len() as nat) + val_of(t) <= u64::MAX,
    ensures
        parse_digits(s, i, acc) == Some(
            ((acc * pow10(t.len() as nat) + val_of(t)) as u64, i + t.len()),
        ),
    decreases t.len(),
{
    lemma_val_of_nonneg(t);
    if t.len() == 0 {
        assert(!(0 <= i < s.len() && is_digit(s[i])));
    } else {
        let rest = t.subrange(1, t.len() as int);
        assert(s.subrange(i, i + t.len())[0] == t[0]);
        assert(s[i] == t[0]);
        let d = digit_val(t[0]);
        lemma_val_of_first(t);
        lemma_val_of_nonneg(rest);
        lemma_pow10_pos((t.len() - 1) as nat);
        let total = acc * pow10(t.len() as nat) + val_of(t);
        assert(total == (acc * 10 + d) * pow10((t.len() - 1) as nat) + val_of(rest))
            by (nonlinear_arith)
            requires
                total == acc * pow10(t.len() as nat) + val_of(t),
                val_of(t) == d * pow10((t.len() - 1) as nat) + val_of(rest),
                pow10(t.len() as nat) == 10 * pow10((t.len() - 1) as nat),
        ;
        assert(acc * 10 + d <= total) by (nonlinear_arith)
            requires
                total == (acc * 10 + d) * pow10((t.len() - 1) as nat) + val_of(rest),
                acc >= 0,
                d >= 0,
                pow10((t.len() - 1) as nat) >= 1,
                val_of(rest) >= 0,
        ;
        let acc2 = (acc * 10 + d) as u64;
        assert forall|k: int| 0 <= k < rest.len() implies is_digit(#[trigger] rest[k]) by {
            assert(rest[k] == t[k + 1]);
        }
        assert(s.subrange(i + 1, i + 1 + rest.len()) =~= s.subrange(i, i + t.len()).subrange(
            1,
            t.len() as int,
        ));
        assert(matches_at(s, i + 1, rest));
        lemma_parse_digits_complete(s, i + 1, rest, acc2);
    }
}

/// The canonical spelling of any number parses back to it.
pub proof fn lemma_parse_u64_complete(s: Seq<char>, i: int, n: u64)
    requires
        matches_at(s, i, dec_u64(n as nat)),
        i + dec_u64(n as nat).len() == s.len() || !is_digit(s[i + dec_u64(n as nat).len()]),
    ensures
        parse_u64(s, i) == Some((n, i + dec_u64(n as nat).len())),
{
    let t = dec_u64(n as nat);
    lemma_dec_u64_val(n as nat);
    assert(s.subrange(i, i + t.len())[0] == t[0]);
    assert(s[i] == t[0]);
    if n == 0 {
        assert(t =~= seq!['0']);
        assert(s[i] == '0');
    } else {
        lemma_dec_u64_first_nonzero(n as nat);
        assert(s[i] != '0');
        lemma_pow10_pos(t.len() as nat);
        lemma_val_of_nonneg(t);
        assert(0 * pow10(t.len() as nat) + val_of(t) == n);
        lemma_parse_digits_complete(s, i, t, 0);
    }
}

/// What the accumulation accepts is a digit run it read in full.
pub proof fn lemma_parse_digits_sound(s: Seq<char>, i: int, acc: u64)
    requires
        0 <= i <= s.len(),
        parse_digits(s, i, acc) is Some,
    ensures
        ({
            let (n, j) = parse_digits(s, i, acc)->Some_0;
            &&& i <= j <= s.len()
            &&& (j == s.len() || !is_digit(s[j]))
            &&& forall|k: int| i <= k < j ==> is_digit(#[trigger] s[k])
            &&& n == acc * pow10((j - i) as nat) + val_of(s.subrange(i, j))
        }),
    decreases s.len() - i,
{
    let (n, j) = parse_digits(s, i, acc)->Some_0;
    if 0 <= i < s.len() && is_digit(s[i]) {
        let d = digit_val(s[i]);
        let acc2 = (acc * 10 + d) as u64;
        lemma_parse_digits_sound(s, i + 1, acc2);
        let t = s.subrange(i, j);
        let rest = s.subrange(i + 1, j);
        assert(t.len() == j - i);
        assert(t[0] == s[i]);
        assert forall|k: int| 0 <= k < t.len() implies is_digit(#[trigger] t[k]) by {
            assert(t[k] == s[i + k]);
        }
        lemma_val_of_first(t);
        assert(t.subrange(1, t.len() as int) =~= rest);
        assert(n == acc2 * pow10((j - i - 1) as nat) + val_of(rest));
        assert(n == acc * pow10((j - i) as nat) + val_of(t)) by (nonlinear_arith)
            requires
                n == (acc * 10 + d) * pow10((j - i - 1) as nat) + val_of(rest),
                val_of(t) == d * pow10((j - i - 1) as nat) + val_of(rest),
                pow10((j - i) as nat) == 10 * pow10((j - i - 1) as nat),
                j - i >= 1,
        ;
    } else {
        assert(s.subrange(i, i) =~= Seq::<char>::empty());
    }
}

/// What the number parser accepts is the canonical spelling of its result.
pub proof fn lemma_parse_u64_sound(s: Seq<char>, i: int)
    requires
        0 <= i <= s.len(),
        parse_u64(s, i) is Some,
    ensures
        ({
            let (n, j) = parse_u64(s, i)->Some_0;
            &&& matches_at(s, i, dec_u64(n as nat))
            &&& j == i + dec_u64(n as nat).len()
        }),
{
    let (n, j) = parse_u64(s, i)->Some_0;
    if s[i] == '0' {
        assert(dec_u64(0) =~= seq!['0']);
        assert(s.subrange(i, i + 1) =~= seq!['0']);
    } else {
        lemma_parse_digits_sound(s, i, 0);
        let t = s.subrange(i, j);
        assert(t[0] == s[i]);
        assert forall|k: int| 0 <= k < t.len() implies is_digit(#[trigger] t[k]) by {
            assert(t[k] == s[i + k]);
        }
        assert(j - i >= 1) by {
            assert(is_digit(s[i]));
        }
        lemma_pow10_pos((j - i) as nat);
        assert(n == 0 * pow10((j - i) as nat) + val_of(t));
        lemma_dec_canonical(t);
        assert(dec_u64(n as nat) == t);
    }
}

/// The digit character for a value below sixteen.
pub fn digit_char_of(d: u64) -> (c: char)
    requires
        d < 16,
    ensures
        c == digit(d as int),
{
    if d == 0 {
        '0'
    } else if d == 1 {
        '1'
    } else if d == 2 {
        '2'
    } else if d == 3 {
        '3'
    } else if d == 4 {
        '4'
    } else if d == 5 {
        '5'
    } else if d == 6 {
        '6'
    } else if d == 7 {
        '7'
    } else if d == 8 {
        '8'
    } else if d == 9 {
        '9'
    } else if d == 10 {
        'a'
    } else if d == 11 {
        'b'
    } else if d == 12 {
        'c'
    } else if d == 13 {
        'd'
    } else if d == 14 {
        'e'
    } else {
        'f'
    }
}

/// Appends the canonical decimal spelling of `n`.
pub fn push_u64(out: &mut Vec<char>, n: u64)
    ensures
        final(out)@ == old(out)@ + dec_u64(n as nat),
{
    if n == 0 {
        out.push('0');
        proof {
            assert(dec_u64(0) =~= seq!['0']);
            assert(out@ =~= old(out)@ + dec_u64(0));
        }
        return;
    }
    let mut rev: Vec<char> = Vec::new();
    let mut m: u64 = n;
    while m > 0
        invariant
            0 <= m,
            n > 0,
            m > 0 ==> dec_u64(n as nat) == dec_u64(m as nat) + rev@.reverse(),
            m == 0 ==> dec_u64(n as nat) == rev@.reverse(),
        decreases m,
    {
        let ghost old_rev = rev@;
        let ghost old_m = m;
        let d = m % 10;
        rev.push(digit_char_of(d));
        m = m / 10;
        proof {
            assert(rev@.reverse() =~= seq![digit(d as int)] + old_rev.reverse());
            if old_m >= 10 {
                assert(dec_u64(old_m as nat) == dec_u64((old_m as nat) / 10).push(
                    digit(((old_m as nat) % 10) as int),
                ));
                assert(dec_u64((old_m as nat) / 10) + rev@.reverse() =~= dec_u64(old_m as nat)
                    + old_rev.reverse());
                assert((old_m as nat) / 10 == m as nat);
            } else {
                assert(m == 0);
                assert(dec_u64(old_m as nat) =~= seq![digit(d as int)]);
                assert(rev@.reverse() =~= dec_u64(old_m as nat) + old_rev.reverse());
            }
        }
    }
    let k = rev.len();
    let mut idx: usize = 0;
    while idx < k
        invariant
            0 <= idx <= k,
            k == rev@.len(),
            out@ == old(out)@ + rev@.reverse().take(idx as int),
            dec_u64(n as nat) == rev@.reverse(),
        decreases k - idx,
    {
        out.push(rev[k - 1 - idx]);
        idx += 1;
        proof {
            assert(rev@.reverse()[idx - 1] == rev@[k - 1 - (idx - 1)]);
            assert(out@ =~= old(out)@ + rev@.reverse().take(idx as int));
        }
    }
    proof {
        assert(rev@.reverse().take(k as int) =~= rev@.reverse());
    }
}

/// Reads a digit run greedily, refining the specification accumulation.
fn scan_digits(v: &Vec<char>, i: usize, acc: u64) -> (r: Option<(u64, usize)>)
    requires
        i <= v@.len(),
    ensures
        match r {
            Some((n, j)) => parse_digits(v@, i as int, acc) == Some((n, j as int)) && i <= j
                <= v@.len(),
            None => parse_digits(v@, i as int, acc) is None,
        },
    decreases v@.len() - i,
{
    let len = v.len();
    if i < len {
        let cv = v[i] as u32;
        if 48 <= cv && cv <= 57 {
            let d = (cv - 48) as u64;
            if (acc as u128) * 10 + (d as u128) <= u64::MAX as u128 {
                return scan_digits(v, i + 1, acc * 10 + d);
            } else {
                return None;
            }
        }
    }
    Some((acc, i))
}

/// Reads a canonical decimal number, refining the number parser.
pub fn scan_u64(v: &Vec<char>, i: usize) -> (r: Option<(u64, usize)>)
    requires
        i <= v@.len(),
    ensures
        match r {
            Some((n, j)) => parse_u64(v@, i as int) == Some((n, j as int)) && i < j <= v@.len(),
            None => parse_u64(v@, i as int) is None,
        },
{
    let len = v.len();
    if i >= len {
        return None;
    }
    let c = v[i];
    let cv = c as u32;
    if !(48 <= cv && cv <= 57) {
        return None;
    }
    if c == '0' {
        return Some((0, i + 1));
    }
    match scan_digits(v, i, 0) {
        Some((n, j)) => {
            proof {
                lemma_parse_digits_sound(v@, i as int, 0);
            }
            Some((n, j))
        }
        None => None,
    }
}

} // verus!
