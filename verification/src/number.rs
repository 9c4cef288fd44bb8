use vstd::prelude::*;
use crate::text::push_char;

verus! {

/// A number literal of the language, held exactly as its shortest decimal
/// text: no leading zeros before the point (but one `0` when the integer
/// part is zero), no trailing zeros after it, and no point when there is no
/// fraction.  `1`, `1.0` and `01.00` all give `1`.
#[derive(Clone, Debug, PartialEq, Eq)]
pub struct Number {
    repr: String,
}

pub open spec fn is_digit(c: char) -> bool {
    '0' <= c && c <= '9'
}

pub open spec fn all_digits(s: Seq<char>) -> bool {
    forall|i: int| 0 <= i < s.len() ==> is_digit(#[trigger] s[i])
}

/// Drops the leading zeros of an integer part, keeping at least one digit.
pub open spec fn strip_leading_zeros(s: Seq<char>) -> Seq<char>
    decreases s.len(),
{
    if s.len() > 1 && s[0] == '0' {
        strip_leading_zeros(s.drop_first())
    } else {
        s
    }
}

/// Drops the trailing zeros of a fraction part.
pub open spec fn strip_trailing_zeros(s: Seq<char>) -> Seq<char>
    decreases s.len(),
{
    if s.len() > 0 && s.last() == '0' {
        strip_trailing_zeros(s.drop_last())
    } else {
        s
    }
}

/// The shortest decimal text of the number whose integer digits are
/// `int_digits` and whose fraction digits are `frac_digits`.
pub open spec fn canonical_decimal(int_digits: Seq<char>, frac_digits: Seq<char>) -> Seq<char> {
    let i = strip_leading_zeros(int_digits);
    let f = strip_trailing_zeros(frac_digits);
    if f.len() == 0 {
        i
    } else {
        i + seq!['.'] + f
    }
}

impl View for Number {
    type V = Seq<char>;

    closed spec fn view(&self) -> Seq<char> {
        self.repr@
    }
}

impl Number {
    /// The number with the given integer and fraction digits.
    pub fn from_digits(int_digits: &[char], frac_digits: &[char]) -> (res: Number)
        requires
            int_digits@.len() > 0,
        ensures
            res@ == canonical_decimal(int_digits@, frac_digits@),
    {
        let n = int_digits.len();
        let mut start: usize = 0;
        assert(int_digits@.subrange(0, int_digits@.len() as int) =~= int_digits@);
        while start + 1 < int_digits.len() && int_digits[start] == '0'
            invariant
                n == int_digits@.len(),
                start < int_digits@.len(),
                strip_leading_zeros(int_digits@.subrange(start as int, int_digits@.len() as int))
                    == strip_leading_zeros(int_digits@),
            decreases int_digits.len() - start,
        {
            let ghost s = int_digits@.subrange(start as int, int_digits@.len() as int);
            assert(s.drop_first() =~= int_digits@.subrange(start + 1, int_digits@.len() as int));
            start = start + 1;
        }
        let mut end: usize = frac_digits.len();
        assert(frac_digits@.subrange(0, end as int) =~= frac_digits@);
        while end > 0 && frac_digits[end - 1] == '0'
            invariant
                end <= frac_digits@.len(),
                strip_trailing_zeros(frac_digits@.subrange(0, end as int)) == strip_trailing_zeros(frac_digits@),
            decreases end,
        {
            let ghost s = frac_digits@.subrange(0, end as int);
            assert(s.drop_last() =~= frac_digits@.subrange(0, end - 1));
            end = end - 1;
        }
        let ghost istr = int_digits@.subrange(start as int, int_digits@.len() as int);
        assert(strip_leading_zeros(istr) == istr);
        let ghost fstr = frac_digits@.subrange(0, end as int);
        assert(strip_trailing_zeros(fstr) == fstr);
        let mut repr = String::new();
        let mut i: usize = start;
        while i < int_digits.len()
            invariant
                start <= i <= int_digits@.len(),
                repr@ == int_digits@.subrange(start as int, i as int),
            decreases int_digits.len() - i,
        {
            push_char(&mut repr, int_digits[i]);
            assert(int_digits@.subrange(start as int, i + 1) =~= int_digits@.subrange(start as int, i as int).push(int_digits@[i as int]));
            i = i + 1;
        }
        if end > 0 {
            push_char(&mut repr, '.');
            let mut j: usize = 0;
            while j < end
                invariant
                    j <= end <= frac_digits@.len(),
                    repr@ == istr + seq!['.'] + frac_digits@.subrange(0, j as int),
                decreases end - j,
            {
                push_char(&mut repr, frac_digits[j]);
                assert(frac_digits@.subrange(0, j + 1) =~= frac_digits@.subrange(0, j as int).push(frac_digits@[j as int]));
                assert(istr + seq!['.'] + frac_digits@.subrange(0, j + 1) =~= (istr + seq!['.'] + frac_digits@.subrange(0, j as int)).push(frac_digits@[j as int]));
                j = j + 1;
            }
        }
        Number { repr }
    }

    /// Reads a number written as digits, optionally followed by a point and
    /// more digits; `None` for any other text.
    pub fn from_literal(text: &str) -> (res: Option<Number>)
        ensures
            res is Some <==> exists|k: int| 0 < k <= text@.len() && is_decimal_split(text@, k),
            forall|k: int| 0 < k <= text@.len() && is_decimal_split(text@, k) ==>
                res->0@ == canonical_decimal(
                    text@.subrange(0, k),
                    if k < text@.len() { text@.subrange(k + 1, text@.len() as int) } else { Seq::empty() },
                ),
    {
        let chars = crate::text::chars_of(text);
        let mut k: usize = 0;
        while k < chars.len() && '0' <= chars[k] && chars[k] <= '9'
            invariant
                k <= chars@.len(),
                chars@ == text@,
                all_digits(chars@.subrange(0, k as int)),
            decreases chars.len() - k,
        {
            assert(chars@.subrange(0, k + 1) =~= chars@.subrange(0, k as int).push(chars@[k as int]));
            k = k + 1;
        }
        if k == 0 {
            assert(forall|m: int| 0 < m <= text@.len() && is_decimal_split(text@, m) ==> is_digit(chars@.subrange(0, m)[0]));
            return None;
        }
        let int_part = slice_prefix(&chars, k);
        if k == chars.len() {
            let ghost t = text@;
            assert forall|m: int| 0 < m <= t.len() && is_decimal_split(t, m) implies m == k by {
                if m < k {
                    assert(t[m] == '.');
                    assert(is_digit(chars@.subrange(0, k as int)[m]));
                }
            }
            let empty: Vec<char> = Vec::new();
            assert(chars@.subrange(0, k as int) =~= text@);
            assert(is_decimal_split(text@, k as int));
            return Some(Number::from_digits(&int_part, &empty));
        }
        if chars[k] != '.' || k + 1 == chars.len() {
            let ghost t = text@;
            assert forall|m: int| 0 < m <= t.len() && is_decimal_split(t, m) implies false by {
                if m < k {
                    assert(t[m] == '.');
                    assert(is_digit(chars@.subrange(0, k as int)[m]));
                } else if m > k {
                    assert(is_digit(t.subrange(0, m)[k as int]));
                } else {
                }
            }
            return None;
        }
        let mut j: usize = k + 1;
        while j < chars.len() && '0' <= chars[j] && chars[j] <= '9'
            invariant
                k + 1 <= j <= chars@.len(),
                chars@ == text@,
                all_digits(chars@.subrange(k + 1, j as int)),
            decreases chars.len() - j,
        {
            assert(chars@.subrange(k + 1, j + 1) =~= chars@.subrange(k + 1, j as int).push(chars@[j as int]));
            j = j + 1;
        }
        let ghost t = text@;
        if j < chars.len() {
            assert forall|m: int| 0 < m <= t.len() && is_decimal_split(t, m) implies false by {
                if m < k {
                    assert(t[m] == '.');
                    assert(is_digit(chars@.subrange(0, k as int)[m]));
                } else if m > k {
                    assert(is_digit(t.subrange(0, m)[k as int]));
                } else {
                    assert(is_digit(t.subrange(k + 1, t.len() as int)[j - k - 1]));
                }
            }
            return None;
        }
        let frac_part = slice_suffix(&chars, k + 1);
        assert forall|m: int| 0 < m <= t.len() && is_decimal_split(t, m) implies m == k by {
            if m < k {
                assert(t[m] == '.');
                assert(is_digit(chars@.subrange(0, k as int)[m]));
            } else if m > k {
                assert(is_digit(t.subrange(0, m)[k as int]));
            }
        }
        assert(is_decimal_split(t, k as int)) by {
            assert(t.subrange(k + 1, t.len() as int) =~= chars@.subrange(k + 1, j as int));
        }
        Some(Number::from_digits(&int_part, &frac_part))
    }

    /// A copy of the number.
    pub fn duplicate(&self) -> (res: Number)
        ensures
            res == *self,
    {
        Number { repr: self.repr.clone() }
    }

    /// The decimal text of the number.
    pub fn as_str(&self) -> (res: &str)
        ensures
            res@ == self@,
    {
        self.repr.as_str()
    }
}

/// `text` is digits up to `k`, and then either nothing or a point followed
/// by at least one digit.
pub open spec fn is_decimal_split(text: Seq<char>, k: int) -> bool {
    &&& 0 < k <= text.len()
    &&& all_digits(text.subrange(0, k))
    &&& (k == text.len() || (text[k] == '.' && k + 1 < text.len() && all_digits(text.subrange(k + 1, text.len() as int))))
}

fn slice_prefix(v: &Vec<char>, k: usize) -> (res: Vec<char>)
    requires
        k <= v@.len(),
    ensures
        res@ == v@.subrange(0, k as int),
{
    let mut res: Vec<char> = Vec::new();
    let mut i: usize = 0;
    while i < k
        invariant
            i <= k <= v@.len(),
            res@ == v@.subrange(0, i as int),
        decreases k - i,
    {
        res.push(v[i]);
        assert(v@.subrange(0, i + 1) =~= v@.subrange(0, i as int).push(v@[i as int]));
        i = i + 1;
    }
    res
}

fn slice_suffix(v: &Vec<char>, k: usize) -> (res: Vec<char>)
    requires
        k <= v@.len(),
    ensures
        res@ == v@.subrange(k as int, v@.len() as int),
{
    let mut res: Vec<char> = Vec::new();
    let mut i: usize = k;
    while i < v.len()
        invariant
            k <= i <= v@.len(),
            res@ == v@.subrange(k as int, i as int),
        decreases v.len() - i,
    {
        res.push(v[i]);
        assert(v@.subrange(k as int, i + 1) =~= v@.subrange(k as int, i as int).push(v@[i as int]));
        i = i + 1;
    }
    res
}

} // verus!
