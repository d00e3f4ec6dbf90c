//! Character-level text handling: whitespace, trimming, tokens and decimal numbers.

use vstd::prelude::*;

verus! {

broadcast use vstd::string::group_string_axioms;

/// Unicode `White_Space` code points, the set that `char::is_whitespace` tests.
pub open spec fn is_ws(c: char) -> bool {
    let u = c as u32;
    ||| 0x09 <= u <= 0x0d
    ||| u == 0x20
    ||| u == 0x85
    ||| u == 0xa0
    ||| u == 0x1680
    ||| 0x2000 <= u <= 0x200a
    ||| u == 0x2028
    ||| u == 0x2029
    ||| u == 0x202f
    ||| u == 0x205f
    ||| u == 0x3000
}

/// Whether `c` is a Unicode whitespace character.
pub fn is_whitespace(c: char) -> (r: bool)
    ensures
        r == is_ws(c),
{
    let u = c as u32;
    (0x09 <= u && u <= 0x0d) || u == 0x20 || u == 0x85 || u == 0xa0 || u == 0x1680 || (0x2000
        <= u && u <= 0x200a) || u == 0x2028 || u == 0x2029 || u == 0x202f || u == 0x205f || u
        == 0x3000
}

/// The characters of `s`, in order.
pub fn chars_of(s: &str) -> (v: Vec<char>)
    ensures
        v@ == s@,
{
    let mut v: Vec<char> = Vec::new();
    for c in it: s.chars()
        invariant
            it.seq() == s@,
            v@ == s@.take(it.index() as int),
    {
        v.push(c);
    }
    v
}


/// `s` without its leading whitespace (`str::trim_start`).
pub open spec fn trim_start(s: Seq<char>) -> Seq<char>
    decreases s.len(),
{
    if s.len() > 0 && is_ws(s[0]) {
        trim_start(s.drop_first())
    } else {
        s
    }
}

/// `s` without its trailing whitespace (`str::trim_end`).
pub open spec fn trim_end(s: Seq<char>) -> Seq<char>
    decreases s.len(),
{
    if s.len() > 0 && is_ws(s.last()) {
        trim_end(s.drop_last())
    } else {
        s
    }
}

/// `s` without leading and trailing whitespace (`str::trim`).
pub open spec fn trim(s: Seq<char>) -> Seq<char> {
    trim_end(trim_start(s))
}

proof fn lemma_trim_start_len(s: Seq<char>)
    ensures
        trim_start(s).len() <= s.len(),
        s.len() > 0 && is_ws(s[0]) ==> trim_start(s).len() < s.len(),
    decreases s.len(),
{
    if s.len() > 0 && is_ws(s[0]) {
        lemma_trim_start_len(s.drop_first());
    }
}

proof fn lemma_trim_end_len(s: Seq<char>)
    ensures
        trim_end(s).len() <= s.len(),
        s.len() > 0 && is_ws(s.last()) ==> trim_end(s).len() < s.len(),
    decreases s.len(),
{
    if s.len() > 0 && is_ws(s.last()) {
        lemma_trim_end_len(s.drop_last());
    }
}

/// Text that trimming leaves alone neither starts nor ends with whitespace.
pub proof fn lemma_trimmed_ends(s: Seq<char>)
    requires
        trim(s) == s,
    ensures
        s.len() > 0 ==> !is_ws(s[0]) && !is_ws(s.last()),
{
    lemma_trim_start_len(s);
    lemma_trim_end_len(trim_start(s));
    lemma_trim_end_len(s);
    if s.len() > 0 && trim_start(s) == s {
        assert(trim_end(s) == s);
    }
}

/// The first index at or after `lo` that does not hold whitespace, or `hi`.
pub fn skip_ws(v: &Vec<char>, lo: usize, hi: usize) -> (i: usize)
    requires
        lo <= hi <= v.len(),
    ensures
        lo <= i <= hi,
        v@.subrange(i as int, hi as int) == trim_start(v@.subrange(lo as int, hi as int)),
{
    let mut i = lo;
    while i < hi && is_whitespace(v[i])
        invariant
            lo <= i <= hi <= v.len(),
            trim_start(v@.subrange(i as int, hi as int)) == trim_start(
                v@.subrange(lo as int, hi as int),
            ),
        decreases hi - i,
    {
        assert(v@.subrange(i as int, hi as int).drop_first() =~= v@.subrange(
            i + 1,
            hi as int,
        ));
        i += 1;
    }
    if i == hi {
        assert(v@.subrange(i as int, hi as int) =~= Seq::<char>::empty());
    }
    i
}

/// The end of `v[lo..hi]` once trailing whitespace is dropped.
pub fn skip_ws_back(v: &Vec<char>, lo: usize, hi: usize) -> (j: usize)
    requires
        lo <= hi <= v.len(),
    ensures
        lo <= j <= hi,
        v@.subrange(lo as int, j as int) == trim_end(v@.subrange(lo as int, hi as int)),
{
    let mut j = hi;
    while j > lo && is_whitespace(v[j - 1])
        invariant
            lo <= j <= hi <= v.len(),
            trim_end(v@.subrange(lo as int, j as int)) == trim_end(
                v@.subrange(lo as int, hi as int),
            ),
        decreases j - lo,
    {
        assert(v@.subrange(lo as int, j as int).drop_last() =~= v@.subrange(
            lo as int,
            j - 1,
        ));
        j -= 1;
    }
    if j == lo {
        assert(v@.subrange(lo as int, j as int) =~= Seq::<char>::empty());
    }
    j
}

/// The bounds of `v[lo..hi]` once surrounding whitespace is dropped.
pub fn trim_bounds(v: &Vec<char>, lo: usize, hi: usize) -> (r: (usize, usize))
    requires
        lo <= hi <= v.len(),
    ensures
        lo <= r.0 <= r.1 <= hi,
        v@.subrange(r.0 as int, r.1 as int) == trim(v@.subrange(lo as int, hi as int)),
{
    let a = skip_ws(v, lo, hi);
    let b = skip_ws_back(v, a, hi);
    (a, b)
}

/// `s` with surrounding whitespace removed, as an owned string.
pub fn trimmed(s: &str) -> (r: String)
    ensures
        r@ == trim(s@),
{
    let v = chars_of(s);
    let (a, b) = trim_bounds(&v, 0, v.len());
    assert(v@.subrange(0, v@.len() as int) =~= v@);
    let t = s.substring_char(a, b);
    t.to_owned()
}


/// The number of non-whitespace characters at the front of `s`.
pub open spec fn token_len(s: Seq<char>) -> nat
    decreases s.len(),
{
    if s.len() > 0 && !is_ws(s[0]) {
        1 + token_len(s.drop_first())
    } else {
        0
    }
}

/// The first whitespace-separated token of `s` (`s.split_whitespace().next()`).
pub open spec fn first_token(s: Seq<char>) -> Option<Seq<char>> {
    let t = trim_start(s);
    if t.len() == 0 {
        None
    } else {
        Some(t.take(token_len(t) as int))
    }
}

/// What follows the first token of `s` (all of `s` is consumed when there is none).
pub open spec fn after_first_token(s: Seq<char>) -> Seq<char> {
    let t = trim_start(s);
    t.skip(token_len(t) as int)
}

/// The second whitespace-separated token of `s` (`s.split_whitespace().nth(1)`).
pub open spec fn second_token(s: Seq<char>) -> Option<Seq<char>> {
    first_token(after_first_token(s))
}

proof fn lemma_token_len_bound(s: Seq<char>)
    ensures
        token_len(s) <= s.len(),
    decreases s.len(),
{
    if s.len() > 0 && !is_ws(s[0]) {
        lemma_token_len_bound(s.drop_first());
    }
}

/// The end of the run of non-whitespace characters that starts at `lo`.
pub fn token_end(v: &Vec<char>, lo: usize, hi: usize) -> (j: usize)
    requires
        lo <= hi <= v.len(),
    ensures
        lo <= j <= hi,
        j - lo == token_len(v@.subrange(lo as int, hi as int)),
{
    let mut j = lo;
    while j < hi && !is_whitespace(v[j])
        invariant
            lo <= j <= hi <= v.len(),
            token_len(v@.subrange(lo as int, hi as int)) == (j - lo) + token_len(
                v@.subrange(j as int, hi as int),
            ),
        decreases hi - j,
    {
        assert(v@.subrange(j as int, hi as int).drop_first() =~= v@.subrange(
            j + 1,
            hi as int,
        ));
        j += 1;
    }
    j
}

/// The bounds of the first token of `v[lo..hi]`, if it has one.
pub fn first_token_bounds(v: &Vec<char>, lo: usize, hi: usize) -> (r: Option<(usize, usize)>)
    requires
        lo <= hi <= v.len(),
    ensures
        match r {
            Some((a, b)) => {
                &&& lo <= a <= b <= hi
                &&& first_token(v@.subrange(lo as int, hi as int)) == Some(
                    v@.subrange(a as int, b as int),
                )
                &&& after_first_token(v@.subrange(lo as int, hi as int)) == v@.subrange(
                    b as int,
                    hi as int,
                )
            },
            None => {
                &&& first_token(v@.subrange(lo as int, hi as int)) is None
                &&& after_first_token(v@.subrange(lo as int, hi as int)).len() == 0
            },
        },
{
    let a = skip_ws(v, lo, hi);
    if a == hi {
        return None;
    }
    let b = token_end(v, a, hi);
    assert(v@.subrange(a as int, hi as int).take(b - a) =~= v@.subrange(a as int, b as int));
    assert(v@.subrange(a as int, hi as int).skip(b - a) =~= v@.subrange(b as int, hi as int));
    Some((a, b))
}

/// Whether `c` is an ASCII decimal digit.
pub open spec fn is_digit(c: char) -> bool {
    '0' <= c <= '9'
}

/// The value of the decimal digits `s`, most significant first.
pub open spec fn digits_value(s: Seq<char>) -> nat
    decreases s.len(),
{
    if s.len() == 0 {
        0
    } else {
        digits_value(s.drop_last()) * 10 + (s.last() as nat - '0' as nat) as nat
    }
}

/// `s` without one leading `+` sign, if it has one.
pub open spec fn unsigned_part(s: Seq<char>) -> Seq<char> {
    if s.len() > 0 && s[0] == '+' {
        s.drop_first()
    } else {
        s
    }
}

/// Whether every character of `s` is an ASCII digit.
pub open spec fn all_digits(s: Seq<char>) -> bool {
    forall|i: int| 0 <= i < s.len() ==> is_digit(#[trigger] s[i])
}

/// The number that `s` writes in decimal, as `str::parse` reads an unsigned integer:
/// an optional `+`, then one or more ASCII digits and nothing else.
pub open spec fn decimal_value(s: Seq<char>) -> Option<nat> {
    let d = unsigned_part(s);
    if d.len() > 0 && all_digits(d) {
        Some(digits_value(d))
    } else {
        None
    }
}

/// What `s.parse::<u64>()` gives back, `None` standing for an error.
pub open spec fn parsed_u64(s: Seq<char>) -> Option<u64> {
    match decimal_value(s) {
        Some(n) => if n <= u64::MAX {
            Some(n as u64)
        } else {
            None
        },
        None => None,
    }
}

/// What `s.parse::<u32>()` gives back, `None` standing for an error.
pub open spec fn parsed_u32(s: Seq<char>) -> Option<u32> {
    match decimal_value(s) {
        Some(n) => if n <= u32::MAX {
            Some(n as u32)
        } else {
            None
        },
        None => None,
    }
}

proof fn lemma_digits_step(d: Seq<char>, k: int)
    requires
        0 <= k < d.len(),
    ensures
        digits_value(d.take(k + 1)) == digits_value(d.take(k)) * 10 + (d[k] as nat
            - '0' as nat) as nat,
{
    assert(d.take(k + 1).drop_last() =~= d.take(k));
}

/// Reads `v[lo..hi]` as a decimal number no larger than `max`.
fn parse_decimal(v: &Vec<char>, lo: usize, hi: usize, max: u64) -> (r: Option<u64>)
    requires
        lo <= hi <= v.len(),
    ensures
        match decimal_value(v@.subrange(lo as int, hi as int)) {
            Some(n) => if n <= max {
                r == Some(n as u64)
            } else {
                r is None
            },
            None => r is None,
        },
{
    let ghost s = v@.subrange(lo as int, hi as int);
    let mut i = lo;
    if i < hi && v[i] == '+' {
        i += 1;
    }
    let ghost d = v@.subrange(i as int, hi as int);
    assert(d =~= unsigned_part(s));
    if i == hi {
        return None;
    }
    let start = i;
    let mut acc: u64 = 0;
    let mut too_big = false;
    assert(d.take(0) =~= Seq::<char>::empty());
    while i < hi
        invariant
            lo <= start <= i <= hi <= v.len(),
            d == v@.subrange(start as int, hi as int),
            d == unsigned_part(v@.subrange(lo as int, hi as int)),
            forall|k: int| 0 <= k < i - start ==> is_digit(#[trigger] d[k]),
            !too_big ==> acc == digits_value(d.take(i - start)),
            !too_big ==> acc <= max,
            too_big ==> digits_value(d.take(i - start)) > max,
        decreases hi - i,
    {
        let c = v[i];
        assert(c == d[i - start]);
        if !('0' <= c && c <= '9') {
            assert(!is_digit(d[i - start]));
            return None;
        }
        let dig = (c as u32 - '0' as u32) as u64;
        proof {
            lemma_digits_step(d, i - start);
        }
        if !too_big {
            match acc.checked_mul(10) {
                Some(m) => match m.checked_add(dig) {
                    Some(t) => {
                        if t > max {
                            too_big = true;
                        } else {
                            acc = t;
                        }
                    },
                    None => {
                        too_big = true;
                    },
                },
                None => {
                    too_big = true;
                },
            }
        }
        i += 1;
    }
    assert(d.take(d.len() as int) =~= d);
    if too_big {
        None
    } else {
        Some(acc)
    }
}

/// The ASCII digit for `d`, a number below ten.
pub open spec fn digit_char(d: nat) -> char {
    (d + 48) as char
}

/// The decimal text of `n`: its digits, most significant first, with no leading zeros.
pub open spec fn decimal_text(n: nat) -> Seq<char>
    decreases n,
{
    if n < 10 {
        seq![digit_char(n)]
    } else {
        decimal_text(n / 10).push(digit_char(n % 10))
    }
}

/// The decimal text of a number is a nonempty run of digits, none of them
/// whitespace, that reads back as the number.
pub proof fn lemma_decimal_text(n: nat)
    ensures
        decimal_text(n).len() > 0,
        all_digits(decimal_text(n)),
        digits_value(decimal_text(n)) == n,
        forall|i: int| 0 <= i < decimal_text(n).len() ==> !is_ws(#[trigger] decimal_text(n)[i]),
        decimal_value(decimal_text(n)) == Some(n),
    decreases n,
{
    let t = decimal_text(n);
    if n < 10 {
        assert(digit_char(n) as nat == n + 48);
        assert(t.drop_last() =~= Seq::<char>::empty());
        assert(t.last() == digit_char(n));
        assert(digits_value(t) == digits_value(t.drop_last()) * 10 + (t.last() as nat - '0' as nat) as nat);
    } else {
        lemma_decimal_text(n / 10);
        assert(digit_char(n % 10) as nat == n % 10 + 48);
        assert(t.drop_last() =~= decimal_text(n / 10));
        assert(t.last() == digit_char(n % 10));
        assert(digits_value(t) == digits_value(t.drop_last()) * 10 + (t.last() as nat - '0' as nat) as nat);
        assert(n == (n / 10) * 10 + n % 10);
        assert forall|i: int| 0 <= i < t.len() implies is_digit(#[trigger] t[i]) by {
            if i < t.len() - 1 {
                assert(t[i] == decimal_text(n / 10)[i]);
            }
        }
    }
    assert forall|i: int| 0 <= i < t.len() implies !is_ws(#[trigger] t[i]) by {
        assert(is_digit(t[i]));
    }
    assert(unsigned_part(t) == t);
}

/// Every `u64` reads back from its decimal text as `str::parse::<u64>` reads it.
pub proof fn lemma_parse_decimal_text(n: u64)
    ensures
        parsed_u64(decimal_text(n as nat)) == Some(n),
{
    lemma_decimal_text(n as nat);
}

proof fn lemma_trim_start_keeps(s: Seq<char>)
    requires
        s.len() > 0,
        !is_ws(s[0]),
    ensures
        trim_start(s) == s,
{
}

proof fn lemma_trim_end_drops_ws(d: Seq<char>, w: Seq<char>)
    requires
        d.len() > 0,
        !is_ws(d.last()),
        forall|i: int| 0 <= i < w.len() ==> is_ws(#[trigger] w[i]),
    ensures
        trim_end(d + w) == d,
    decreases w.len(),
{
    if w.len() == 0 {
        assert(d + w =~= d);
    } else {
        assert((d + w).last() == w.last());
        assert((d + w).drop_last() =~= d + w.drop_last());
        assert forall|i: int| 0 <= i < w.drop_last().len() implies is_ws(
            #[trigger] w.drop_last()[i],
        ) by {
            assert(w.drop_last()[i] == w[i]);
        }
        lemma_trim_end_drops_ws(d, w.drop_last());
    }
}

/// Trimming text that has no whitespace at its start and only whitespace after `d`
/// leaves exactly `d`.
pub proof fn lemma_trim_text_then_ws(d: Seq<char>, w: Seq<char>)
    requires
        d.len() > 0,
        !is_ws(d[0]),
        !is_ws(d.last()),
        forall|i: int| 0 <= i < w.len() ==> is_ws(#[trigger] w[i]),
    ensures
        trim(d + w) == d,
{
    assert((d + w)[0] == d[0]);
    lemma_trim_start_keeps(d + w);
    lemma_trim_end_drops_ws(d, w);
}

/// The run of non-whitespace characters at the front of `d + r` is all of `d` when
/// `d` holds no whitespace and `r` is empty or starts with whitespace.
pub proof fn lemma_token_len_of(d: Seq<char>, r: Seq<char>)
    requires
        forall|i: int| 0 <= i < d.len() ==> !is_ws(#[trigger] d[i]),
        r.len() == 0 || is_ws(r[0]),
    ensures
        token_len(d + r) == d.len(),
    decreases d.len(),
{
    if d.len() == 0 {
        assert(d + r =~= r);
    } else {
        assert((d + r)[0] == d[0]);
        assert((d + r).drop_first() =~= d.drop_first() + r);
        assert forall|i: int| 0 <= i < d.drop_first().len() implies !is_ws(
            #[trigger] d.drop_first()[i],
        ) by {
            assert(d.drop_first()[i] == d[i + 1]);
        }
        lemma_token_len_of(d.drop_first(), r);
    }
}

/// `s.parse::<u64>()`, with `None` for any error.
pub fn parse_u64(s: &str) -> (r: Option<u64>)
    ensures
        r == parsed_u64(s@),
{
    let v = chars_of(s);
    assert(v@.subrange(0, v@.len() as int) =~= v@);
    parse_decimal(&v, 0, v.len(), u64::MAX)
}

/// Reads `v[lo..hi]` as `str::parse::<u64>` would.
pub fn parse_u64_in(v: &Vec<char>, lo: usize, hi: usize) -> (r: Option<u64>)
    requires
        lo <= hi <= v.len(),
    ensures
        r == parsed_u64(v@.subrange(lo as int, hi as int)),
{
    parse_decimal(v, lo, hi, u64::MAX)
}

/// `s.parse::<u32>()`, with `None` for any error.
pub fn parse_u32(s: &str) -> (r: Option<u32>)
    ensures
        r == parsed_u32(s@),
{
    let v = chars_of(s);
    assert(v@.subrange(0, v@.len() as int) =~= v@);
    parse_u32_in(&v, 0, v.len())
}

/// Reads `v[lo..hi]` as `str::parse::<u32>` would.
pub fn parse_u32_in(v: &Vec<char>, lo: usize, hi: usize) -> (r: Option<u32>)
    requires
        lo <= hi <= v.len(),
    ensures
        r == parsed_u32(v@.subrange(lo as int, hi as int)),
{
    match parse_decimal(v, lo, hi, 0xffff_ffff) {
        Some(n) => Some(n as u32),
        None => None,
    }
}


/// The pieces of `s` between newline characters (`str::split('\n')`).
pub open spec fn split_newlines(s: Seq<char>) -> Seq<Seq<char>>
    decreases s.len(),
{
    if s.len() == 0 {
        seq![Seq::<char>::empty()]
    } else if s.last() == '\n' {
        split_newlines(s.drop_last()).push(Seq::<char>::empty())
    } else {
        let p = split_newlines(s.drop_last());
        p.update(p.len() - 1, p.last().push(s.last()))
    }
}

/// The lines of `s` as `str::lines` yields them, up to the carriage return of a
/// `\r\n` ending, which is kept at the end of its line: the pieces between newlines,
/// without the empty piece that follows a final newline.
pub open spec fn lines(s: Seq<char>) -> Seq<Seq<char>> {
    let p = split_newlines(s);
    if p.last().len() == 0 {
        p.drop_last()
    } else {
        p
    }
}

/// The bounds, in `v`, of each line of `v`.
pub fn line_bounds(v: &Vec<char>) -> (r: Vec<(usize, usize)>)
    ensures
        r.len() == lines(v@).len(),
        forall|k: int|
            0 <= k < r.len() ==> {
                &&& (#[trigger] r[k]).0 <= r[k].1 <= v.len()
                &&& v@.subrange(r[k].0 as int, r[k].1 as int) == lines(v@)[k]
            },
{
    let mut out: Vec<(usize, usize)> = Vec::new();
    let ghost mut done: Seq<Seq<char>> = Seq::empty();
    let mut start: usize = 0;
    let mut i: usize = 0;
    assert(v@.take(0) =~= Seq::<char>::empty());
    assert(v@.subrange(0, 0) =~= Seq::<char>::empty());
    while i < v.len()
        invariant
            start <= i <= v.len(),
            out.len() == done.len(),
            forall|k: int|
                0 <= k < out.len() ==> {
                    &&& (#[trigger] out[k]).0 <= out[k].1 <= v.len()
                    &&& v@.subrange(out[k].0 as int, out[k].1 as int) == done[k]
                },
            split_newlines(v@.take(i as int)) == done.push(v@.subrange(start as int, i as int)),
        decreases v.len() - i,
    {
        let ghost cur = v@.subrange(start as int, i as int);
        assert(v@.take(i + 1).drop_last() =~= v@.take(i as int));
        assert(v@.take(i + 1).last() == v@[i as int]);
        if v[i] == '\n' {
            out.push((start, i));
            proof {
                done = done.push(cur);
            }
            start = i + 1;
            assert(v@.subrange(start as int, i + 1) =~= Seq::<char>::empty());
        } else {
            assert(v@.subrange(start as int, i + 1) =~= cur.push(v@[i as int]));
        }
        i += 1;
    }
    assert(v@.take(v.len() as int) =~= v@);
    if start < v.len() {
        out.push((start, v.len()));
        proof {
            done = done.push(v@.subrange(start as int, v.len() as int));
        }
    } else {
        assert(v@.subrange(start as int, i as int).len() == 0);
    }
    assert(lines(v@) =~= done);
    out
}

proof fn lemma_split_newlines_len(s: Seq<char>)
    ensures
        split_newlines(s).len() >= 1,
    decreases s.len(),
{
    if s.len() > 0 {
        lemma_split_newlines_len(s.drop_last());
    }
}

/// Text without a newline is a single piece.
pub proof fn lemma_split_newlines_single(l: Seq<char>)
    requires
        forall|i: int| 0 <= i < l.len() ==> #[trigger] l[i] != '\n',
    ensures
        split_newlines(l) == seq![l],
    decreases l.len(),
{
    if l.len() > 0 {
        assert forall|i: int| 0 <= i < l.drop_last().len() implies #[trigger] l.drop_last()[i]
            != '\n' by {
            assert(l.drop_last()[i] == l[i]);
        }
        lemma_split_newlines_single(l.drop_last());
        assert(l.drop_last().push(l.last()) =~= l);
        assert(seq![l.drop_last()].update(0, l.drop_last().push(l.last())) =~= seq![l]);
    } else {
        assert(l =~= Seq::<char>::empty());
    }
}

/// Splitting text that follows a newline continues the pieces before it.
pub proof fn lemma_split_newlines_concat(x: Seq<char>, y: Seq<char>)
    requires
        x.len() > 0,
        x.last() == '\n',
    ensures
        split_newlines(x + y) == split_newlines(x).drop_last() + split_newlines(y),
    decreases y.len(),
{
    lemma_split_newlines_len(x.drop_last());
    if y.len() == 0 {
        assert(x + y =~= x);
        assert(split_newlines(x) == split_newlines(x.drop_last()).push(Seq::<char>::empty()));
        assert(split_newlines(x).drop_last() + seq![Seq::<char>::empty()] =~= split_newlines(x));
    } else {
        lemma_split_newlines_concat(x, y.drop_last());
        lemma_split_newlines_len(y.drop_last());
        assert((x + y).drop_last() =~= x + y.drop_last());
        assert((x + y).last() == y.last());
        let p = split_newlines(x).drop_last();
        let q = split_newlines(y.drop_last());
        if y.last() == '\n' {
            assert((p + q).push(Seq::<char>::empty()) =~= p + q.push(Seq::<char>::empty()));
        } else {
            let c = y.last();
            assert((p + q).last() == q.last());
            assert((p + q).update((p + q).len() - 1, (p + q).last().push(c)) =~= p + q.update(
                q.len() - 1,
                q.last().push(c),
            ));
        }
    }
}

/// The lines of two newline-terminated lines are those two lines.
pub proof fn lemma_lines_of_two(l1: Seq<char>, l2: Seq<char>)
    requires
        forall|i: int| 0 <= i < l1.len() ==> #[trigger] l1[i] != '\n',
        forall|i: int| 0 <= i < l2.len() ==> #[trigger] l2[i] != '\n',
    ensures
        lines(l1 + seq!['\n'] + l2 + seq!['\n']) == seq![l1, l2],
{
    let a = l1 + seq!['\n'];
    let b = l2 + seq!['\n'];
    lemma_lines_of_one(l1);
    lemma_split_newlines_single(l2);
    assert(b.drop_last() =~= l2);
    assert(split_newlines(b) == seq![l2].push(Seq::<char>::empty()));
    assert(a.drop_last() =~= l1);
    assert(split_newlines(a) == seq![l1].push(Seq::<char>::empty()));
    lemma_split_newlines_concat(a, b);
    assert(l1 + seq!['\n'] + l2 + seq!['\n'] =~= a + b);
    assert(split_newlines(a + b) =~= seq![l1, l2, Seq::<char>::empty()]);
    assert(seq![l1, l2, Seq::<char>::empty()].drop_last() =~= seq![l1, l2]);
}

/// The lines of one newline-terminated line are that line.
pub proof fn lemma_lines_of_one(l: Seq<char>)
    requires
        forall|i: int| 0 <= i < l.len() ==> #[trigger] l[i] != '\n',
    ensures
        lines(l + seq!['\n']) == seq![l],
{
    let a = l + seq!['\n'];
    lemma_split_newlines_single(l);
    assert(a.drop_last() =~= l);
    assert(split_newlines(a) == seq![l].push(Seq::<char>::empty()));
    assert(seq![l].push(Seq::<char>::empty()).drop_last() =~= seq![l]);
}

/// Whether `s` begins with `p`.
pub open spec fn has_prefix(s: Seq<char>, p: Seq<char>) -> bool {
    s.len() >= p.len() && s.take(p.len() as int) == p
}

/// Whether `s` ends with `p`.
pub open spec fn has_suffix(s: Seq<char>, p: Seq<char>) -> bool {
    s.len() >= p.len() && s.skip(s.len() - p.len()) == p
}

/// Whether `v[lo..hi]` begins with `p`.
pub fn starts_with_in(v: &Vec<char>, lo: usize, hi: usize, p: &Vec<char>) -> (r: bool)
    requires
        lo <= hi <= v.len(),
    ensures
        r == has_prefix(v@.subrange(lo as int, hi as int), p@),
{
    let ghost s = v@.subrange(lo as int, hi as int);
    if hi - lo < p.len() {
        return false;
    }
    let mut k: usize = 0;
    while k < p.len()
        invariant
            lo <= hi <= v.len(),
            hi - lo >= p.len(),
            s == v@.subrange(lo as int, hi as int),
            k <= p.len(),
            forall|j: int| 0 <= j < k ==> v@[lo + j] == p@[j],
        decreases p.len() - k,
    {
        if v[lo + k] != p[k] {
            assert(s.take(p.len() as int)[k as int] != p@[k as int]);
            return false;
        }
        k += 1;
    }
    assert(s.take(p.len() as int) =~= p@);
    true
}

/// Whether `v[lo..hi]` ends with `p`.
pub fn ends_with_in(v: &Vec<char>, lo: usize, hi: usize, p: &Vec<char>) -> (r: bool)
    requires
        lo <= hi <= v.len(),
    ensures
        r == has_suffix(v@.subrange(lo as int, hi as int), p@),
{
    let ghost s = v@.subrange(lo as int, hi as int);
    if hi - lo < p.len() {
        return false;
    }
    let base = hi - p.len();
    let mut k: usize = 0;
    while k < p.len()
        invariant
            lo <= base <= hi <= v.len(),
            base + p.len() == hi,
            s == v@.subrange(lo as int, hi as int),
            k <= p.len(),
            forall|j: int| 0 <= j < k ==> v@[base + j] == p@[j],
        decreases p.len() - k,
    {
        if v[base + k] != p[k] {
            assert(s.skip(s.len() - p.len())[k as int] != p@[k as int]);
            return false;
        }
        k += 1;
    }
    assert(s.skip(s.len() - p.len()) =~= p@);
    true
}

/// Whether `v[lo..hi]` holds exactly the characters of `p`.
pub fn equals_in(v: &Vec<char>, lo: usize, hi: usize, p: &Vec<char>) -> (r: bool)
    requires
        lo <= hi <= v.len(),
    ensures
        r == (v@.subrange(lo as int, hi as int) == p@),
{
    if hi - lo != p.len() {
        return false;
    }
    let r = starts_with_in(v, lo, hi, p);
    assert(v@.subrange(lo as int, hi as int).take(p.len() as int) =~= v@.subrange(
        lo as int,
        hi as int,
    ));
    r
}

/// Whether `v[lo..hi]` holds the character `c`.
pub fn contains_in(v: &Vec<char>, lo: usize, hi: usize, c: char) -> (r: bool)
    requires
        lo <= hi <= v.len(),
    ensures
        r == v@.subrange(lo as int, hi as int).contains(c),
{
    let ghost s = v@.subrange(lo as int, hi as int);
    let mut i = lo;
    while i < hi
        invariant
            lo <= i <= hi <= v.len(),
            s == v@.subrange(lo as int, hi as int),
            forall|j: int| lo <= j < i ==> v@[j] != c,
        decreases hi - i,
    {
        if v[i] == c {
            assert(s[i - lo] == c);
            return true;
        }
        i += 1;
    }
    assert(forall|j: int| 0 <= j < s.len() ==> s[j] != c <== v@[lo + j] != c);
    false
}

/// `s` with every leading copy of `p` removed (`str::trim_start_matches`).
pub open spec fn strip_prefix_all(s: Seq<char>, p: Seq<char>) -> Seq<char>
    decreases s.len(),
{
    if p.len() > 0 && has_prefix(s, p) {
        strip_prefix_all(s.skip(p.len() as int), p)
    } else {
        s
    }
}

/// `s` with every trailing copy of `p` removed (`str::trim_end_matches`).
pub open spec fn strip_suffix_all(s: Seq<char>, p: Seq<char>) -> Seq<char>
    decreases s.len(),
{
    if p.len() > 0 && has_suffix(s, p) {
        strip_suffix_all(s.take(s.len() - p.len()), p)
    } else {
        s
    }
}

/// The start of `v[lo..hi]` once every leading copy of `p` is removed.
pub fn strip_prefix_all_in(v: &Vec<char>, lo: usize, hi: usize, p: &Vec<char>) -> (i: usize)
    requires
        lo <= hi <= v.len(),
    ensures
        lo <= i <= hi,
        v@.subrange(i as int, hi as int) == strip_prefix_all(v@.subrange(lo as int, hi as int), p@),
{
    let mut i = lo;
    if p.len() == 0 {
        return i;
    }
    while starts_with_in(v, i, hi, p)
        invariant
            lo <= i <= hi <= v.len(),
            p.len() > 0,
            strip_prefix_all(v@.subrange(i as int, hi as int), p@) == strip_prefix_all(
                v@.subrange(lo as int, hi as int),
                p@,
            ),
        decreases hi - i,
    {
        assert(v@.subrange(i as int, hi as int).skip(p.len() as int) =~= v@.subrange(
            i + p.len(),
            hi as int,
        ));
        i = i + p.len();
    }
    i
}

/// The end of `v[lo..hi]` once every trailing copy of `p` is removed.
pub fn strip_suffix_all_in(v: &Vec<char>, lo: usize, hi: usize, p: &Vec<char>) -> (j: usize)
    requires
        lo <= hi <= v.len(),
    ensures
        lo <= j <= hi,
        v@.subrange(lo as int, j as int) == strip_suffix_all(v@.subrange(lo as int, hi as int), p@),
{
    let mut j = hi;
    if p.len() == 0 {
        return j;
    }
    while ends_with_in(v, lo, j, p)
        invariant
            lo <= j <= hi <= v.len(),
            p.len() > 0,
            strip_suffix_all(v@.subrange(lo as int, j as int), p@) == strip_suffix_all(
                v@.subrange(lo as int, hi as int),
                p@,
            ),
        decreases j - lo,
    {
        assert(v@.subrange(lo as int, j as int).take(j - lo - p.len()) =~= v@.subrange(
            lo as int,
            j - p.len(),
        ));
        j = j - p.len();
    }
    j
}

} // verus!
