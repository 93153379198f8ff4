use vstd::prelude::*;

verus! {

broadcast use vstd::string::group_string_axioms;

/// The Unicode White_Space property, which `char::is_whitespace`, `str::trim` and
/// `str::split_whitespace` go by.
pub open spec fn is_white_space(c: char) -> bool {
    let u = c as u32;
    ||| 9 <= u <= 13
    ||| u == 32
    ||| u == 0x85
    ||| u == 0xA0
    ||| u == 0x1680
    ||| 0x2000 <= u <= 0x200A
    ||| u == 0x2028
    ||| u == 0x2029
    ||| u == 0x202F
    ||| u == 0x205F
    ||| u == 0x3000
}

/// Whether `c` is white space.
pub fn white_space(c: char) -> (r: bool)
    ensures
        r == is_white_space(c),
{
    let u = c as u32;
    (9 <= u && u <= 13) || u == 32 || u == 0x85 || u == 0xA0 || u == 0x1680 || (0x2000 <= u && u
        <= 0x200A) || u == 0x2028 || u == 0x2029 || u == 0x202F || u == 0x205F || u == 0x3000
}

/// `s` without its leading and trailing white space.
pub open spec fn trim(s: Seq<char>) -> Seq<char>
    decreases s.len(),
{
    if s.len() == 0 {
        s
    } else if is_white_space(s[0]) {
        trim(s.drop_first())
    } else if is_white_space(s.last()) {
        trim(s.drop_last())
    } else {
        s
    }
}

/// The maximal runs of non-white-space characters of `s`.
pub open spec fn words(s: Seq<char>) -> Seq<Seq<char>>
    decreases s.len(),
{
    if s.len() == 0 {
        Seq::empty()
    } else {
        let w = words(s.drop_last());
        let c = s.last();
        if is_white_space(c) {
            w
        } else if s.len() >= 2 && !is_white_space(s[s.len() - 2]) {
            w.drop_last().push(w.last().push(c))
        } else {
            w.push(seq![c])
        }
    }
}

/// The pieces of `s` between occurrences of `d` (one piece more than there are `d`s).
pub open spec fn pieces(s: Seq<char>, d: char) -> Seq<Seq<char>>
    decreases s.len(),
{
    if s.len() == 0 {
        seq![Seq::empty()]
    } else {
        let p = pieces(s.drop_last(), d);
        if s.last() == d {
            p.push(Seq::empty())
        } else {
            p.drop_last().push(p.last().push(s.last()))
        }
    }
}

/// The trimmed pieces that are not empty, in order.
pub open spec fn nonempty_trimmed(ps: Seq<Seq<char>>) -> Seq<Seq<char>>
    decreases ps.len(),
{
    if ps.len() == 0 {
        Seq::empty()
    } else {
        let r = nonempty_trimmed(ps.drop_last());
        let t = trim(ps.last());
        if t.len() > 0 {
            r.push(t)
        } else {
            r
        }
    }
}

/// The tokens of a line: its words when the delimiter is a space, else its pieces
/// between delimiters, trimmed, without the empty ones.
pub open spec fn line_tokens(s: Seq<char>, delimiter: char) -> Seq<Seq<char>> {
    if delimiter == ' ' {
        words(s)
    } else {
        nonempty_trimmed(pieces(s, delimiter))
    }
}

/// The texts of the character ranges `r` of `s`.
pub open spec fn range_texts(s: Seq<char>, r: Seq<(usize, usize)>) -> Seq<Seq<char>> {
    r.map_values(|p: (usize, usize)| s.subrange(p.0 as int, p.1 as int))
}

/// Every range of `r` lies within `s`.
pub open spec fn ranges_within(s: Seq<char>, r: Seq<(usize, usize)>) -> bool {
    forall|k: int| 0 <= k < r.len() ==> #[trigger] r[k].0 <= r[k].1 <= s.len()
}

/// The characters of `line`.
pub fn chars_of(line: &str) -> (v: Vec<char>)
    ensures
        v@ == line@,
{
    let mut v: Vec<char> = Vec::new();
    for c in it: line.chars()
        invariant
            v@ == it.seq().take(it.index() as int),
    {
        v.push(c);
    }
    v
}

proof fn lemma_trim_range(s: Seq<char>, a: int, b: int)
    requires
        0 <= a <= b <= s.len(),
        forall|i: int| 0 <= i < a ==> is_white_space(#[trigger] s[i]),
        forall|i: int| b <= i < s.len() ==> is_white_space(#[trigger] s[i]),
        a < b ==> !is_white_space(s[a]) && !is_white_space(s[b - 1]),
        a == b ==> forall|i: int| 0 <= i < s.len() ==> is_white_space(#[trigger] s[i]),
    ensures
        trim(s) == s.subrange(a, b),
    decreases s.len(),
{
    if s.len() == 0 {
        assert(s.subrange(a, b) =~= s);
    } else if is_white_space(s[0]) {
        let t = s.drop_first();
        if a == b {
            lemma_trim_range(t, t.len() as int, t.len() as int);
            assert(t.subrange(t.len() as int, t.len() as int) =~= s.subrange(a, b));
        } else {
            lemma_trim_range(t, a - 1, b - 1);
            assert(t.subrange(a - 1, b - 1) =~= s.subrange(a, b));
        }
    } else if is_white_space(s.last()) {
        let t = s.drop_last();
        lemma_trim_range(t, a, b);
        assert(t.subrange(a, b) =~= s.subrange(a, b));
    } else {
        assert(s.subrange(a, b) =~= s);
    }
}

/// The bounds of `s[lo..hi]` without its leading and trailing white space.
pub fn trim_bounds(s: &Vec<char>, lo: usize, hi: usize) -> (r: (usize, usize))
    requires
        lo <= hi <= s@.len(),
    ensures
        lo <= r.0 <= r.1 <= hi,
        trim(s@.subrange(lo as int, hi as int)) == s@.subrange(r.0 as int, r.1 as int),
{
    let mut a = lo;
    while a < hi && white_space(s[a])
        invariant
            lo <= a <= hi <= s@.len(),
            forall|i: int| lo <= i < a ==> is_white_space(#[trigger] s@[i]),
        decreases hi - a,
    {
        a += 1;
    }
    let mut b = hi;
    while b > a && white_space(s[b - 1])
        invariant
            lo <= a <= b <= hi <= s@.len(),
            forall|i: int| b <= i < hi ==> is_white_space(#[trigger] s@[i]),
        decreases b - a,
    {
        b -= 1;
    }
    proof {
        let t = s@.subrange(lo as int, hi as int);
        lemma_trim_range(t, a - lo, b - lo);
        assert(t.subrange(a - lo, b - lo) =~= s@.subrange(a as int, b as int));
    }
    (a, b)
}

/// The character ranges of the words of `s`.
pub fn word_ranges(s: &Vec<char>) -> (r: Vec<(usize, usize)>)
    ensures
        ranges_within(s@, r@),
        range_texts(s@, r@) == words(s@),
{
    let n = s.len();
    let mut ranges: Vec<(usize, usize)> = Vec::new();
    let mut start: usize = 0;
    let mut in_word = false;
    let mut j: usize = 0;
    while j < n
        invariant
            n == s@.len(),
            0 <= j <= n,
            ranges_within(s@, ranges@),
            in_word ==> start < j,
            in_word <==> (j > 0 && !is_white_space(s@[j - 1])),
            in_word ==> range_texts(s@, ranges@).push(s@.subrange(start as int, j as int)) == words(
                s@.take(j as int),
            ),
            !in_word ==> range_texts(s@, ranges@) == words(s@.take(j as int)),
        decreases n - j,
    {
        let c = s[j];
        proof {
            assert(s@.take(j + 1).drop_last() =~= s@.take(j as int));
            assert(s@.take(j + 1).last() == c);
        }
        if white_space(c) {
            if in_word {
                proof {
                    assert(range_texts(s@, ranges@.push((start, j))) =~= range_texts(
                        s@,
                        ranges@,
                    ).push(s@.subrange(start as int, j as int)));
                }
                ranges.push((start, j));
                in_word = false;
            }
        } else {
            if in_word {
                proof {
                    assert(s@.take(j + 1)[j - 1] == s@[j - 1]);
                    assert(s@.subrange(start as int, j + 1) =~= s@.subrange(
                        start as int,
                        j as int,
                    ).push(c));
                    let w = words(s@.take(j as int));
                    assert(w.drop_last() =~= range_texts(s@, ranges@));
                }
            } else {
                proof {
                    if j > 0 {
                        assert(s@.take(j + 1)[j - 1] == s@[j - 1]);
                    }
                    assert(s@.subrange(j as int, j + 1) =~= seq![c]);
                }
                start = j;
                in_word = true;
            }
        }
        j += 1;
    }
    proof {
        assert(s@.take(n as int) =~= s@);
    }
    if in_word {
        proof {
            assert(range_texts(s@, ranges@.push((start, n))) =~= range_texts(s@, ranges@).push(
                s@.subrange(start as int, n as int),
            ));
        }
        ranges.push((start, n));
    }
    ranges
}


/// The character ranges of the trimmed, non-empty pieces of `s` between occurrences
/// of `d`.
pub fn piece_ranges(s: &Vec<char>, d: char) -> (r: Vec<(usize, usize)>)
    ensures
        ranges_within(s@, r@),
        range_texts(s@, r@) == nonempty_trimmed(pieces(s@, d)),
{
    let n = s.len();
    let mut ranges: Vec<(usize, usize)> = Vec::new();
    let mut start: usize = 0;
    let ghost mut done: Seq<Seq<char>> = Seq::empty();
    let mut j: usize = 0;
    proof {
        assert(s@.take(0) =~= Seq::<char>::empty());
        assert(s@.subrange(0, 0) =~= Seq::<char>::empty());
    }
    while j < n
        invariant
            n == s@.len(),
            0 <= start <= j <= n,
            ranges_within(s@, ranges@),
            pieces(s@.take(j as int), d) == done.push(s@.subrange(start as int, j as int)),
            range_texts(s@, ranges@) == nonempty_trimmed(done),
        decreases n - j,
    {
        let c = s[j];
        proof {
            assert(s@.take(j + 1).drop_last() =~= s@.take(j as int));
            assert(s@.take(j + 1).last() == c);
        }
        if c == d {
            let (a, b) = trim_bounds(s, start, j);
            let ghost piece = s@.subrange(start as int, j as int);
            proof {
                let done2 = done.push(piece);
                assert(done2.drop_last() =~= done);
                assert(done2.last() == piece);
                assert(s@.subrange(j + 1, j + 1) =~= Seq::<char>::empty());
            }
            if a < b {
                proof {
                    assert(range_texts(s@, ranges@.push((a, b))) =~= range_texts(s@, ranges@).push(
                        s@.subrange(a as int, b as int),
                    ));
                }
                ranges.push((a, b));
            }
            proof {
                done = done.push(piece);
            }
            start = j + 1;
        } else {
            proof {
                let p = pieces(s@.take(j as int), d);
                assert(p.drop_last() =~= done);
                assert(s@.subrange(start as int, j + 1) =~= s@.subrange(start as int, j as int).push(
                    c,
                ));
                assert(p.drop_last().push(p.last().push(c)) =~= done.push(
                    s@.subrange(start as int, j + 1),
                ));
            }
        }
        j += 1;
    }
    proof {
        assert(s@.take(n as int) =~= s@);
    }
    let (a, b) = trim_bounds(s, start, n);
    proof {
        let piece = s@.subrange(start as int, n as int);
        let done2 = done.push(piece);
        assert(done2.drop_last() =~= done);
        assert(done2.last() == piece);
    }
    if a < b {
        proof {
            assert(range_texts(s@, ranges@.push((a, b))) =~= range_texts(s@, ranges@).push(
                s@.subrange(a as int, b as int),
            ));
        }
        ranges.push((a, b));
    }
    ranges
}

/// The character is an ASCII decimal digit.
pub open spec fn is_digit(c: char) -> bool {
    '0' <= c <= '9'
}

/// The number that the decimal digits `s` write.
pub open spec fn digits_value(s: Seq<char>) -> int
    decreases s.len(),
{
    if s.len() == 0 {
        0
    } else {
        digits_value(s.drop_last()) * 10 + (s.last() as int - '0' as int)
    }
}

/// `s` without its leading `+`, if it has one.
pub open spec fn unsigned_body(s: Seq<char>) -> Seq<char> {
    if s.len() > 0 && s[0] == '+' {
        s.drop_first()
    } else {
        s
    }
}

/// Every character of `s` is a decimal digit.
pub open spec fn all_digits(s: Seq<char>) -> bool {
    forall|i: int| 0 <= i < s.len() ==> is_digit(#[trigger] s[i])
}

/// What `usize::from_str` makes of `s`: an optional `+` followed by one or more
/// decimal digits whose value fits.
pub open spec fn decimal_usize(s: Seq<char>) -> Option<usize> {
    let body = unsigned_body(s);
    if body.len() > 0 && all_digits(body) && digits_value(body) <= usize::MAX {
        Some(digits_value(body) as usize)
    } else {
        None
    }
}

proof fn lemma_digits_value_grows(s: Seq<char>, k: int)
    requires
        0 <= k <= s.len(),
        forall|i: int| 0 <= i < s.len() ==> is_digit(#[trigger] s[i]),
    ensures
        0 <= digits_value(s.take(k)) <= digits_value(s),
    decreases s.len() - k,
{
    if k < s.len() {
        lemma_digits_value_grows(s, k + 1);
        assert(s.take(k + 1).drop_last() =~= s.take(k));
        assert(s.take(k + 1).last() == s[k]);
        assert(is_digit(s[k]));
        let v = digits_value(s.take(k));
        assert(v >= 0) by {
            lemma_digits_value_nonneg(s.take(k));
        }
        assert(v * 10 >= v) by (nonlinear_arith)
            requires
                v >= 0,
        ;
    } else {
        assert(s.take(k) =~= s);
        lemma_digits_value_nonneg(s);
    }
}

proof fn lemma_digits_value_nonneg(s: Seq<char>)
    requires
        forall|i: int| 0 <= i < s.len() ==> is_digit(#[trigger] s[i]),
    ensures
        digits_value(s) >= 0,
    decreases s.len(),
{
    if s.len() > 0 {
        lemma_digits_value_nonneg(s.drop_last());
        assert(is_digit(s[s.len() - 1]));
        let v = digits_value(s.drop_last());
        assert(v * 10 >= 0) by (nonlinear_arith)
            requires
                v >= 0,
        ;
    }
}

/// Reads a non-negative integer as `usize::from_str` does.
pub fn parse_usize(s: &Vec<char>) -> (r: Option<usize>)
    ensures
        r == decimal_usize(s@),
{
    let n = s.len();
    let start: usize = if n > 0 && s[0] == '+' {
        1
    } else {
        0
    };
    let ghost body = unsigned_body(s@);
    proof {
        assert(body =~= s@.subrange(start as int, n as int));
    }
    if start == n {
        return None;
    }
    let mut value: usize = 0;
    let mut i: usize = start;
    while i < n
        invariant
            n == s@.len(),
            start <= i <= n,
            start < n,
            body =~= s@.subrange(start as int, n as int),
            body == unsigned_body(s@),
            forall|q: int| 0 <= q < i - start ==> is_digit(#[trigger] body[q]),
            value == digits_value(body.take(i - start)),
        decreases n - i,
    {
        let c = s[i];
        if !('0' <= c && c <= '9') {
            proof {
                assert(body[i - start] == c);
                assert(!is_digit(body[i - start]));
            }
            return None;
        }
        let digit = (c as u32 - '0' as u32) as usize;
        proof {
            assert(body[i - start] == c);
            assert(body.take(i - start + 1).drop_last() =~= body.take(i - start));
            assert(body.take(i - start + 1).last() == c);
            assert(digits_value(body.take(i - start + 1)) == value * 10 + digit);
        }
        match value.checked_mul(10) {
            Some(v10) => match v10.checked_add(digit) {
                Some(v) => {
                    value = v;
                },
                None => {
                    proof {
                        lemma_overflow_means_none(body, i - start + 1);
                    }
                    return None;
                },
            },
            None => {
                proof {
                    assert(digits_value(body.take(i - start + 1)) >= value * 10);
                    lemma_overflow_means_none(body, i - start + 1);
                }
                return None;
            },
        }
        i += 1;
    }
    proof {
        assert(body.take(n - start) =~= body);
    }
    Some(value)
}

proof fn lemma_overflow_means_none(body: Seq<char>, k: int)
    requires
        0 < k <= body.len(),
        forall|q: int| 0 <= q < k ==> is_digit(#[trigger] body[q]),
        digits_value(body.take(k)) > usize::MAX,
    ensures
        !(forall|i: int| 0 <= i < body.len() ==> is_digit(#[trigger] body[i])) || digits_value(body)
            > usize::MAX,
{
    if forall|i: int| 0 <= i < body.len() ==> is_digit(#[trigger] body[i]) {
        lemma_digits_value_grows(body, k);
    }
}

} // verus!
