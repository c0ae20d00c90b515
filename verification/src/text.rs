//! Text as sequences of characters: the vocabulary in which the rest of the
//! crate states what it reads and writes.

use vstd::prelude::*;

verus! {

/// The number of elements at the front of `s` that all satisfy `p`: the
/// length of the longest prefix on which `p` holds throughout.
pub open spec fn run_length<A>(s: Seq<A>, p: spec_fn(A) -> bool) -> nat
    decreases s.len(),
{
    if s.len() > 0 && p(s[0]) {
        1 + run_length(s.skip(1), p)
    } else {
        0
    }
}

/// `run_length` stays inside the sequence, `p` holds before it and fails at it.
pub proof fn lemma_run_length<A>(s: Seq<A>, p: spec_fn(A) -> bool)
    ensures
        run_length(s, p) <= s.len(),
        forall|j: int| 0 <= j < run_length(s, p) ==> p(#[trigger] s[j]),
        run_length(s, p) < s.len() ==> !p(s[run_length(s, p) as int]),
    decreases s.len(),
{
    if s.len() > 0 && p(s[0]) {
        let t = s.skip(1);
        lemma_run_length(t, p);
        assert forall|j: int| 0 <= j < run_length(s, p) implies p(#[trigger] s[j]) by {
            if j > 0 {
                assert(s[j] == t[j - 1]);
            }
        }
        if run_length(s, p) < s.len() {
            assert(s[run_length(s, p) as int] == t[run_length(t, p) as int]);
        }
    }
}

/// Any index with `p` before it and not at it is the `run_length`.
pub proof fn lemma_run_length_is<A>(s: Seq<A>, p: spec_fn(A) -> bool, n: int)
    requires
        0 <= n <= s.len(),
        forall|j: int| 0 <= j < n ==> p(#[trigger] s[j]),
        n < s.len() ==> !p(s[n]),
    ensures
        run_length(s, p) == n,
    decreases s.len(),
{
    if n > 0 {
        let t = s.skip(1);
        assert(p(s[0]));
        assert forall|j: int| 0 <= j < n - 1 implies p(#[trigger] t[j]) by {
            assert(t[j] == s[j + 1]);
        }
        if n - 1 < t.len() {
            assert(t[n - 1] == s[n]);
        }
        lemma_run_length_is(t, p, n - 1);
    }
}

/// Whether Unicode counts `c` as white space (`White_Space`).
pub open spec fn is_whitespace(c: char) -> bool {
    let n = c as u32;
    ||| 0x09 <= n <= 0x0d
    ||| n == 0x20
    ||| n == 0x85
    ||| n == 0xa0
    ||| n == 0x1680
    ||| 0x2000 <= n <= 0x200a
    ||| n == 0x2028
    ||| n == 0x2029
    ||| n == 0x202f
    ||| n == 0x205f
    ||| n == 0x3000
}

/// `s` without its leading whitespace.
pub open spec fn trim_start(s: Seq<char>) -> Seq<char> {
    s.skip(run_length(s, whitespace()) as int)
}

/// `s` without its trailing whitespace.
pub open spec fn trim_end(s: Seq<char>) -> Seq<char> {
    s.take(s.len() - run_length(s.reverse(), whitespace()))
}

/// `s` without its leading and trailing whitespace.
pub open spec fn trim(s: Seq<char>) -> Seq<char> {
    trim_end(trim_start(s))
}

/// The predicate that holds of whitespace.
pub open spec fn whitespace() -> spec_fn(char) -> bool {
    |c: char| is_whitespace(c)
}

/// Trimming at the start takes away whitespace and nothing else, and leaves
/// none at the start: the rest stays as it is.
pub proof fn lemma_trim_start(s: Seq<char>)
    ensures
        trim_start(s).len() <= s.len(),
        trim_start(s) == s.skip(s.len() - trim_start(s).len()),
        forall|i: int| 0 <= i < s.len() - trim_start(s).len() ==> is_whitespace(#[trigger] s[i]),
        trim_start(s).len() > 0 ==> !is_whitespace(trim_start(s)[0]),
{
    lemma_run_length(s, whitespace());
}

/// Trimming at the end takes away whitespace and nothing else, and leaves
/// none at the end: the rest stays as it is.
pub proof fn lemma_trim_end(s: Seq<char>)
    ensures
        trim_end(s).len() <= s.len(),
        trim_end(s) == s.take(trim_end(s).len() as int),
        forall|i: int| trim_end(s).len() <= i < s.len() ==> is_whitespace(#[trigger] s[i]),
        trim_end(s).len() > 0 ==> !is_whitespace(trim_end(s).last()),
{
    let back = s.reverse();
    lemma_run_length(back, whitespace());
    let n = run_length(back, whitespace());
    assert forall|i: int| s.len() - n <= i < s.len() implies is_whitespace(#[trigger] s[i]) by {
        assert(s[i] == back[s.len() - 1 - i]);
    }
    if n < s.len() {
        assert(back[n as int] == s[s.len() - 1 - n]);
    }
}

/// The predicate that holds of every character but `c`.
pub open spec fn other_than(c: char) -> spec_fn(char) -> bool {
    |x: char| x != c
}

/// The index of the first `c` in `s`, or `s.len()` where `s` holds none.
pub open spec fn position(s: Seq<char>, c: char) -> int {
    run_length(s, other_than(c)) as int
}

/// What follows the first `c` in `s`; nothing where `s` holds no `c`.
pub open spec fn after_first(s: Seq<char>, c: char) -> Seq<char> {
    if position(s, c) < s.len() {
        s.skip(position(s, c) + 1)
    } else {
        Seq::empty()
    }
}

/// The text as the lines a buffered reader yields: cut after each line feed,
/// without the line feed and without a carriage return just before it. Text
/// after the last line feed is a line of its own unless it is empty.
pub open spec fn lines_of(text: Seq<char>) -> Seq<Seq<char>>
    decreases text.len(),
{
    let n = position(text, '\n');
    if text.len() == 0 {
        Seq::empty()
    } else if n < text.len() {
        seq![without_cr(text.take(n))] + lines_of(text.skip(n + 1))
    } else {
        seq![text]
    }
}

/// `line` without one trailing carriage return.
pub open spec fn without_cr(line: Seq<char>) -> Seq<char> {
    if line.len() > 0 && line.last() == '\r' {
        line.drop_last()
    } else {
        line
    }
}

/// The digit that stands for `d` in bases up to sixteen, in lower case.
pub open spec fn digit(d: int) -> char {
    seq!['0', '1', '2', '3', '4', '5', '6', '7', '8', '9', 'a', 'b', 'c', 'd', 'e', 'f'][d]
}

/// `n` in decimal notation, without leading zeros.
pub open spec fn decimal(n: nat) -> Seq<char>
    decreases n,
{
    if n < 10 {
        seq![digit(n as int)]
    } else {
        decimal(n / 10).push(digit((n % 10) as int))
    }
}

/// `n` in decimal notation, with zeros in front of it where it has fewer
/// than `width` digits.
pub open spec fn zero_padded(n: nat, width: nat) -> Seq<char> {
    let digits = decimal(n);
    if digits.len() < width {
        Seq::new((width - digits.len()) as nat, |i: int| '0') + digits
    } else {
        digits
    }
}

/// The number that decimal digits stand for.
pub open spec fn decimal_value(digits: Seq<char>) -> nat
    decreases digits.len(),
{
    if digits.len() == 0 {
        0
    } else {
        (decimal_value(digits.drop_last()) * 10 + (digits.last() as nat - '0' as nat)) as nat
    }
}

/// The decimal notation of a number stands for that number.
pub proof fn lemma_decimal_value(n: nat)
    ensures
        decimal_value(decimal(n)) == n,
    decreases n,
{
    let d = (n % 10) as int;
    assert(digit(d) as nat - '0' as nat == d) by {
        assert(d == 0 || d == 1 || d == 2 || d == 3 || d == 4 || d == 5 || d == 6 || d == 7
            || d == 8 || d == 9);
    }
    if n < 10 {
        assert(decimal(n).drop_last() =~= Seq::<char>::empty());
        assert(decimal_value(Seq::<char>::empty()) == 0);
    } else {
        lemma_decimal_value(n / 10);
        assert(decimal(n).drop_last() =~= decimal(n / 10));
    }
}

/// Zeros in front of digits do not change the number.
pub proof fn lemma_leading_zeros(zeros: nat, digits: Seq<char>)
    ensures
        decimal_value(Seq::new(zeros, |i: int| '0') + digits) == decimal_value(digits),
    decreases digits.len(), zeros,
{
    let front = Seq::new(zeros, |i: int| '0');
    if digits.len() == 0 {
        assert(front + digits =~= front);
        if zeros > 0 {
            assert(front.drop_last() =~= Seq::new((zeros - 1) as nat, |i: int| '0'));
            lemma_leading_zeros((zeros - 1) as nat, digits);
            assert(Seq::new((zeros - 1) as nat, |i: int| '0') + digits =~= front.drop_last());
        }
    } else {
        assert((front + digits).drop_last() =~= front + digits.drop_last());
        lemma_leading_zeros(zeros, digits.drop_last());
    }
}

/// Different numbers are written differently, padded or not.
pub proof fn lemma_zero_padded_differs(m: nat, n: nat, width: nat)
    requires
        m != n,
    ensures
        zero_padded(m, width) != zero_padded(n, width),
{
    lemma_decimal_value(m);
    lemma_decimal_value(n);
    if decimal(m).len() < width {
        lemma_leading_zeros((width - decimal(m).len()) as nat, decimal(m));
    }
    if decimal(n).len() < width {
        lemma_leading_zeros((width - decimal(n).len()) as nat, decimal(n));
    }
}

/// `n` in hexadecimal notation, in eight digits.
pub open spec fn hex8(n: u32) -> Seq<char> {
    let n = n as int;
    seq![
        digit(n / 0x1000_0000 % 16),
        digit(n / 0x100_0000 % 16),
        digit(n / 0x10_0000 % 16),
        digit(n / 0x1_0000 % 16),
        digit(n / 0x1000 % 16),
        digit(n / 0x100 % 16),
        digit(n / 0x10 % 16),
        digit(n % 16),
    ]
}

/// The characters of each string, in order.
pub open spec fn texts(strings: Seq<String>) -> Seq<Seq<char>> {
    strings.map_values(|s: String| s@)
}

/// The characters of each vector, in order.
pub open spec fn views(rows: Seq<Vec<char>>) -> Seq<Seq<char>> {
    rows.map_values(|r: Vec<char>| r@)
}

/// Tells whether `c` is whitespace.
pub fn char_is_whitespace(c: char) -> (b: bool)
    ensures
        b == is_whitespace(c),
{
    let n: u32 = c as u32;
    (0x09 <= n && n <= 0x0d) || n == 0x20 || n == 0x85 || n == 0xa0 || n == 0x1680 || (0x2000 <= n
        && n <= 0x200a) || n == 0x2028 || n == 0x2029 || n == 0x202f || n == 0x205f || n == 0x3000
}

/// The digit that stands for `d`.
pub fn digit_of(d: u8) -> (c: char)
    requires
        d < 16,
    ensures
        c == digit(d as int),
{
    if d < 10 {
        (48u8 + d) as char
    } else {
        (87u8 + d) as char
    }
}

/// Appends `n` in decimal notation.
pub fn push_decimal(out: &mut Vec<char>, n: u128)
    ensures
        final(out)@ == old(out)@ + decimal(n as nat),
    decreases n,
{
    if n >= 10 {
        push_decimal(out, n / 10);
    }
    out.push(digit_of((n % 10) as u8));
    assert(out@ =~= old(out)@ + decimal(n as nat));
}

/// `n` in decimal notation, in at least `width` digits.
pub fn zero_padded_decimal(n: u128, width: usize) -> (out: Vec<char>)
    ensures
        out@ == zero_padded(n as nat, width as nat),
{
    let mut digits: Vec<char> = Vec::new();
    push_decimal(&mut digits, n);
    assert(digits@ =~= decimal(n as nat));
    let mut out: Vec<char> = Vec::new();
    while out.len() + digits.len() < width
        invariant
            out@ == Seq::new(out@.len(), |i: int| '0'),
            digits@ == decimal(n as nat),
            out@.len() + digits@.len() <= width || out@.len() == 0,
        decreases width - out.len(),
    {
        out.push('0');
        assert(out@ =~= Seq::new(out@.len(), |i: int| '0'));
    }
    let mut i: usize = 0;
    let ghost zeros = out@;
    while i < digits.len()
        invariant
            i <= digits.len(),
            out@ == zeros + digits@.take(i as int),
        decreases digits.len() - i,
    {
        out.push(digits[i]);
        i += 1;
        assert(out@ =~= zeros + digits@.take(i as int));
    }
    assert(digits@.take(i as int) =~= digits@);
    out
}

/// `n` in hexadecimal notation, in eight digits.
pub fn hex8_of(n: u32) -> (out: Vec<char>)
    ensures
        out@ == hex8(n),
{
    let mut out: Vec<char> = Vec::new();
    out.push(digit_of((n / 0x1000_0000 % 16) as u8));
    out.push(digit_of((n / 0x100_0000 % 16) as u8));
    out.push(digit_of((n / 0x10_0000 % 16) as u8));
    out.push(digit_of((n / 0x1_0000 % 16) as u8));
    out.push(digit_of((n / 0x1000 % 16) as u8));
    out.push(digit_of((n / 0x100 % 16) as u8));
    out.push(digit_of((n / 0x10 % 16) as u8));
    out.push(digit_of((n % 16) as u8));
    assert(out@ =~= hex8(n));
    out
}

/// Tells whether the two strings differ.
pub fn differs(a: &String, b: &String) -> (d: bool)
    ensures
        d == (a@ != b@),
{
    !(*a == *b)
}

/// The characters of `s`.
pub fn chars_of(s: &str) -> (v: Vec<char>)
    ensures
        v@ == s@,
{
    let mut v: Vec<char> = Vec::new();
    for c in it: s.chars()
        invariant
            v@ == it.seq().take(it.index() as int),
    {
        v.push(c);
    }
    v
}

/// The index of the first `c` at or after `from`, or the length of `s`.
pub fn find_from(s: &Vec<char>, from: usize, c: char) -> (i: usize)
    requires
        from <= s.len(),
    ensures
        i == from + position(s@.skip(from as int), c),
        from <= i <= s.len(),
{
    let mut i: usize = from;
    while i < s.len() && s[i] != c
        invariant
            from <= i <= s.len(),
            forall|j: int| from <= j < i ==> s@[j] != c,
        decreases s.len() - i,
    {
        i += 1;
    }
    proof {
        let rest = s@.skip(from as int);
        lemma_run_length_is(rest, other_than(c), i - from);
    }
    i
}

/// The index at which `s`, read from `from`, stops being whitespace.
pub fn skip_whitespace(s: &Vec<char>, from: usize) -> (i: usize)
    requires
        from <= s.len(),
    ensures
        from <= i <= s.len(),
        s@.skip(i as int) == trim_start(s@.skip(from as int)),
{
    let mut i: usize = from;
    while i < s.len() && char_is_whitespace(s[i])
        invariant
            from <= i <= s.len(),
            forall|j: int| from <= j < i ==> is_whitespace(s@[j]),
        decreases s.len() - i,
    {
        i += 1;
    }
    proof {
        let rest = s@.skip(from as int);
        lemma_run_length_is(rest, whitespace(), i - from);
        assert(rest.skip(i - from) =~= s@.skip(i as int));
    }
    i
}

/// The index at which `s[from..to]` stops being whitespace, or `to`.
pub fn skip_whitespace_in(s: &Vec<char>, from: usize, to: usize) -> (i: usize)
    requires
        from <= to <= s.len(),
    ensures
        from <= i <= to,
        s@.subrange(i as int, to as int) == trim_start(s@.subrange(from as int, to as int)),
{
    let mut i: usize = from;
    while i < to && char_is_whitespace(s[i])
        invariant
            from <= i <= to <= s.len(),
            forall|j: int| from <= j < i ==> is_whitespace(s@[j]),
        decreases to - i,
    {
        i += 1;
    }
    proof {
        let part = s@.subrange(from as int, to as int);
        lemma_run_length_is(part, whitespace(), i - from);
        assert(part.skip(i - from) =~= s@.subrange(i as int, to as int));
    }
    i
}

/// The index just past the last character of `s[from..to]` that is no
/// whitespace, or `from` where there is none.
pub fn skip_whitespace_back(s: &Vec<char>, from: usize, to: usize) -> (i: usize)
    requires
        from <= to <= s.len(),
    ensures
        from <= i <= to,
        s@.subrange(from as int, i as int) == trim_end(s@.subrange(from as int, to as int)),
{
    let mut i: usize = to;
    while i > from && char_is_whitespace(s[i - 1])
        invariant
            from <= i <= to <= s.len(),
            forall|j: int| i <= j < to ==> is_whitespace(s@[j]),
        decreases i,
    {
        i -= 1;
    }
    proof {
        let part = s@.subrange(from as int, to as int);
        let back = part.reverse();
        assert forall|j: int| 0 <= j < to - i implies is_whitespace(#[trigger] back[j]) by {
            assert(back[j] == s@[to - 1 - j]);
        }
        if to - i < back.len() {
            assert(back[to - i] == s@[i - 1]);
        }
        lemma_run_length_is(back, whitespace(), to - i);
        assert(part.take(part.len() - (to - i)) =~= s@.subrange(from as int, i as int));
    }
    i
}

/// A copy of `s[from..to]`.
pub fn slice_of(s: &Vec<char>, from: usize, to: usize) -> (part: Vec<char>)
    requires
        from <= to <= s.len(),
    ensures
        part@ == s@.subrange(from as int, to as int),
{
    let mut part: Vec<char> = Vec::new();
    let mut i: usize = from;
    while i < to
        invariant
            from <= i <= to <= s.len(),
            part@ == s@.subrange(from as int, i as int),
        decreases to - i,
    {
        part.push(s[i]);
        i += 1;
        assert(part@ =~= s@.subrange(from as int, i as int));
    }
    part
}

/// Tells whether `s` begins with `prefix`.
pub fn starts_with(s: &Vec<char>, prefix: &Vec<char>) -> (b: bool)
    ensures
        b == prefix@.is_prefix_of(s@),
{
    if prefix.len() > s.len() {
        return false;
    }
    let mut i: usize = 0;
    while i < prefix.len()
        invariant
            i <= prefix.len() <= s.len(),
            forall|j: int| 0 <= j < i ==> s@[j] == prefix@[j],
        decreases prefix.len() - i,
    {
        if s[i] != prefix[i] {
            assert(s@.subrange(0, prefix@.len() as int)[i as int] != prefix@[i as int]);
            return false;
        }
        i += 1;
    }
    assert(prefix@ =~= s@.subrange(0, prefix@.len() as int));
    true
}

/// The lines of `text`.
pub fn lines(text: &Vec<char>) -> (rows: Vec<Vec<char>>)
    ensures
        views(rows@) == lines_of(text@),
{
    let mut rows: Vec<Vec<char>> = Vec::new();
    let mut start: usize = 0;
    assert(views(rows@) =~= Seq::<Seq<char>>::empty());
    assert(text@.skip(0) =~= text@);
    while start < text.len()
        invariant
            start <= text.len(),
            lines_of(text@) == views(rows@) + lines_of(text@.skip(start as int)),
        decreases text.len() - start,
    {
        let ghost rest = text@.skip(start as int);
        let ghost before = views(rows@);
        let end = find_from(text, start, '\n');
        let mut stop = end;
        if end < text.len() && end > start && text[end - 1] == '\r' {
            stop = end - 1;
        }
        let row = slice_of(text, start, stop);
        rows.push(row);
        proof {
            assert(views(rows@) =~= before.push(row@));
            if end < text.len() {
                assert(rest.take(end - start) =~= text@.subrange(start as int, end as int));
                assert(row@ =~= without_cr(rest.take(end - start)));
                assert(rest.skip(end - start + 1) =~= text@.skip(end + 1));
                assert(before + (seq![row@] + lines_of(text@.skip(end + 1))) =~= before.push(row@)
                    + lines_of(text@.skip(end + 1)));
            } else {
                assert(row@ =~= rest);
                assert(text@.skip(text.len() as int) =~= Seq::<char>::empty());
                assert(before + seq![rest] =~= before.push(row@) + lines_of(
                    text@.skip(text.len() as int),
                ));
            }
        }
        if end < text.len() {
            start = end + 1;
        } else {
            start = end;
        }
    }
    assert(text@.skip(start as int) =~= Seq::<char>::empty());
    rows
}

} // verus!
