use vstd::prelude::*;

verus! {

broadcast use vstd::string::group_string_axioms;

/// The characters of `s`, in order.
pub fn chars_of(s: &str) -> (r: Vec<char>)
    ensures
        r@ == s@,
{
    let mut out: Vec<char> = Vec::new();
    for c in it: s.chars()
        invariant
            out@.len() == it.index(),
            forall|k: int| 0 <= k < out@.len() ==> out@[k] == it.seq()[k],
    {
        out.push(c);
    }
    assert(out@ =~= s@);
    out
}


/// `String::push`: appends one character at the end of the string.
#[verifier::external_body]
pub(crate) fn push_char(s: &mut String, c: char)
    ensures
        final(s)@ == old(s)@.push(c),
{
    s.push(c);
}

/// Appends the characters `cs[from..to]` to `out`.
pub fn push_range(out: &mut String, cs: &Vec<char>, from: usize, to: usize)
    requires
        from <= to <= cs@.len(),
    ensures
        final(out)@ == old(out)@ + cs@.subrange(from as int, to as int),
{
    let mut i = from;
    while i < to
        invariant
            from <= i <= to <= cs@.len(),
            out@ == old(out)@ + cs@.subrange(from as int, i as int),
        decreases to - i,
    {
        push_char(out, cs[i]);
        assert(cs@.subrange(from as int, i + 1) =~= cs@.subrange(from as int, i as int).push(cs@[i as int]));
        i += 1;
    }
}

/// Appends all of `cs` to `out`.
pub fn push_chars(out: &mut String, cs: &Vec<char>)
    ensures
        final(out)@ == old(out)@ + cs@,
{
    push_range(out, cs, 0, cs.len());
    assert(cs@.subrange(0, cs@.len() as int) =~= cs@);
}

/// Appends the characters of `s` to `out`.
pub fn push_str(out: &mut String, s: &str)
    ensures
        final(out)@ == old(out)@ + s@,
{
    let cs = chars_of(s);
    push_chars(out, &cs);
}

/// A new string holding `cs[from..to]`.
pub fn string_of_range(cs: &Vec<char>, from: usize, to: usize) -> (r: String)
    requires
        from <= to <= cs@.len(),
    ensures
        r@ == cs@.subrange(from as int, to as int),
{
    let mut out = String::new();
    push_range(&mut out, cs, from, to);
    assert(out@ =~= cs@.subrange(from as int, to as int));
    out
}

/// A new string holding all of `cs`.
pub fn string_of(cs: &Vec<char>) -> (r: String)
    ensures
        r@ == cs@,
{
    let mut out = String::new();
    push_chars(&mut out, cs);
    assert(out@ =~= cs@);
    out
}

/// A new owned copy of `s`.
pub fn owned(s: &str) -> (r: String)
    ensures
        r@ == s@,
{
    let mut out = String::new();
    push_str(&mut out, s);
    assert(out@ =~= s@);
    out
}

/// Whether two character vectors are equal.
pub fn chars_equal(x: &Vec<char>, y: &Vec<char>) -> (r: bool)
    ensures
        r == (x@ == y@),
{
    if x.len() != y.len() {
        return false;
    }
    let mut i: usize = 0;
    while i < x.len()
        invariant
            x@.len() == y@.len(),
            i <= x@.len(),
            forall|k: int| 0 <= k < i ==> x@[k] == y@[k],
        decreases x@.len() - i,
    {
        if x[i] != y[i] {
            return false;
        }
        i += 1;
    }
    assert(x@ =~= y@);
    true
}

/// Whether `pat` occurs in `s` starting at index `i`.
pub open spec fn matches_at(s: Seq<char>, pat: Seq<char>, i: int) -> bool {
    0 <= i && i + pat.len() <= s.len() && s.subrange(i, i + pat.len()) == pat
}

/// Whether `cs[i..]` starts with `pat`.
pub fn matches_at_exec(cs: &Vec<char>, pat: &Vec<char>, i: usize) -> (r: bool)
    ensures
        r == matches_at(cs@, pat@, i as int),
{
    if i > cs.len() || pat.len() > cs.len() - i {
        return false;
    }
    let mut k: usize = 0;
    while k < pat.len()
        invariant
            i + pat@.len() <= cs@.len(),
            cs@.len() <= usize::MAX,
            k <= pat@.len(),
            forall|j: int| 0 <= j < k ==> cs@[i + j] == pat@[j],
        decreases pat@.len() - k,
    {
        if cs[i + k] != pat[k] {
            assert(cs@.subrange(i as int, i + pat@.len())[k as int] != pat@[k as int]);
            return false;
        }
        k += 1;
    }
    assert(cs@.subrange(i as int, i + pat@.len()) =~= pat@);
    true
}

/// The first index at or after `i` where `pat` occurs in `s`.
pub open spec fn find_from(s: Seq<char>, pat: Seq<char>, i: int) -> Option<int>
    decreases s.len() - i,
{
    if i < 0 || i + pat.len() > s.len() {
        None
    } else if pat.len() == 0 || matches_at(s, pat, i) {
        Some(i)
    } else {
        find_from(s, pat, i + 1)
    }
}

/// The first index where `pat` occurs in `s`, as `str::find` reports it.
pub open spec fn find(s: Seq<char>, pat: Seq<char>) -> Option<int> {
    find_from(s, pat, 0)
}

/// The first index at or after `from` where `pat` occurs in `cs`.
pub fn find_exec(cs: &Vec<char>, pat: &Vec<char>, from: usize) -> (r: Option<usize>)
    ensures
        match r {
            Some(k) => find_from(cs@, pat@, from as int) == Some(k as int),
            None => find_from(cs@, pat@, from as int) is None,
        },
        r matches Some(k) ==> from <= k && k + pat@.len() <= cs@.len(),
{
    let mut i = from;
    while i <= cs.len() && pat.len() <= cs.len() - i
        invariant
            from <= i,
            find_from(cs@, pat@, from as int) == find_from(cs@, pat@, i as int),
        decreases cs@.len() + 1 - i,
    {
        if pat.len() == 0 || matches_at_exec(cs, pat, i) {
            return Some(i);
        }
        i += 1;
    }
    None
}

/// The last index where `c` occurs in `s`, as `str::rfind` reports it for a character.
pub open spec fn rfind_char(s: Seq<char>, c: char) -> Option<int>
    decreases s.len(),
{
    if s.len() == 0 {
        None
    } else if s.last() == c {
        Some(s.len() - 1)
    } else {
        rfind_char(s.drop_last(), c)
    }
}

/// The last index in `cs[..to]` where `c` occurs.
pub fn rfind_char_exec(cs: &Vec<char>, to: usize, c: char) -> (r: Option<usize>)
    requires
        to <= cs@.len(),
    ensures
        match r {
            Some(k) => rfind_char(cs@.subrange(0, to as int), c) == Some(k as int),
            None => rfind_char(cs@.subrange(0, to as int), c) is None,
        },
        r matches Some(k) ==> k < to,
{
    let mut j = to;
    while j > 0
        invariant
            j <= to <= cs@.len(),
            rfind_char(cs@.subrange(0, to as int), c) == rfind_char(cs@.subrange(0, j as int), c),
        decreases j,
    {
        if cs[j - 1] == c {
            return Some(j - 1);
        }
        assert(cs@.subrange(0, j as int).drop_last() =~= cs@.subrange(0, j - 1));
        j -= 1;
    }
    None
}


/// The characters with the Unicode `White_Space` property.
pub open spec fn is_white(c: char) -> bool {
    let n = c as u32;
    (0x09 <= n <= 0x0d) || n == 0x20 || n == 0x85 || n == 0xa0 || n == 0x1680 || (0x2000 <= n
        <= 0x200a) || n == 0x2028 || n == 0x2029 || n == 0x202f || n == 0x205f || n == 0x3000
}

/// Whether `c` has the Unicode `White_Space` property, as `char::is_whitespace`
/// decides it.
pub fn is_whitespace(c: char) -> (r: bool)
    ensures
        r == is_white(c),
{
    let n = c as u32;
    (0x09 <= n && n <= 0x0d) || n == 0x20 || n == 0x85 || n == 0xa0 || n == 0x1680 || (0x2000
        <= n && n <= 0x200a) || n == 0x2028 || n == 0x2029 || n == 0x202f || n == 0x205f || n
        == 0x3000
}

/// `s` without its leading whitespace.
pub open spec fn trim_start(s: Seq<char>) -> Seq<char>
    decreases s.len(),
{
    if s.len() > 0 && is_white(s[0]) {
        trim_start(s.drop_first())
    } else {
        s
    }
}

/// `s` without its trailing whitespace.
pub open spec fn trim_end(s: Seq<char>) -> Seq<char>
    decreases s.len(),
{
    if s.len() > 0 && is_white(s.last()) {
        trim_end(s.drop_last())
    } else {
        s
    }
}

/// `s` without leading and trailing whitespace, as `str::trim` gives it.
pub open spec fn trim(s: Seq<char>) -> Seq<char> {
    trim_end(trim_start(s))
}

/// The bounds of `trim(cs[from..to])` within `cs`.
pub fn trim_range(cs: &Vec<char>, from: usize, to: usize) -> (r: (usize, usize))
    requires
        from <= to <= cs@.len(),
    ensures
        from <= r.0 <= r.1 <= to,
        cs@.subrange(r.0 as int, r.1 as int) == trim(cs@.subrange(from as int, to as int)),
{
    let mut i = from;
    while i < to && is_whitespace(cs[i])
        invariant
            from <= i <= to <= cs@.len(),
            trim_start(cs@.subrange(from as int, to as int)) == trim_start(
                cs@.subrange(i as int, to as int),
            ),
        decreases to - i,
    {
        assert(cs@.subrange(i as int, to as int).drop_first() =~= cs@.subrange(i + 1, to as int));
        i += 1;
    }
    assert(trim_start(cs@.subrange(i as int, to as int)) == cs@.subrange(i as int, to as int));
    let mut j = to;
    while j > i && is_whitespace(cs[j - 1])
        invariant
            i <= j <= to <= cs@.len(),
            trim_end(cs@.subrange(i as int, to as int)) == trim_end(
                cs@.subrange(i as int, j as int),
            ),
        decreases j,
    {
        assert(cs@.subrange(i as int, j as int).drop_last() =~= cs@.subrange(i as int, j - 1));
        j -= 1;
    }
    (i, j)
}

/// `s` trimmed, as a new string.
pub fn trimmed(s: &str) -> (r: String)
    ensures
        r@ == trim(s@),
{
    let cs = chars_of(s);
    let (a, b) = trim_range(&cs, 0, cs.len());
    assert(cs@.subrange(0, cs@.len() as int) =~= cs@);
    string_of_range(&cs, a, b)
}

/// `line` without one trailing carriage return.
pub open spec fn strip_cr(line: Seq<char>) -> Seq<char> {
    if line.len() > 0 && line.last() == '\r' {
        line.drop_last()
    } else {
        line
    }
}

/// The lines of `s`, with `cur` the part of the current line already read.
pub open spec fn lines_acc(s: Seq<char>, cur: Seq<char>) -> Seq<Seq<char>>
    decreases s.len(),
{
    if s.len() == 0 {
        if cur.len() == 0 {
            seq![]
        } else {
            seq![cur]
        }
    } else if s[0] == '\n' {
        seq![strip_cr(cur)] + lines_acc(s.drop_first(), seq![])
    } else {
        lines_acc(s.drop_first(), cur.push(s[0]))
    }
}

/// The lines of `s`, as `str::lines` gives them: split at `\n`, each line without
/// its `\n` or `\r\n` ending, and no empty line after a final line ending.
pub open spec fn lines(s: Seq<char>) -> Seq<Seq<char>> {
    lines_acc(s, seq![])
}

/// The character sequences of a vector of character vectors.
pub open spec fn char_rows(v: Seq<Vec<char>>) -> Seq<Seq<char>> {
    v.map_values(|l: Vec<char>| l@)
}

/// The lines of `cs`.
pub fn lines_of(cs: &Vec<char>) -> (r: Vec<Vec<char>>)
    ensures
        char_rows(r@) == lines(cs@),
{
    let mut out: Vec<Vec<char>> = Vec::new();
    let mut cur: Vec<char> = Vec::new();
    let mut i: usize = 0;
    assert(cs@.skip(0) =~= cs@);
    while i < cs.len()
        invariant
            i <= cs@.len(),
            lines(cs@) == char_rows(out@) + lines_acc(cs@.skip(i as int), cur@),
        decreases cs@.len() - i,
    {
        let c = cs[i];
        let ghost rest = cs@.skip(i as int);
        assert(rest.drop_first() =~= cs@.skip(i + 1));
        if c == '\n' {
            let ghost before = cur@;
            if cur.len() > 0 && cur[cur.len() - 1] == '\r' {
                cur.pop();
            }
            assert(cur@ =~= strip_cr(before));
            let ghost old_rows = char_rows(out@);
            out.push(cur);
            assert(char_rows(out@) =~= old_rows.push(strip_cr(before)));
            cur = Vec::new();
            assert(lines_acc(rest, before) == seq![strip_cr(before)] + lines_acc(cs@.skip(i + 1), seq![]));
            assert(old_rows + (seq![strip_cr(before)] + lines_acc(cs@.skip(i + 1), cur@))
                =~= old_rows.push(strip_cr(before)) + lines_acc(cs@.skip(i + 1), cur@));
        } else {
            cur.push(c);
        }
        i += 1;
    }
    let ghost rows = char_rows(out@);
    if cur.len() > 0 {
        out.push(cur);
        assert(char_rows(out@) =~= rows + seq![cur@]);
    } else {
        assert(char_rows(out@) =~= rows + seq![]);
    }
    out
}


/// The pieces of `s` between occurrences of `sep`, with `cur` the part of the
/// current piece already read.
pub open spec fn split_acc(s: Seq<char>, sep: char, cur: Seq<char>) -> Seq<Seq<char>>
    decreases s.len(),
{
    if s.len() == 0 {
        seq![cur]
    } else if s[0] == sep {
        seq![cur] + split_acc(s.drop_first(), sep, seq![])
    } else {
        split_acc(s.drop_first(), sep, cur.push(s[0]))
    }
}

/// The pieces of `s` between occurrences of `sep`, as `str::split` gives them
/// for a character: always at least one piece, empty pieces kept.
pub open spec fn split_char(s: Seq<char>, sep: char) -> Seq<Seq<char>> {
    split_acc(s, sep, seq![])
}

/// The pieces of `cs[from..to]` between occurrences of `sep`.
pub fn split_char_exec(cs: &Vec<char>, from: usize, to: usize, sep: char) -> (r: Vec<Vec<char>>)
    requires
        from <= to <= cs@.len(),
    ensures
        char_rows(r@) == split_char(cs@.subrange(from as int, to as int), sep),
{
    let ghost s = cs@.subrange(from as int, to as int);
    let mut out: Vec<Vec<char>> = Vec::new();
    let mut cur: Vec<char> = Vec::new();
    let mut i = from;
    assert(s.skip(0) =~= s);
    while i < to
        invariant
            from <= i <= to <= cs@.len(),
            s == cs@.subrange(from as int, to as int),
            split_char(s, sep) == char_rows(out@) + split_acc(s.skip(i - from), sep, cur@),
        decreases to - i,
    {
        let c = cs[i];
        let ghost rest = s.skip(i - from);
        assert(rest[0] == c);
        assert(rest.drop_first() =~= s.skip(i + 1 - from));
        if c == sep {
            let ghost before = cur@;
            let ghost old_rows = char_rows(out@);
            out.push(cur);
            assert(char_rows(out@) =~= old_rows.push(before));
            cur = Vec::new();
            assert(old_rows + (seq![before] + split_acc(s.skip(i + 1 - from), sep, cur@))
                =~= old_rows.push(before) + split_acc(s.skip(i + 1 - from), sep, cur@));
        } else {
            cur.push(c);
        }
        i += 1;
    }
    let ghost rows = char_rows(out@);
    out.push(cur);
    assert(char_rows(out@) =~= rows + seq![cur@]);
    out
}

/// `s` with every occurrence of `pat` (found left to right, without overlap)
/// replaced by `to`, as `str::replace` gives it for a non-empty pattern.
pub open spec fn replace(s: Seq<char>, pat: Seq<char>, to: Seq<char>) -> Seq<char>
    decreases s.len(),
{
    if s.len() == 0 || pat.len() == 0 {
        s
    } else if matches_at(s, pat, 0) {
        to + replace(s.skip(pat.len() as int), pat, to)
    } else {
        seq![s[0]] + replace(s.drop_first(), pat, to)
    }
}

/// `cs` with every occurrence of `pat` replaced by `to`.
pub fn replace_exec(cs: &Vec<char>, pat: &Vec<char>, to: &Vec<char>) -> (r: Vec<char>)
    requires
        pat@.len() > 0,
    ensures
        r@ == replace(cs@, pat@, to@),
{
    let mut out: Vec<char> = Vec::new();
    let mut i: usize = 0;
    assert(cs@.skip(0) =~= cs@);
    while i < cs.len()
        invariant
            i <= cs@.len(),
            pat@.len() > 0,
            replace(cs@, pat@, to@) == out@ + replace(cs@.skip(i as int), pat@, to@),
        decreases cs@.len() - i,
    {
        let ghost rest = cs@.skip(i as int);
        if matches_at_exec(cs, pat, i) {
            assert(rest.subrange(0, pat@.len() as int) =~= cs@.subrange(i as int, i + pat@.len()));
            assert(rest.skip(pat@.len() as int) =~= cs@.skip(i + pat@.len()));
            let ghost before = out@;
            let mut k: usize = 0;
            while k < to.len()
                invariant
                    k <= to@.len(),
                    out@ == before + to@.subrange(0, k as int),
                decreases to@.len() - k,
            {
                out.push(to[k]);
                assert(to@.subrange(0, k + 1) =~= to@.subrange(0, k as int).push(to@[k as int]));
                k += 1;
            }
            assert(to@.subrange(0, to@.len() as int) =~= to@);
            assert(before + (to@ + replace(rest.skip(pat@.len() as int), pat@, to@)) =~= out@
                + replace(cs@.skip(i + pat@.len()), pat@, to@));
            i += pat.len();
        } else {
            if pat.len() <= cs.len() - i {
                assert(rest.subrange(0, pat@.len() as int) =~= cs@.subrange(i as int, i + pat@.len()));
            }
            assert(rest.drop_first() =~= cs@.skip(i + 1));
            let ghost before = out@;
            out.push(cs[i]);
            assert(before + (seq![rest[0]] + replace(rest.drop_first(), pat@, to@)) =~= out@
                + replace(cs@.skip(i + 1), pat@, to@));
            i += 1;
        }
    }
    assert(out@ + replace(cs@.skip(i as int), pat@, to@) =~= out@);
    out
}


/// Whether `c` is an ASCII decimal digit.
pub open spec fn is_digit(c: char) -> bool {
    48 <= (c as u32) <= 57
}

/// The value of an ASCII decimal digit.
pub open spec fn digit_value(c: char) -> int {
    (c as u32) - 48
}

/// The value of a string of decimal digits, most significant first.
pub open spec fn digits_value(s: Seq<char>) -> int
    decreases s.len(),
{
    if s.len() == 0 {
        0
    } else {
        digits_value(s.drop_last()) * 10 + digit_value(s.last())
    }
}

/// `s` without one leading `+`.
pub open spec fn unsigned_digits(s: Seq<char>) -> Seq<char> {
    if s.len() > 0 && s[0] == '+' {
        s.drop_first()
    } else {
        s
    }
}

/// What parsing `s` as a `u32` gives, as `str::parse::<u32>` does it: an optional
/// `+`, then one or more decimal digits whose value fits in 32 bits.
pub open spec fn parse_u32(s: Seq<char>) -> Option<u32> {
    let d = unsigned_digits(s);
    if d.len() > 0 && (forall|i: int| 0 <= i < d.len() ==> is_digit(#[trigger] d[i])) && digits_value(
        d,
    ) <= u32::MAX {
        Some(digits_value(d) as u32)
    } else {
        None
    }
}

/// Parses `cs[from..to]` as a `u32`.
pub fn parse_u32_exec(cs: &Vec<char>, from: usize, to: usize) -> (r: Option<u32>)
    requires
        from <= to <= cs@.len(),
    ensures
        r == parse_u32(cs@.subrange(from as int, to as int)),
{
    let ghost s = cs@.subrange(from as int, to as int);
    let mut start = from;
    if from < to && cs[from] == '+' {
        start = from + 1;
    }
    let ghost d = cs@.subrange(start as int, to as int);
    assert(d =~= unsigned_digits(s));
    if start == to {
        return None;
    }
    let mut acc: u64 = 0;
    let mut over = false;
    let mut i = start;
    assert(d.take(0) =~= Seq::<char>::empty());
    while i < to
        invariant
            start <= i <= to <= cs@.len(),
            d == cs@.subrange(start as int, to as int),
            d == unsigned_digits(cs@.subrange(from as int, to as int)),
            forall|k: int| 0 <= k < i - start ==> is_digit(#[trigger] d[k]),
            !over ==> acc == digits_value(d.take(i - start)) && acc <= u32::MAX,
            over ==> digits_value(d.take(i - start)) > u32::MAX,
        decreases to - i,
    {
        let c = cs[i];
        assert(d[i - start] == c);
        let code = c as u32;
        if code < 48 || code > 57 {
            assert(!is_digit(d[i - start]));
            return None;
        }
        assert(d.take(i + 1 - start).drop_last() =~= d.take(i - start));
        assert(d.take(i + 1 - start).last() == c);
        if !over {
            let v = acc * 10 + (code - 48) as u64;
            if v > 0xffff_ffff {
                over = true;
            } else {
                acc = v;
            }
        }
        i += 1;
    }
    assert(d.take(to - start) =~= d);
    if over {
        None
    } else {
        Some(acc as u32)
    }
}

/// The ASCII character of a decimal digit.
pub open spec fn digit_char(d: int) -> char {
    (d + 48) as char
}

/// The decimal representation of `n`, without leading zeros.
pub open spec fn decimal(n: nat) -> Seq<char>
    decreases n,
{
    if n < 10 {
        seq![digit_char(n as int)]
    } else {
        decimal(n / 10).push(digit_char((n % 10) as int))
    }
}

fn digit_of(d: u64) -> (r: char)
    requires
        d < 10,
    ensures
        r == digit_char(d as int),
{
    let b: u8 = 48 + d as u8;
    b as char
}

/// Appends the decimal representation of `n` to `out`.
pub fn push_decimal(out: &mut String, n: u64)
    ensures
        final(out)@ == old(out)@ + decimal(n as nat),
{
    let mut m = n;
    let mut low: Vec<char> = Vec::new();
    while m >= 10
        invariant
            decimal(n as nat) == decimal(m as nat) + low@.reverse(),
        decreases m,
    {
        let d = digit_of(m % 10);
        let ghost before = low@;
        low.push(d);
        assert(low@.reverse() =~= seq![d] + before.reverse());
        assert(decimal(m as nat) == decimal((m / 10) as nat).push(d));
        assert(decimal(m as nat) + before.reverse() =~= decimal((m / 10) as nat) + (seq![d]
            + before.reverse()));
        m = m / 10;
    }
    push_char(out, digit_of(m));
    assert(low@.reverse().take(0) =~= Seq::<char>::empty());
    let mut j = low.len();
    while j > 0
        invariant
            j <= low@.len(),
            out@ == old(out)@ + decimal(m as nat) + low@.reverse().take(low@.len() - j),
        decreases j,
    {
        let ghost before = out@;
        push_char(out, low[j - 1]);
        assert(low@.reverse().take(low@.len() - j + 1) =~= low@.reverse().take(low@.len() - j).push(
            low@[j - 1],
        ));
        j -= 1;
    }
    assert(low@.reverse().take(low@.len() as int) =~= low@.reverse());
    assert(old(out)@ + decimal(m as nat) + low@.reverse() =~= old(out)@ + (decimal(m as nat)
        + low@.reverse()));
}


/// Whether `s` begins with `prefix`.
pub open spec fn starts_with(s: Seq<char>, prefix: Seq<char>) -> bool {
    matches_at(s, prefix, 0)
}

/// The characters of each string.
pub open spec fn texts(v: Seq<String>) -> Seq<Seq<char>> {
    v.map_values(|s: String| s@)
}

/// The characters of each string slice.
pub open spec fn strs(v: Seq<&str>) -> Seq<Seq<char>> {
    v.map_values(|s: &str| s@)
}

/// A copy of `cs[from..to]`.
pub fn slice_chars(cs: &Vec<char>, from: usize, to: usize) -> (r: Vec<char>)
    requires
        from <= to <= cs@.len(),
    ensures
        r@ == cs@.subrange(from as int, to as int),
{
    let mut out: Vec<char> = Vec::new();
    let mut i = from;
    while i < to
        invariant
            from <= i <= to <= cs@.len(),
            out@ == cs@.subrange(from as int, i as int),
        decreases to - i,
    {
        out.push(cs[i]);
        assert(cs@.subrange(from as int, i + 1) =~= cs@.subrange(from as int, i as int).push(cs@[i as int]));
        i += 1;
    }
    out
}


/// A search finds the first place where the pattern occurs: when it occurs
/// at `k` and no earlier character could start it, it is found at `k`.
pub proof fn lemma_find_first(s: Seq<char>, pat: Seq<char>, k: int)
    requires
        pat.len() > 0,
        matches_at(s, pat, k),
        forall|j: int| 0 <= j < k ==> s[j] != pat[0],
    ensures
        find(s, pat) == Some(k),
{
    lemma_find_from_reaches(s, pat, 0, k);
}

proof fn lemma_find_from_reaches(s: Seq<char>, pat: Seq<char>, i: int, k: int)
    requires
        pat.len() > 0,
        0 <= i <= k,
        matches_at(s, pat, k),
        forall|j: int| 0 <= j < k ==> s[j] != pat[0],
    ensures
        find_from(s, pat, i) == Some(k),
    decreases k - i,
{
    if i < k {
        if matches_at(s, pat, i) {
            assert(s.subrange(i, i + pat.len())[0] == s[i]);
        }
        lemma_find_from_reaches(s, pat, i + 1, k);
    }
}

/// A search finds nothing when no character could start the pattern.
pub proof fn lemma_find_none(s: Seq<char>, pat: Seq<char>)
    requires
        pat.len() > 0,
        forall|j: int| 0 <= j < s.len() ==> s[j] != pat[0],
    ensures
        find(s, pat) is None,
{
    lemma_find_from_none(s, pat, 0);
}

proof fn lemma_find_from_none(s: Seq<char>, pat: Seq<char>, i: int)
    requires
        pat.len() > 0,
        0 <= i,
        forall|j: int| 0 <= j < s.len() ==> s[j] != pat[0],
    ensures
        find_from(s, pat, i) is None,
    decreases s.len() - i,
{
    if i + pat.len() <= s.len() {
        if matches_at(s, pat, i) {
            assert(s.subrange(i, i + pat.len())[0] == s[i]);
        }
        lemma_find_from_none(s, pat, i + 1);
    }
}

/// The last occurrence of a character is found: when `c` is at `k` and not
/// after it, `rfind_char` gives `k`.
pub proof fn lemma_rfind_last(s: Seq<char>, c: char, k: int)
    requires
        0 <= k < s.len(),
        s[k] == c,
        forall|j: int| k < j < s.len() ==> s[j] != c,
    ensures
        rfind_char(s, c) == Some(k),
    decreases s.len(),
{
    if s.last() != c {
        assert(s.drop_last()[k] == c);
        lemma_rfind_last(s.drop_last(), c, k);
    }
}

/// A decimal representation is non-empty and made of digits.
pub proof fn lemma_decimal_digits(n: nat)
    ensures
        decimal(n).len() > 0,
        forall|i: int| 0 <= i < decimal(n).len() ==> #[trigger] is_digit(decimal(n)[i]),
        digits_value(decimal(n)) == n,
    decreases n,
{
    let d = digit_char((n % 10) as int);
    assert((d as u32) == (n % 10) + 48);
    assert(digit_value(d) == n % 10);
    if n < 10 {
        assert(decimal(n).drop_last() =~= Seq::<char>::empty());
        assert(decimal(n).last() == d);
        assert(digits_value(Seq::<char>::empty()) == 0);
        assert(digits_value(decimal(n)) == n);
    } else {
        lemma_decimal_digits(n / 10);
        assert(decimal(n).drop_last() =~= decimal(n / 10));
        assert(decimal(n).last() == d);
        assert(digits_value(decimal(n)) == digits_value(decimal(n / 10)) * 10 + digit_value(d));
        assert((n / 10) * 10 + n % 10 == n);
        assert forall|i: int| 0 <= i < decimal(n).len() implies #[trigger] is_digit(decimal(n)[i]) by {
            if i < decimal(n).len() - 1 {
                assert(decimal(n)[i] == decimal(n / 10)[i]);
            }
        }
    }
}

/// Parsing a number's decimal representation gives the number back.
pub proof fn lemma_parse_u32_decimal(n: u32)
    ensures
        parse_u32(decimal(n as nat)) == Some(n),
{
    lemma_decimal_digits(n as nat);
    let d = decimal(n as nat);
    assert(is_digit(d[0]));
    assert(d[0] != '+');
    assert(unsigned_digits(d) == d);
}

/// Whether `pat` occurs anywhere in `s`.
pub open spec fn occurs(s: Seq<char>, pat: Seq<char>) -> bool {
    exists|k: int| matches_at(s, pat, k)
}

/// Whether `s` ends with `suffix`.
pub open spec fn ends_with(s: Seq<char>, suffix: Seq<char>) -> bool {
    matches_at(s, suffix, s.len() - suffix.len())
}

/// An occurrence stays where it is when text is added after it or shifts by the
/// length of text added before it.
pub proof fn lemma_matches_within(a: Seq<char>, s: Seq<char>, b: Seq<char>, pat: Seq<char>, k: int)
    requires
        matches_at(s, pat, k),
    ensures
        matches_at(a + s + b, pat, a.len() + k),
{
    assert((a + s + b).subrange(a.len() + k, a.len() + k + pat.len()) =~= s.subrange(
        k,
        k + pat.len(),
    ));
}

/// Text occurs in itself, at the start.
pub proof fn lemma_matches_self(s: Seq<char>)
    ensures
        matches_at(s, s, 0),
{
    assert(s.subrange(0, s.len() as int) =~= s);
}

/// Whether `c` does not occur in `s`.
pub open spec fn lacks(s: Seq<char>, c: char) -> bool {
    forall|j: int| 0 <= j < s.len() ==> s[j] != c
}

/// `pieces` joined by the character `sep`.
pub open spec fn join_char(pieces: Seq<Seq<char>>, sep: char) -> Seq<char>
    decreases pieces.len(),
{
    if pieces.len() == 0 {
        Seq::empty()
    } else if pieces.len() == 1 {
        pieces[0]
    } else {
        pieces[0] + seq![sep] + join_char(pieces.drop_first(), sep)
    }
}

proof fn lemma_split_acc_free(a: Seq<char>, sep: char, cur: Seq<char>)
    requires
        lacks(a, sep),
    ensures
        split_acc(a, sep, cur) == seq![cur + a],
    decreases a.len(),
{
    if a.len() == 0 {
        assert(cur + a =~= cur);
    } else {
        lemma_split_acc_free(a.drop_first(), sep, cur.push(a[0]));
        assert(cur.push(a[0]) + a.drop_first() =~= cur + a);
    }
}

proof fn lemma_split_acc_piece(a: Seq<char>, sep: char, cur: Seq<char>, b: Seq<char>)
    requires
        lacks(a, sep),
    ensures
        split_acc(a + seq![sep] + b, sep, cur) == seq![cur + a] + split_acc(b, sep, seq![]),
    decreases a.len(),
{
    let s = a + seq![sep] + b;
    if a.len() == 0 {
        assert(s.drop_first() =~= b);
        assert(cur + a =~= cur);
    } else {
        assert(s[0] == a[0]);
        assert(s.drop_first() =~= a.drop_first() + seq![sep] + b);
        lemma_split_acc_piece(a.drop_first(), sep, cur.push(a[0]), b);
        assert(cur.push(a[0]) + a.drop_first() =~= cur + a);
    }
}

/// Splitting pieces joined by a separator that none of them holds gives the
/// pieces back.
pub proof fn lemma_split_join(pieces: Seq<Seq<char>>, sep: char)
    requires
        pieces.len() > 0,
        forall|i: int| 0 <= i < pieces.len() ==> lacks(#[trigger] pieces[i], sep),
    ensures
        split_char(join_char(pieces, sep), sep) == pieces,
    decreases pieces.len(),
{
    let e = Seq::<char>::empty();
    if pieces.len() == 1 {
        lemma_split_acc_free(pieces[0], sep, e);
        assert(e + pieces[0] =~= pieces[0]);
        assert(seq![pieces[0]] =~= pieces);
    } else {
        let rest = pieces.drop_first();
        assert(lacks(pieces[0], sep));
        assert forall|i: int| 0 <= i < rest.len() implies lacks(#[trigger] rest[i], sep) by {
            assert(rest[i] == pieces[i + 1]);
        }
        lemma_split_join(rest, sep);
        lemma_split_acc_piece(pieces[0], sep, e, join_char(rest, sep));
        assert(e + pieces[0] =~= pieces[0]);
        assert(seq![pieces[0]] + rest =~= pieces);
    }
}

/// A character that neither the pieces nor the separator hold is not in their
/// join.
pub proof fn lemma_join_char_lacks(pieces: Seq<Seq<char>>, sep: char, c: char)
    requires
        c != sep,
        forall|i: int| 0 <= i < pieces.len() ==> lacks(#[trigger] pieces[i], c),
    ensures
        lacks(join_char(pieces, sep), c),
    decreases pieces.len(),
{
    if pieces.len() > 1 {
        let rest = pieces.drop_first();
        assert(lacks(pieces[0], c));
        assert forall|i: int| 0 <= i < rest.len() implies lacks(#[trigger] rest[i], c) by {
            assert(rest[i] == pieces[i + 1]);
        }
        lemma_join_char_lacks(rest, sep, c);
        let j = join_char(pieces, sep);
        assert forall|k: int| 0 <= k < j.len() implies j[k] != c by {
            if k > pieces[0].len() {
                assert(j[k] == join_char(rest, sep)[k - pieces[0].len() - 1]);
            }
        }
    } else if pieces.len() == 1 {
        assert(lacks(pieces[0], c));
    }
}

} // verus!
