//! Text building blocks: decimal numerals, repetition, padding and joining.

use vstd::prelude::*;
use vstd::string::*;

verus! {

/// The character of a decimal digit.
pub open spec fn digit_char(d: nat) -> char {
    if d == 0 { '0' }
    else if d == 1 { '1' }
    else if d == 2 { '2' }
    else if d == 3 { '3' }
    else if d == 4 { '4' }
    else if d == 5 { '5' }
    else if d == 6 { '6' }
    else if d == 7 { '7' }
    else if d == 8 { '8' }
    else { '9' }
}

/// The decimal numeral of `n`, without sign or leading zeros (as `{}` prints it).
pub open spec fn decimal(n: nat) -> Seq<char>
    decreases n,
{
    if n < 10 {
        seq![digit_char(n)]
    } else {
        decimal(n / 10).push(digit_char(n % 10))
    }
}

/// A decimal numeral is never empty.
pub proof fn lemma_decimal_nonempty(n: nat)
    ensures
        decimal(n).len() >= 1,
    decreases n,
{
    if n >= 10 {
        lemma_decimal_nonempty(n / 10);
    }
}

/// Different numbers have different numerals.
pub proof fn lemma_decimal_injective(a: nat, b: nat)
    requires
        decimal(a) == decimal(b),
    ensures
        a == b,
    decreases a,
{
    if a < 10 && b < 10 {
        assert(decimal(a)[0] == digit_char(a));
        assert(decimal(b)[0] == digit_char(b));
    } else if a < 10 {
        lemma_decimal_nonempty(b / 10);
        assert(decimal(b).len() >= 2);
    } else if b < 10 {
        lemma_decimal_nonempty(a / 10);
        assert(decimal(a).len() >= 2);
    } else {
        assert(decimal(a).last() == digit_char(a % 10));
        assert(decimal(b).last() == digit_char(b % 10));
        assert(decimal(a).drop_last() == decimal(a / 10));
        assert(decimal(b).drop_last() == decimal(b / 10));
        lemma_decimal_injective(a / 10, b / 10);
        assert(a == (a / 10) * 10 + a % 10);
        assert(b == (b / 10) * 10 + b % 10);
    }
}

/// Two texts that end in the same suffix are equal when the texts are.
pub proof fn lemma_same_suffix(a: Seq<char>, b: Seq<char>, x: Seq<char>)
    requires
        a + x == b + x,
    ensures
        a == b,
{
    assert((a + x).len() == a.len() + x.len());
    assert((b + x).len() == b.len() + x.len());
    assert(a.len() == b.len());
    assert((a + x).subrange(0, a.len() as int) == a);
    assert((b + x).subrange(0, b.len() as int) == b);
}

/// `s` repeated `n` times.
pub open spec fn repeat_seq(s: Seq<char>, n: nat) -> Seq<char>
    decreases n,
{
    if n == 0 {
        Seq::empty()
    } else {
        repeat_seq(s, (n - 1) as nat) + s
    }
}

fn digit_str(d: u64) -> (res: &'static str)
    requires
        d < 10,
    ensures
        res@ == seq![digit_char(d as nat)],
{
    proof {
        reveal_strlit("0");
        reveal_strlit("1");
        reveal_strlit("2");
        reveal_strlit("3");
        reveal_strlit("4");
        reveal_strlit("5");
        reveal_strlit("6");
        reveal_strlit("7");
        reveal_strlit("8");
        reveal_strlit("9");
    }
    if d == 0 { "0" }
    else if d == 1 { "1" }
    else if d == 2 { "2" }
    else if d == 3 { "3" }
    else if d == 4 { "4" }
    else if d == 5 { "5" }
    else if d == 6 { "6" }
    else if d == 7 { "7" }
    else if d == 8 { "8" }
    else { "9" }
}

/// Appends the decimal numeral of `n` to `out`.
pub fn push_decimal(out: &mut String, n: u64)
    ensures
        final(out)@ == old(out)@ + decimal(n as nat),
    decreases n,
{
    if n < 10 {
        out.append(digit_str(n));
    } else {
        push_decimal(out, n / 10);
        out.append(digit_str(n % 10));
    }
}

/// The decimal numeral of `n`.
pub fn decimal_string(n: u64) -> (res: String)
    ensures
        res@ == decimal(n as nat),
{
    let mut s = String::new();
    push_decimal(&mut s, n);
    s
}

/// Appends `n` copies of `s` to `out`.
pub fn push_repeated(out: &mut String, s: &str, n: usize)
    ensures
        final(out)@ == old(out)@ + repeat_seq(s@, n as nat),
{
    let mut i: usize = 0;
    let ghost start = out@;
    while i < n
        invariant
            i <= n,
            out@ == start + repeat_seq(s@, i as nat),
        decreases n - i,
    {
        out.append(s);
        i = i + 1;
    }
}

/// `s` repeated `n` times.
pub fn repeat_str(s: &str, n: usize) -> (res: String)
    ensures
        res@ == repeat_seq(s@, n as nat),
{
    let mut res = String::new();
    push_repeated(&mut res, s, n);
    res
}

/// The pieces of `s` between occurrences of `sep` (as `str::split` with a
/// character pattern gives them): one more piece than there are separators.
pub open spec fn split_char(s: Seq<char>, sep: char) -> Seq<Seq<char>>
    decreases s.len(),
{
    if s.len() == 0 {
        seq![Seq::empty()]
    } else {
        let rest = split_char(s.drop_last(), sep);
        if s.last() == sep {
            rest.push(Seq::empty())
        } else {
            rest.update(rest.len() - 1, rest.last().push(s.last()))
        }
    }
}

/// There is always at least one piece.
pub proof fn lemma_split_nonempty(s: Seq<char>, sep: char)
    ensures
        split_char(s, sep).len() >= 1,
    decreases s.len(),
{
    if s.len() > 0 {
        lemma_split_nonempty(s.drop_last(), sep);
    }
}

/// The last piece is the text after the last separator.
pub proof fn lemma_split_last_piece(s: Seq<char>, sep: char, start: int)
    requires
        0 <= start <= s.len(),
        start == 0 || s[start - 1] == sep,
        forall|k: int| start <= k < s.len() ==> s[k] != sep,
    ensures
        split_char(s, sep).last() == s.subrange(start, s.len() as int),
    decreases s.len(),
{
    lemma_split_nonempty(s, sep);
    if s.len() > 0 {
        lemma_split_nonempty(s.drop_last(), sep);
        if start == s.len() {
        } else {
            lemma_split_last_piece(s.drop_last(), sep, start);
            assert(s.drop_last().subrange(start, s.len() - 1).push(s.last()) == s.subrange(start, s.len() as int));
        }
    }
}

/// The pieces of the first `i + 1` characters, given those of the first `i`.
proof fn lemma_split_step(s: Seq<char>, sep: char, i: int)
    requires
        0 <= i < s.len(),
    ensures
        split_char(s.take(i + 1), sep) == (if s[i] == sep {
            split_char(s.take(i), sep).push(Seq::empty())
        } else {
            let rest = split_char(s.take(i), sep);
            rest.update(rest.len() - 1, rest.last().push(s[i]))
        }),
{
    assert(s.take(i + 1).drop_last() == s.take(i));
}

/// Splits `s` at every `sep`.
pub fn split_on(s: &str, sep: char) -> (res: Vec<String>)
    ensures
        res@.map_values(|p: String| p@) == split_char(s@, sep),
{
    let n = s.unicode_len();
    let mut res: Vec<String> = Vec::new();
    let mut start: usize = 0;
    let mut i: usize = 0;
    assert(s@.take(0) == Seq::<char>::empty());
    assert(res@.map_values(|p: String| p@) == Seq::<Seq<char>>::empty());
    assert(s@.subrange(0, 0) == Seq::<char>::empty());
    while i < n
        invariant
            n == s@.len(),
            start <= i <= n,
            start == 0 || s@[start - 1] == sep,
            forall|k: int| start <= k < i ==> s@[k] != sep,
            res@.map_values(|p: String| p@).push(s@.subrange(start as int, i as int)) == split_char(
                s@.take(i as int),
                sep,
            ),
        decreases n - i,
    {
        proof {
            lemma_split_step(s@, sep, i as int);
            lemma_split_nonempty(s@.take(i as int), sep);
        }
        let c = s.get_char(i);
        if c == sep {
            let piece = s.substring_char(start, i);
            let ghost before = res@.map_values(|p: String| p@);
            res.push(String::from_str(piece));
            assert(res@.map_values(|p: String| p@) == before.push(s@.subrange(start as int, i as int)));
            start = i + 1;
            i = i + 1;
            assert(s@.subrange(start as int, i as int) == Seq::<char>::empty());
        } else {
            let ghost before = res@.map_values(|p: String| p@);
            assert(s@.subrange(start as int, i + 1) == s@.subrange(start as int, i as int).push(c));
            i = i + 1;
        }
    }
    let piece = s.substring_char(start, n);
    let ghost before = res@.map_values(|p: String| p@);
    res.push(String::from_str(piece));
    assert(res@.map_values(|p: String| p@) == before.push(s@.subrange(start as int, n as int)));
    assert(s@.take(n as int) == s@);
    res
}

/// `s` left-aligned in a field of `width` characters (`{:<width$}`).
pub open spec fn pad_right(s: Seq<char>, width: nat) -> Seq<char> {
    if s.len() < width {
        s + repeat_seq(" "@, (width - s.len()) as nat)
    } else {
        s
    }
}

/// Appends `s` left-aligned in a field of `width` characters.
pub fn push_padded(out: &mut String, s: &str, width: usize)
    ensures
        final(out)@ == old(out)@ + pad_right(s@, width as nat),
{
    let n = s.unicode_len();
    out.append(s);
    if n < width {
        push_repeated(out, " ", width - n);
    }
}

/// Whether two strings hold the same text.
pub fn str_eq(a: &str, b: &str) -> (res: bool)
    ensures
        res == (a@ == b@),
{
    String::from_str(a) == String::from_str(b)
}

/// Joins texts with a separator between neighbours.
pub open spec fn join_seq(parts: Seq<Seq<char>>, sep: Seq<char>) -> Seq<char>
    decreases parts.len(),
{
    if parts.len() == 0 {
        Seq::empty()
    } else if parts.len() == 1 {
        parts[0]
    } else {
        join_seq(parts.drop_last(), sep) + sep + parts.last()
    }
}

/// Joins strings with `sep` between neighbours (as `[String]::join`).
pub fn join_strings(parts: &Vec<String>, sep: &str) -> (res: String)
    ensures
        res@ == join_seq(parts@.map_values(|p: String| p@), sep@),
{
    let ghost v = parts@.map_values(|p: String| p@);
    let mut res = String::new();
    let mut i: usize = 0;
    while i < parts.len()
        invariant
            i <= parts.len(),
            v == parts@.map_values(|p: String| p@),
            res@ == join_seq(v.take(i as int), sep@),
        decreases parts.len() - i,
    {
        assert(v.take(i + 1).drop_last() == v.take(i as int));
        if i > 0 {
            res.append(sep);
        } else {
            assert(v.take(1) == seq![v[0]]);
        }
        res.append(parts[i].as_str());
        i = i + 1;
    }
    assert(v.take(parts.len() as int) == v);
    res
}

/// A line as `str::lines` yields it: one `\r` before the line feed is dropped.
pub open spec fn strip_cr(line: Seq<char>) -> Seq<char> {
    if line.len() > 0 && line.last() == '\r' {
        line.drop_last()
    } else {
        line
    }
}

/// The lines of `s`: the pieces between line feeds, each with its `\r`
/// before the line feed removed; the last piece, which no line feed ends,
/// is kept as it is. (`str::lines` gives the same sequence, except that it
/// leaves out a last piece that is empty.)
pub open spec fn line_items(s: Seq<char>) -> Seq<Seq<char>> {
    let pieces = split_char(s, '\n');
    Seq::new(pieces.len(), |i: int| if i < pieces.len() - 1 { strip_cr(pieces[i]) } else { pieces[i] })
}

/// Drops a trailing carriage return.
pub fn strip_cr_exec(line: String) -> (res: String)
    ensures
        res@ == strip_cr(line@),
{
    let n = line.as_str().unicode_len();
    if n > 0 && line.as_str().get_char(n - 1) == '\r' {
        String::from_str(line.as_str().substring_char(0, n - 1))
    } else {
        line
    }
}

/// `s` with every trailing copy of `p` removed (as `str::trim_end_matches`
/// with a string pattern).
pub open spec fn trim_suffix_all(s: Seq<char>, p: Seq<char>) -> Seq<char>
    decreases s.len(),
{
    if p.len() > 0 && s.len() >= p.len() && s.subrange(s.len() - p.len(), s.len() as int) == p {
        trim_suffix_all(s.subrange(0, s.len() - p.len()), p)
    } else {
        s
    }
}

/// Removes every trailing copy of `p` from `s`.
pub fn trim_end_matches(s: &str, p: &str) -> (res: String)
    ensures
        res@ == trim_suffix_all(s@, p@),
{
    let m = p.unicode_len();
    let mut cur = String::from_str(s);
    if m == 0 {
        return cur;
    }
    loop
        invariant
            m == p@.len(),
            m > 0,
            trim_suffix_all(cur@, p@) == trim_suffix_all(s@, p@),
        decreases cur@.len(),
    {
        let n = cur.as_str().unicode_len();
        if n < m {
            return cur;
        }
        let tail = cur.as_str().substring_char(n - m, n);
        if !str_eq(tail, p) {
            return cur;
        }
        let head = String::from_str(cur.as_str().substring_char(0, n - m));
        cur = head;
    }
}

} // verus!
