//! Reading typed commands: splitting a line into words at whitespace, and
//! reading an unsigned decimal number.
use vstd::prelude::*;
use vstd::string::StrSliceExecFns;

verus! {

/// The Unicode `White_Space` characters, those that `char::is_whitespace`
/// accepts.
pub open spec fn is_whitespace(c: char) -> bool {
    let u = c as u32;
    ||| 0x9 <= u <= 0xd
    ||| u == 0x20
    ||| u == 0x85
    ||| u == 0xa0
    ||| u == 0x1680
    ||| 0x2000 <= u <= 0x200a
    ||| u == 0x2028
    ||| u == 0x2029
    ||| u == 0x202f
    ||| u == 0x205f
    ||| u == 0x3000
}

/// Whether `c` is a whitespace character.
pub fn is_ws(c: char) -> (r: bool)
    ensures
        r == is_whitespace(c),
{
    let u = c as u32;
    (0x9 <= u && u <= 0xd) || u == 0x20 || u == 0x85 || u == 0xa0 || u == 0x1680 || (0x2000 <= u
        && u <= 0x200a) || u == 0x2028 || u == 0x2029 || u == 0x202f || u == 0x205f || u == 0x3000
}

/// The words of `s`: its maximal runs of characters that are not
/// whitespace, in order.
pub open spec fn words(s: Seq<char>) -> Seq<Seq<char>>
    decreases s.len(),
{
    if s.len() == 0 {
        seq![]
    } else if is_whitespace(s.last()) {
        words(s.drop_last())
    } else if s.len() >= 2 && !is_whitespace(s[s.len() - 2]) {
        let w = words(s.drop_last());
        w.update(w.len() - 1, w.last().push(s.last()))
    } else {
        words(s.drop_last()).push(seq![s.last()])
    }
}

/// On ASCII characters, whitespace is exactly space, tab, line feed,
/// vertical tab, form feed and carriage return.
pub proof fn law_ascii_whitespace(c: char)
    requires
        (c as u32) < 0x80,
    ensures
        is_whitespace(c) <==> (c == ' ' || c == '\t' || c == '\n' || c == '\x0B' || c == '\x0C' || c == '\r'),
{
}

/// Every character of `t` is whitespace.
pub open spec fn all_whitespace(t: Seq<char>) -> bool {
    forall|i: int| 0 <= i < t.len() ==> is_whitespace(#[trigger] t[i])
}

proof fn lemma_words_blank(t: Seq<char>)
    requires
        all_whitespace(t),
    ensures
        words(t) == Seq::<Seq<char>>::empty(),
    decreases t.len(),
{
    if t.len() > 0 {
        assert(is_whitespace(t[t.len() - 1]));
        lemma_words_blank(t.drop_last());
    }
}

proof fn lemma_words_trailing(x: Seq<char>, u: Seq<char>)
    requires
        all_whitespace(u),
    ensures
        words(x + u) == words(x),
    decreases u.len(),
{
    if u.len() == 0 {
        assert(x + u =~= x);
    } else {
        assert((x + u).last() == u[u.len() - 1]);
        assert((x + u).drop_last() =~= x + u.drop_last());
        lemma_words_trailing(x, u.drop_last());
    }
}

proof fn lemma_words_leading(t: Seq<char>, s: Seq<char>)
    requires
        all_whitespace(t),
    ensures
        words(t + s) == words(s),
    decreases s.len(),
{
    let y = t + s;
    if s.len() == 0 {
        assert(y =~= t);
        lemma_words_blank(t);
    } else {
        assert(y.last() == s.last());
        assert(y.drop_last() =~= t + s.drop_last());
        lemma_words_leading(t, s.drop_last());
        if s.len() >= 2 {
            assert(y[y.len() - 2] == s[s.len() - 2]);
        } else if t.len() > 0 {
            assert(y[y.len() - 2] == t[t.len() - 1]);
        } else {
            assert(y =~= s);
        }
    }
}

/// Whitespace around a line never changes its words: a line typed with
/// leading blanks, or ended by `\r\n` or any other whitespace, reads as the
/// bare line.
pub proof fn law_words_ignore_surrounding_whitespace(t: Seq<char>, s: Seq<char>, u: Seq<char>)
    requires
        all_whitespace(t),
        all_whitespace(u),
    ensures
        words(t + s + u) == words(s),
{
    lemma_words_trailing(t + s, u);
    lemma_words_leading(t, s);
}

/// The contents of a vector of character vectors.
pub open spec fn char_vecs(v: Seq<Vec<char>>) -> Seq<Seq<char>> {
    v.map_values(|w: Vec<char>| w@)
}

/// The words of `s`, as `str::split_whitespace` gives them.
pub fn split_whitespace(s: &str) -> (r: Vec<Vec<char>>)
    ensures
        char_vecs(r@) == words(s@),
{
    let n = s.unicode_len();
    let mut out: Vec<Vec<char>> = Vec::new();
    let mut cur: Vec<char> = Vec::new();
    let mut i: usize = 0;
    assert(s@.take(0) =~= Seq::<char>::empty());
    while i < n
        invariant
            n == s@.len(),
            0 <= i <= n,
            (if cur@.len() > 0 {
                char_vecs(out@).push(cur@)
            } else {
                char_vecs(out@)
            }) == words(s@.take(i as int)),
            cur@.len() > 0 <==> (i > 0 && !is_whitespace(s@[i - 1])),
        decreases n - i,
    {
        let c = s.get_char(i);
        let ghost prefix = s@.take(i as int);
        let ghost next = s@.take(i + 1);
        assert(next.drop_last() =~= prefix);
        assert(next.last() == c);
        if i > 0 {
            assert(next[next.len() - 2] == s@[i - 1]);
        }
        if is_ws(c) {
            if cur.len() > 0 {
                let ghost ov = out@;
                out.push(cur);
                cur = Vec::new();
                assert(char_vecs(out@) =~= char_vecs(ov).push(out@.last()@));
            }
        } else {
            let ghost oc = cur@;
            cur.push(c);
            proof {
                if oc.len() > 0 {
                    let w = words(prefix);
                    assert(w =~= char_vecs(out@).push(oc));
                    assert(w.update(w.len() - 1, w.last().push(c)) =~= char_vecs(out@).push(cur@));
                } else {
                    assert(words(prefix) =~= char_vecs(out@));
                    assert(cur@ =~= seq![c]);
                }
            }
        }
        i += 1;
    }
    assert(s@.take(n as int) =~= s@);
    if cur.len() > 0 {
        let ghost ov = out@;
        out.push(cur);
        assert(char_vecs(out@) =~= char_vecs(ov).push(out@.last()@));
    }
    out
}

/// Whether two character vectors hold the same characters.
pub fn chars_eq(a: &Vec<char>, b: &Vec<char>) -> (r: bool)
    ensures
        r == (a@ == b@),
{
    if a.len() != b.len() {
        return false;
    }
    let n = a.len();
    for i in 0..n
        invariant
            n == a@.len(),
            n == b@.len(),
            forall|j: int| 0 <= j < i ==> a@[j] == b@[j],
    {
        if a[i] != b[i] {
            return false;
        }
    }
    assert(a@ =~= b@);
    true
}

pub open spec fn is_digit(c: char) -> bool {
    48 <= (c as u32) <= 57
}

/// The value of a decimal digit.
pub open spec fn digit_value(c: char) -> nat {
    ((c as u32) - 48) as nat
}

/// The number that the decimal digits `d` write.
pub open spec fn digits_value(d: Seq<char>) -> nat
    decreases d.len(),
{
    if d.len() == 0 {
        0
    } else {
        digits_value(d.drop_last()) * 10 + digit_value(d.last())
    }
}

/// `s` without a leading `+`.
pub open spec fn unsigned_digits(s: Seq<char>) -> Seq<char> {
    if s.len() > 0 && s[0] == '+' {
        s.drop_first()
    } else {
        s
    }
}

/// The `u64` that `s` writes in decimal, as `str::parse::<u64>` reads it:
/// an optional `+`, then at least one ASCII digit and nothing else, and a
/// value that fits.
pub open spec fn parse_u64_spec(s: Seq<char>) -> Option<u64> {
    let d = unsigned_digits(s);
    if d.len() > 0 && (forall|i: int| 0 <= i < d.len() ==> is_digit(#[trigger] d[i])) && digits_value(d)
        <= u64::MAX {
        Some(digits_value(d) as u64)
    } else {
        None
    }
}

/// A prefix of digits never writes a larger number than the whole.
proof fn lemma_digits_prefix(d: Seq<char>, k: int)
    requires
        0 <= k <= d.len(),
    ensures
        digits_value(d.take(k)) <= digits_value(d),
    decreases d.len() - k,
{
    if k < d.len() {
        lemma_digits_prefix(d, k + 1);
        assert(d.take(k + 1).drop_last() =~= d.take(k));
    } else {
        assert(d.take(k) =~= d);
    }
}

/// Reads the `u64` that `s` writes in decimal.
pub fn parse_u64(s: &Vec<char>) -> (r: Option<u64>)
    ensures
        r == parse_u64_spec(s@),
{
    let n = s.len();
    let start: usize = if n > 0 && s[0] == '+' {
        1
    } else {
        0
    };
    let ghost d = unsigned_digits(s@);
    assert(d =~= s@.subrange(start as int, n as int));
    if start == n {
        return None;
    }
    let mut v: u64 = 0;
    let mut i: usize = start;
    assert(d.take(0) =~= Seq::<char>::empty());
    while i < n
        invariant
            start <= i <= n,
            n == s@.len(),
            d == s@.subrange(start as int, n as int),
            d == unsigned_digits(s@),
            v == digits_value(d.take(i - start)),
            forall|j: int| 0 <= j < i - start ==> is_digit(#[trigger] d[j]),
        decreases n - i,
    {
        let c = s[i];
        let ghost k = i - start;
        assert(d[k] == c);
        assert(d.take(k + 1).drop_last() =~= d.take(k));
        let u = c as u32;
        if !(48 <= u && u <= 57) {
            assert(!is_digit(d[k]));
            assert(!(forall|j: int| 0 <= j < d.len() ==> is_digit(#[trigger] d[j])));
            return None;
        }
        let dv = (u - 48) as u64;
        assert(dv == digit_value(c));
        assert(d.take(k + 1).last() == c);
        assert(digits_value(d.take(k + 1)) == v * 10 + dv);
        match v.checked_mul(10) {
            Some(x) => match x.checked_add(dv) {
                Some(y) => {
                    v = y;
                },
                None => {
                    proof {
                        lemma_digits_prefix(d, k + 1);
                    }
                    return None;
                },
            },
            None => {
                proof {
                    lemma_digits_prefix(d, k + 1);
                }
                return None;
            },
        }
        i += 1;
    }
    assert(d.take(n - start) =~= d);
    Some(v)
}

} // verus!
