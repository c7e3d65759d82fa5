use vstd::prelude::*;

verus! {

/// Whether two texts are equal.
pub fn same_text(a: &str, b: &str) -> (r: bool)
    ensures
        r == (a@ == b@),
{
    let x = a.to_owned();
    let y = b.to_owned();
    x == y
}

/// Unicode `White_Space`, the whitespace of `str::trim` and
/// `str::split_whitespace`.
pub open spec fn is_ws(c: char) -> bool {
    let u = c as u32;
    ||| 0x09 <= u <= 0x0D
    ||| u == 0x20
    ||| u == 0x85
    ||| u == 0xA0
    ||| u == 0x1680
    ||| 0x2000 <= u <= 0x200A
    ||| u == 0x2028
    ||| u == 0x2029
    ||| u == 0x202F
    ||| u == 0x205F
    ||| u == 0x3000
}

/// Whether a character is whitespace.
pub fn is_whitespace(c: char) -> (r: bool)
    ensures
        r == is_ws(c),
{
    let u = c as u32;
    (0x09 <= u && u <= 0x0D) || u == 0x20 || u == 0x85 || u == 0xA0 || u == 0x1680 || (0x2000 <= u
        && u <= 0x200A) || u == 0x2028 || u == 0x2029 || u == 0x202F || u == 0x205F || u == 0x3000
}

/// `s` without its leading whitespace.
pub open spec fn trim_start(s: Seq<char>) -> Seq<char>
    decreases s.len(),
{
    if s.len() > 0 && is_ws(s[0]) {
        trim_start(s.drop_first())
    } else {
        s
    }
}

/// `s` without its trailing whitespace.
pub open spec fn trim_end(s: Seq<char>) -> Seq<char>
    decreases s.len(),
{
    if s.len() > 0 && is_ws(s.last()) {
        trim_end(s.drop_last())
    } else {
        s
    }
}

/// `s` without leading and trailing whitespace, as `str::trim` gives it.
pub open spec fn trim(s: Seq<char>) -> Seq<char> {
    trim_end(trim_start(s))
}

/// `s` without its leading copies of `c`, as `str::trim_start_matches` gives
/// it for a character.
pub open spec fn strip_leading(s: Seq<char>, c: char) -> Seq<char>
    decreases s.len(),
{
    if s.len() > 0 && s[0] == c {
        strip_leading(s.drop_first(), c)
    } else {
        s
    }
}

/// `s` without its trailing copies of `c`.
pub open spec fn strip_trailing(s: Seq<char>, c: char) -> Seq<char>
    decreases s.len(),
{
    if s.len() > 0 && s.last() == c {
        strip_trailing(s.drop_last(), c)
    } else {
        s
    }
}

/// The pieces of `s` between the characters that satisfy `p`, empty pieces
/// included, as `str::split` gives them.
pub open spec fn split_when(s: Seq<char>, p: spec_fn(char) -> bool) -> Seq<Seq<char>>
    decreases s.len(),
{
    if s.len() == 0 {
        seq![Seq::<char>::empty()]
    } else {
        let r = split_when(s.drop_last(), p);
        if p(s.last()) {
            r.push(Seq::<char>::empty())
        } else {
            r.update(r.len() - 1, r.last().push(s.last()))
        }
    }
}

/// Splitting gives at least one piece.
pub proof fn lemma_split_when_len(s: Seq<char>, p: spec_fn(char) -> bool)
    ensures
        split_when(s, p).len() >= 1,
    decreases s.len(),
{
    if s.len() > 0 {
        lemma_split_when_len(s.drop_last(), p);
    }
}

/// The separator test of a split: whitespace when `on_ws`, else the
/// characters of `seps`.
pub open spec fn separator(on_ws: bool, seps: Seq<char>) -> spec_fn(char) -> bool {
    |x: char|
        if on_ws {
            is_ws(x)
        } else {
            seps.contains(x)
        }
}

/// Whether `c` is one of `seps`.
pub fn contains_char(seps: &[char], c: char) -> (r: bool)
    ensures
        r == seps@.contains(c),
{
    let mut i: usize = 0;
    while i < seps.len()
        invariant
            i <= seps@.len(),
            forall|j: int| 0 <= j < i ==> seps@[j] != c,
        decreases seps@.len() - i,
    {
        if seps[i] == c {
            return true;
        }
        i += 1;
    }
    false
}

/// The pieces of `s` between occurrences of `c`.
pub open spec fn split_char(s: Seq<char>, c: char) -> Seq<Seq<char>> {
    split_when(s, separator(false, seq![c]))
}

/// The non-empty pieces among `ps`, in order.
pub open spec fn nonempty_pieces(ps: Seq<Seq<char>>) -> Seq<Seq<char>>
    decreases ps.len(),
{
    if ps.len() == 0 {
        ps
    } else if ps.last().len() > 0 {
        nonempty_pieces(ps.drop_last()).push(ps.last())
    } else {
        nonempty_pieces(ps.drop_last())
    }
}

/// The whitespace-separated words of `s`, as `str::split_whitespace` gives
/// them.
pub open spec fn words(s: Seq<char>) -> Seq<Seq<char>> {
    nonempty_pieces(split_when(s, separator(true, Seq::empty())))
}

/// Position of the first `c` in `s`; the length of `s` where there is none.
pub open spec fn index_of_char(s: Seq<char>, c: char) -> nat
    decreases s.len(),
{
    if s.len() == 0 {
        0
    } else if s[0] == c {
        0
    } else {
        1 + index_of_char(s.drop_first(), c)
    }
}

proof fn lemma_index_of_char(s: Seq<char>, c: char, k: int)
    requires
        0 <= k <= s.len(),
        forall|j: int| 0 <= j < k ==> s[j] != c,
        k == s.len() || s[k] == c,
    ensures
        index_of_char(s, c) == k,
    decreases s.len(),
{
    if s.len() > 0 && k > 0 {
        assert forall|j: int| 0 <= j < k - 1 implies s.drop_first()[j] != c by {
            assert(s[j + 1] != c);
        }
        lemma_index_of_char(s.drop_first(), c, k - 1);
    }
}

/// Position of the first `c` in `chars[lo..hi]`, counted from `lo`; `hi`
/// where there is none.
pub fn find_char(chars: &[char], lo: usize, hi: usize, c: char) -> (r: usize)
    requires
        lo <= hi <= chars@.len(),
    ensures
        lo <= r <= hi,
        r - lo == index_of_char(chars@.subrange(lo as int, hi as int), c),
{
    let mut i = lo;
    while i < hi && chars[i] != c
        invariant
            lo <= i <= hi <= chars@.len(),
            forall|j: int| lo <= j < i ==> chars@[j] != c,
        decreases hi - i,
    {
        i += 1;
    }
    proof {
        let t = chars@.subrange(lo as int, hi as int);
        assert forall|j: int| 0 <= j < i - lo implies t[j] != c by {
            assert(t[j] == chars@[lo + j]);
        }
        if i < hi {
            assert(t[i - lo] == chars@[i as int]);
        }
        lemma_index_of_char(t, c, i - lo);
    }
    i
}

/// The lines of `s` as `str::lines` gives them, each up to its line end; the
/// carriage return of a CRLF end is part of the piece and is whitespace.
pub open spec fn lines(s: Seq<char>) -> Seq<Seq<char>> {
    let r = split_char(s, '\n');
    if r.last().len() == 0 {
        r.drop_last()
    } else {
        r
    }
}

/// Whether `c` is an ASCII digit.
pub open spec fn is_digit(c: char) -> bool {
    48 <= c as u32 <= 57
}

/// The value of a string of decimal digits.
pub open spec fn digits_value(s: Seq<char>) -> nat
    decreases s.len(),
{
    if s.len() == 0 {
        0
    } else {
        digits_value(s.drop_last()) * 10 + (s.last() as u32 - 48) as nat
    }
}

/// The digits of an unsigned number: the text after an optional `+`.
pub open spec fn unsigned_digits(s: Seq<char>) -> Seq<char> {
    if s.len() > 0 && s[0] == '+' {
        s.drop_first()
    } else {
        s
    }
}

/// What `str::parse` gives for an unsigned integer type whose largest value
/// is `max`: an optional `+` followed by at least one decimal digit and
/// nothing else, with a value that fits.
pub open spec fn parse_unsigned(s: Seq<char>, max: nat) -> Option<nat> {
    let d = unsigned_digits(s);
    if d.len() > 0 && (forall|i: int| 0 <= i < d.len() ==> is_digit(#[trigger] d[i])) && digits_value(d)
        <= max {
        Some(digits_value(d))
    } else {
        None
    }
}

/// The characters of a string.
pub fn chars_of(s: &str) -> (r: Vec<char>)
    ensures
        r@ == s@,
{
    let mut r: Vec<char> = Vec::new();
    for c in it: s.chars()
        invariant
            r@ == it.seq().take(it.index() as int),
            it.seq() == s@,
    {
        r.push(c);
    }
    r
}

/// `String::from_iter` over the characters (`Iterator::collect`): the
/// string made of exactly `chars`, in order.
#[verifier::external_body]
fn string_from_chars(chars: &[char]) -> (r: String)
    ensures
        r@ == chars@,
{
    chars.iter().collect()
}

/// A string made of `chars[lo..hi]`.
pub fn string_of_range(chars: &[char], lo: usize, hi: usize) -> (r: String)
    requires
        lo <= hi <= chars@.len(),
    ensures
        r@ == chars@.subrange(lo as int, hi as int),
{
    string_from_chars(&chars[lo..hi])
}

proof fn lemma_trim_start_skip(s: Seq<char>, lo: int, hi: int)
    requires
        0 <= lo < hi <= s.len(),
        is_ws(s[lo]),
    ensures
        trim_start(s.subrange(lo, hi)) == trim_start(s.subrange(lo + 1, hi)),
{
    assert(s.subrange(lo, hi).drop_first() =~= s.subrange(lo + 1, hi));
}

proof fn lemma_trim_end_skip(s: Seq<char>, lo: int, hi: int)
    requires
        0 <= lo < hi <= s.len(),
        is_ws(s[hi - 1]),
    ensures
        trim_end(s.subrange(lo, hi)) == trim_end(s.subrange(lo, hi - 1)),
{
    assert(s.subrange(lo, hi).drop_last() =~= s.subrange(lo, hi - 1));
}

/// Bounds of `trim(chars[lo..hi])` inside `chars`.
pub fn trim_bounds(chars: &[char], lo: usize, hi: usize) -> (r: (usize, usize))
    requires
        lo <= hi <= chars@.len(),
    ensures
        lo <= r.0 <= r.1 <= hi,
        chars@.subrange(r.0 as int, r.1 as int) == trim(chars@.subrange(lo as int, hi as int)),
{
    let mut a = lo;
    while a < hi && is_whitespace(chars[a])
        invariant
            lo <= a <= hi <= chars@.len(),
            trim_start(chars@.subrange(lo as int, hi as int)) == trim_start(
                chars@.subrange(a as int, hi as int),
            ),
        decreases hi - a,
    {
        proof {
            lemma_trim_start_skip(chars@, a as int, hi as int);
        }
        a += 1;
    }
    proof {
        let t = chars@.subrange(a as int, hi as int);
        if t.len() > 0 {
            assert(t[0] == chars@[a as int]);
        }
        assert(trim_start(t) == t);
    }
    let mut b = hi;
    while b > a && is_whitespace(chars[b - 1])
        invariant
            lo <= a <= b <= hi <= chars@.len(),
            trim_end(chars@.subrange(a as int, hi as int)) == trim_end(
                chars@.subrange(a as int, b as int),
            ),
        decreases b - a,
    {
        proof {
            lemma_trim_end_skip(chars@, a as int, b as int);
        }
        b -= 1;
    }
    proof {
        let t = chars@.subrange(a as int, b as int);
        if t.len() > 0 {
            assert(t.last() == chars@[b - 1]);
        }
        assert(trim_end(t) == t);
    }
    (a, b)
}

/// Bounds of `chars[lo..hi]` without its leading copies of `c`.
pub fn strip_leading_bound(chars: &[char], lo: usize, hi: usize, c: char) -> (r: usize)
    requires
        lo <= hi <= chars@.len(),
    ensures
        lo <= r <= hi,
        chars@.subrange(r as int, hi as int) == strip_leading(chars@.subrange(lo as int, hi as int), c),
{
    let mut a = lo;
    while a < hi && chars[a] == c
        invariant
            lo <= a <= hi <= chars@.len(),
            strip_leading(chars@.subrange(lo as int, hi as int), c) == strip_leading(
                chars@.subrange(a as int, hi as int),
                c,
            ),
        decreases hi - a,
    {
        proof {
            assert(chars@.subrange(a as int, hi as int).drop_first() =~= chars@.subrange(a + 1, hi as int));
        }
        a += 1;
    }
    proof {
        let t = chars@.subrange(a as int, hi as int);
        if t.len() > 0 {
            assert(t[0] == chars@[a as int]);
        }
    }
    a
}

/// Bounds of `chars[lo..hi]` without its trailing copies of `c`.
pub fn strip_trailing_bound(chars: &[char], lo: usize, hi: usize, c: char) -> (r: usize)
    requires
        lo <= hi <= chars@.len(),
    ensures
        lo <= r <= hi,
        chars@.subrange(lo as int, r as int) == strip_trailing(chars@.subrange(lo as int, hi as int), c),
{
    let mut b = hi;
    while b > lo && chars[b - 1] == c
        invariant
            lo <= b <= hi <= chars@.len(),
            strip_trailing(chars@.subrange(lo as int, hi as int), c) == strip_trailing(
                chars@.subrange(lo as int, b as int),
                c,
            ),
        decreases b - lo,
    {
        proof {
            assert(chars@.subrange(lo as int, b as int).drop_last() =~= chars@.subrange(lo as int, b - 1));
        }
        b -= 1;
    }
    proof {
        let t = chars@.subrange(lo as int, b as int);
        if t.len() > 0 {
            assert(t.last() == chars@[b - 1]);
        }
    }
    b
}

/// The pieces named by index ranges of `chars`.
pub open spec fn pieces_of(chars: Seq<char>, ranges: Seq<(usize, usize)>) -> Seq<Seq<char>> {
    ranges.map_values(|r: (usize, usize)| chars.subrange(r.0 as int, r.1 as int))
}

proof fn lemma_pieces_push(chars: Seq<char>, rs: Seq<(usize, usize)>, x: (usize, usize))
    ensures
        pieces_of(chars, rs.push(x)) == pieces_of(chars, rs).push(chars.subrange(x.0 as int, x.1 as int)),
{
    assert(pieces_of(chars, rs.push(x)) =~= pieces_of(chars, rs).push(chars.subrange(x.0 as int, x.1 as int)));
}

proof fn lemma_pieces_update(chars: Seq<char>, rs: Seq<(usize, usize)>, k: int, x: (usize, usize))
    requires
        0 <= k < rs.len(),
    ensures
        pieces_of(chars, rs.update(k, x)) == pieces_of(chars, rs).update(k, chars.subrange(x.0 as int, x.1 as int)),
{
    assert(pieces_of(chars, rs.update(k, x)) =~= pieces_of(chars, rs).update(k, chars.subrange(x.0 as int, x.1 as int)));
}

/// Ranges of the pieces of `chars[lo..hi]` between characters equal to
/// `sep` (when `on_ws` is false) or between whitespace (when it is true).
pub fn split_ranges(chars: &[char], lo: usize, hi: usize, seps: &[char], on_ws: bool) -> (r: Vec<(usize, usize)>)
    requires
        lo <= hi <= chars@.len(),
    ensures
        pieces_of(chars@, r@) == split_when(chars@.subrange(lo as int, hi as int), separator(on_ws, seps@)),
        forall|k: int| 0 <= k < r@.len() ==> lo <= (#[trigger] r@[k]).0 <= r@[k].1 <= hi,
{
    let ghost p = separator(on_ws, seps@);
    let mut r: Vec<(usize, usize)> = Vec::new();
    r.push((lo, lo));
    let mut start = lo;
    let mut i = lo;
    proof {
        let e = chars@.subrange(lo as int, lo as int);
        assert(e =~= Seq::<char>::empty());
        assert(r@ =~= seq![(lo, lo)]);
        lemma_pieces_push(chars@, Seq::empty(), (lo, lo));
        assert(pieces_of(chars@, Seq::<(usize, usize)>::empty()) =~= Seq::<Seq<char>>::empty());
        assert(Seq::<(usize, usize)>::empty().push((lo, lo)) =~= r@);
        assert(pieces_of(chars@, r@) =~= seq![Seq::<char>::empty()]);
    }
    while i < hi
        invariant
            lo <= start <= i <= hi <= chars@.len(),
            r@.len() > 0,
            r@.last() == (start, i),
            pieces_of(chars@, r@) == split_when(chars@.subrange(lo as int, i as int), p),
            forall|k: int| 0 <= k < r@.len() ==> lo <= (#[trigger] r@[k]).0 <= r@[k].1 <= i,
            p == separator(on_ws, seps@),
        decreases hi - i,
    {
        let c = chars[i];
        let is_sep = if on_ws {
            is_whitespace(c)
        } else {
            contains_char(seps, c)
        };
        let ghost old_r = r@;
        let ghost s1 = chars@.subrange(lo as int, i + 1);
        proof {
            assert(s1.drop_last() =~= chars@.subrange(lo as int, i as int));
            assert(s1.last() == c);
            assert(is_sep == p(c));
        }
        if is_sep {
            r.push((i + 1, i + 1));
            start = i + 1;
            proof {
                lemma_pieces_push(chars@, old_r, ((i + 1) as usize, (i + 1) as usize));
                assert(chars@.subrange(i + 1, i + 1) =~= Seq::<char>::empty());
            }
        } else {
            let last = r.len() - 1;
            r.set(last, (start, i + 1));
            proof {
                let pr = pieces_of(chars@, old_r);
                lemma_pieces_update(chars@, old_r, old_r.len() - 1, (start, (i + 1) as usize));
                assert(chars@.subrange(start as int, i + 1) =~= chars@.subrange(start as int, i as int).push(c));
                assert(pr.last() == chars@.subrange(start as int, i as int));
            }
        }
        i += 1;
    }
    r
}

/// Ranges of the whitespace-separated words of `chars[lo..hi]`.
pub fn word_ranges(chars: &[char], lo: usize, hi: usize) -> (r: Vec<(usize, usize)>)
    requires
        lo <= hi <= chars@.len(),
    ensures
        pieces_of(chars@, r@) == words(chars@.subrange(lo as int, hi as int)),
        forall|k: int| 0 <= k < r@.len() ==> lo <= (#[trigger] r@[k]).0 <= r@[k].1 <= hi,
{
    let no_seps: [char; 0] = [];
    let all = split_ranges(chars, lo, hi, &no_seps, true);
    proof {
        assert(no_seps@ =~= Seq::<char>::empty());
    }
    let ghost ps = pieces_of(chars@, all@);
    let mut r: Vec<(usize, usize)> = Vec::new();
    let mut k: usize = 0;
    proof {
        assert(ps.take(0) =~= Seq::<Seq<char>>::empty());
        assert(pieces_of(chars@, r@) =~= Seq::<Seq<char>>::empty());
    }
    while k < all.len()
        invariant
            k <= all@.len(),
            lo <= hi <= chars@.len(),
            ps == pieces_of(chars@, all@),
            pieces_of(chars@, r@) == nonempty_pieces(ps.take(k as int)),
            forall|j: int| 0 <= j < all@.len() ==> lo <= (#[trigger] all@[j]).0 <= all@[j].1 <= hi,
            forall|j: int| 0 <= j < r@.len() ==> lo <= (#[trigger] r@[j]).0 <= r@[j].1 <= hi,
        decreases all@.len() - k,
    {
        let (a, b) = all[k];
        proof {
            assert(ps.take(k + 1).drop_last() =~= ps.take(k as int));
            assert(ps.take(k + 1).last() == chars@.subrange(a as int, b as int));
            assert(ps.take(k + 1).last().len() == b - a);
        }
        if a < b {
            let ghost old_r = r@;
            r.push((a, b));
            proof {
                lemma_pieces_push(chars@, old_r, (a, b));
            }
        }
        k += 1;
    }
    proof {
        assert(ps.take(all@.len() as int) =~= ps);
    }
    r
}

/// Parses an unsigned decimal number of at most `max` from `chars[lo..hi]`
/// as `str::parse` does.
pub fn parse_unsigned_range(chars: &[char], lo: usize, hi: usize, max: u64) -> (r: Option<u64>)
    requires
        lo <= hi <= chars@.len(),
    ensures
        r matches Some(v) ==> parse_unsigned(chars@.subrange(lo as int, hi as int), max as nat)
            == Some(v as nat),
        r is None ==> parse_unsigned(chars@.subrange(lo as int, hi as int), max as nat) is None,
{
    let ghost s = chars@.subrange(lo as int, hi as int);
    let mut a = lo;
    if a < hi && chars[a] == '+' {
        a += 1;
    }
    let ghost d = unsigned_digits(s);
    proof {
        assert(d =~= chars@.subrange(a as int, hi as int));
    }
    if a == hi {
        return None;
    }
    let mut v: u64 = 0;
    let mut i = a;
    while i < hi
        invariant
            lo <= a <= i <= hi <= chars@.len(),
            d == chars@.subrange(a as int, hi as int),
            s == chars@.subrange(lo as int, hi as int),
            d == unsigned_digits(s),
            forall|k: int| a <= k < i ==> is_digit(#[trigger] chars@[k]),
            v == digits_value(chars@.subrange(a as int, i as int)),
            v <= max,
        decreases hi - i,
    {
        let c = chars[i];
        let ghost pre = chars@.subrange(a as int, i + 1);
        proof {
            assert(pre.drop_last() =~= chars@.subrange(a as int, i as int));
            assert(pre.last() == c);
            assert(d[i - a] == c);
        }
        let u = c as u32;
        if u < 48 || u > 57 {
            proof {
                assert(!is_digit(d[i - a]));
            }
            return None;
        }
        let digit = (u - 48) as u64;
        let next: u128 = v as u128 * 10 + digit as u128;
        proof {
            assert(digits_value(pre) == v * 10 + digit);
        }
        if next > max as u128 {
            proof {
                if forall|j: int| 0 <= j < d.len() ==> is_digit(#[trigger] d[j]) {
                    lemma_digits_monotone(d, (i - a + 1) as int);
                    assert(d.take((i - a + 1) as int) =~= pre);
                }
            }
            return None;
        }
        v = next as u64;
        i += 1;
    }
    proof {
        assert(chars@.subrange(a as int, i as int) =~= d);
    }
    Some(v)
}

proof fn lemma_digits_monotone(d: Seq<char>, k: int)
    requires
        0 <= k <= d.len(),
        forall|j: int| 0 <= j < d.len() ==> is_digit(#[trigger] d[j]),
    ensures
        digits_value(d) >= digits_value(d.take(k)),
    decreases d.len() - k,
{
    if k < d.len() {
        lemma_digits_monotone(d, k + 1);
        assert(d.take(k + 1).drop_last() =~= d.take(k));
        assert(digits_value(d.take(k + 1)) >= digits_value(d.take(k)) * 10) by (nonlinear_arith)
            requires
                digits_value(d.take(k + 1)) == digits_value(d.take(k)) * 10 + (d.take(k + 1).last() as u32 - 48) as nat,
        ;
        assert(digits_value(d.take(k)) * 10 >= digits_value(d.take(k))) by (nonlinear_arith);
    } else {
        assert(d.take(k) =~= d);
    }
}

/// Position of the first occurrence of `sep` in `s`; the length of `s`
/// where there is none.
pub open spec fn index_of_text(s: Seq<char>, sep: Seq<char>) -> nat
    decreases s.len(),
{
    if s.len() < sep.len() || s.len() == 0 {
        s.len()
    } else if s.take(sep.len() as int) == sep {
        0
    } else {
        1 + index_of_text(s.drop_first(), sep)
    }
}

/// The pieces of `s` between the occurrences of a non-empty `sep`, found
/// from the left without overlap, as `str::split` with a string pattern
/// gives them.
pub open spec fn split_text(s: Seq<char>, sep: Seq<char>) -> Seq<Seq<char>>
    decreases s.len(),
{
    if sep.len() == 0 || index_of_text(s, sep) >= s.len() {
        seq![s]
    } else {
        let i = index_of_text(s, sep) as int;
        if i + sep.len() <= s.len() {
            seq![s.take(i)] + split_text(s.skip(i + sep.len()), sep)
        } else {
            seq![s]
        }
    }
}

proof fn lemma_index_of_text(s: Seq<char>, sep: Seq<char>, k: int)
    requires
        sep.len() > 0,
        0 <= k <= s.len(),
        forall|j: int| 0 <= j < k ==> !(j + sep.len() <= s.len() && #[trigger] s.subrange(j, j + sep.len()) == sep),
        k == s.len() || (k + sep.len() <= s.len() && s.subrange(k, k + sep.len()) == sep),
    ensures
        index_of_text(s, sep) == if k + sep.len() <= s.len() { k } else { s.len() as int },
    decreases s.len(),
{
    if s.len() < sep.len() {
    } else if k == 0 {
        if k == s.len() {
        } else {
            assert(s.take(sep.len() as int) =~= s.subrange(0, sep.len() as int));
        }
    } else {
        let z: int = 0;
        assert(!(z + sep.len() <= s.len() && s.subrange(z, z + sep.len()) == sep));
        assert(s.subrange(z, z + sep.len()) =~= s.subrange(0, sep.len() as int));
        assert(s.take(sep.len() as int) =~= s.subrange(0, sep.len() as int));
        let t = s.drop_first();
        assert forall|j: int| 0 <= j < k - 1 implies !(j + sep.len() <= t.len() && #[trigger] t.subrange(j, j + sep.len()) == sep) by {
            if j + sep.len() <= t.len() {
                assert(t.subrange(j, j + sep.len()) =~= s.subrange(j + 1, j + 1 + sep.len()));
                assert(!(s.subrange(j + 1, j + 1 + sep.len()) == sep));
            }
        }
        if k < s.len() {
            assert(t.subrange(k - 1, k - 1 + sep.len()) =~= s.subrange(k, k + sep.len()));
        }
        lemma_index_of_text(t, sep, k - 1);
    }
}

/// A position found by `index_of_text` holds an occurrence.
pub proof fn lemma_index_of_text_found(s: Seq<char>, sep: Seq<char>)
    requires
        sep.len() > 0,
        index_of_text(s, sep) < s.len(),
    ensures
        index_of_text(s, sep) + sep.len() <= s.len(),
        s.subrange(index_of_text(s, sep) as int, (index_of_text(s, sep) + sep.len()) as int) == sep,
    decreases s.len(),
{
    if s.take(sep.len() as int) == sep {
        assert(s.take(sep.len() as int) =~= s.subrange(0, sep.len() as int));
    } else {
        let t = s.drop_first();
        lemma_index_of_text_found(t, sep);
        let j = index_of_text(t, sep) as int;
        assert(t.subrange(j, j + sep.len()) =~= s.subrange(j + 1, j + 1 + sep.len()));
    }
}

/// Position of the first occurrence of `sep` in `chars[lo..hi]`, counted
/// from `lo`; `hi` where there is none.
pub fn find_text(chars: &[char], lo: usize, hi: usize, sep: &[char]) -> (r: usize)
    requires
        lo <= hi <= chars@.len(),
        sep@.len() > 0,
    ensures
        lo <= r <= hi,
        r - lo == index_of_text(chars@.subrange(lo as int, hi as int), sep@),
{
    let ghost s = chars@.subrange(lo as int, hi as int);
    let m = sep.len();
    let mut i = lo;
    while i < hi
        invariant
            lo <= i <= hi <= chars@.len(),
            m == sep@.len(),
            m > 0,
            s == chars@.subrange(lo as int, hi as int),
            forall|j: int| 0 <= j < i - lo ==> !(j + m <= s.len() && #[trigger] s.subrange(j, j + m) == sep@),
        decreases hi - i,
    {
        if hi - i < m {
            proof {
                assert forall|j: int| 0 <= j < s.len() implies !(j + m <= s.len() && #[trigger] s.subrange(j, j + m) == sep@) by {}
                lemma_index_of_text(s, sep@, s.len() as int);
            }
            return hi;
        }
        let mut t: usize = 0;
        while t < m && chars[i + t] == sep[t]
            invariant
                lo <= i < hi <= chars@.len(),
                i + m <= hi,
                m == sep@.len(),
                t <= m,
                forall|u: int| 0 <= u < t ==> chars@[i + u] == sep@[u],
            decreases m - t,
        {
            t += 1;
        }
        if t == m {
            proof {
                assert(s.subrange(i - lo, i - lo + m) =~= sep@);
                lemma_index_of_text(s, sep@, i - lo);
            }
            return i;
        }
        proof {
            assert(s.subrange(i - lo, i - lo + m)[t as int] == chars@[i + t]);
        }
        i += 1;
    }
    proof {
        lemma_index_of_text(s, sep@, s.len() as int);
    }
    hi
}

} // verus!
