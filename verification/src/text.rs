//! Character-level text handling: trimming, splitting, line breaking and decimal numbers.
use vstd::prelude::*;

verus! {

/// Unicode `White_Space`, the property that `char::is_whitespace` tests.
pub open spec fn is_white_space(c: char) -> bool {
    ||| ('\u{9}' <= c && c <= '\u{d}')
    ||| c == ' '
    ||| c == '\u{85}'
    ||| c == '\u{a0}'
    ||| c == '\u{1680}'
    ||| ('\u{2000}' <= c && c <= '\u{200a}')
    ||| c == '\u{2028}'
    ||| c == '\u{2029}'
    ||| c == '\u{202f}'
    ||| c == '\u{205f}'
    ||| c == '\u{3000}'
}

/// `s` without its leading white space.
pub open spec fn trim_start(s: Seq<char>) -> Seq<char>
    decreases s.len(),
{
    if s.len() > 0 && is_white_space(s[0]) {
        trim_start(s.drop_first())
    } else {
        s
    }
}

/// `s` without its trailing white space.
pub open spec fn trim_end(s: Seq<char>) -> Seq<char>
    decreases s.len(),
{
    if s.len() > 0 && is_white_space(s.last()) {
        trim_end(s.drop_last())
    } else {
        s
    }
}

/// `s` without leading and trailing white space, as `str::trim` gives it.
pub open spec fn trim(s: Seq<char>) -> Seq<char> {
    trim_end(trim_start(s))
}

/// The pieces of `s[i..]` between occurrences of `sep`, where `cur` holds the
/// characters of the piece that is being read when position `i` is reached.
pub open spec fn split_from(s: Seq<char>, sep: char, i: int, cur: Seq<char>) -> Seq<Seq<char>>
    decreases s.len() - i,
{
    if i >= s.len() {
        seq![cur]
    } else if s[i] == sep {
        seq![cur] + split_from(s, sep, i + 1, Seq::empty())
    } else {
        split_from(s, sep, i + 1, cur.push(s[i]))
    }
}

/// The pieces of `s` between occurrences of `sep`, as `str::split` gives them
/// (there is always at least one piece).
pub open spec fn split(s: Seq<char>, sep: char) -> Seq<Seq<char>> {
    split_from(s, sep, 0, Seq::empty())
}

/// `s` without one trailing carriage return, if it has one.
pub open spec fn strip_cr(s: Seq<char>) -> Seq<char> {
    if s.len() > 0 && s.last() == '\r' {
        s.drop_last()
    } else {
        s
    }
}

/// The lines of `s` as `str::lines` gives them: the pieces between `'\n'`, each
/// without a `'\r'` just before its `'\n'`; a last piece with no `'\n'` after it is
/// kept as it is, and dropped when it is empty.
pub open spec fn lines(s: Seq<char>) -> Seq<Seq<char>> {
    let pieces = split(s, '\n');
    let ended = pieces.drop_last().map_values(|p: Seq<char>| strip_cr(p));
    if pieces.last().len() == 0 {
        ended
    } else {
        ended.push(pieces.last())
    }
}

/// Whether `c` is an ASCII decimal digit.
pub open spec fn is_digit(c: char) -> bool {
    '0' <= c && c <= '9'
}

/// The value of the decimal digits `s`.
pub open spec fn digits_value(s: Seq<char>) -> nat
    decreases s.len(),
{
    if s.len() == 0 {
        0
    } else {
        digits_value(s.drop_last()) * 10 + (s.last() as nat - '0' as nat) as nat
    }
}

/// `s` without one leading `'+'`, if it has one.
pub open spec fn strip_plus(s: Seq<char>) -> Seq<char> {
    if s.len() > 0 && s[0] == '+' {
        s.drop_first()
    } else {
        s
    }
}

/// What parsing `s` as an unsigned integer no larger than `max` gives, as the
/// `FromStr` of Rust's unsigned integer types does it: an optional `'+'` followed by
/// at least one decimal digit and nothing else, with a value no larger than `max`.
pub open spec fn parse_unsigned(s: Seq<char>, max: nat) -> Option<nat> {
    let d = strip_plus(s);
    if d.len() > 0 && (forall|i: int| 0 <= i < d.len() ==> is_digit(#[trigger] d[i])) && digits_value(d) <= max {
        Some(digits_value(d))
    } else {
        None
    }
}

/// The shortest decimal representation of `n`, as `Display` writes an unsigned integer.
pub open spec fn decimal(n: nat) -> Seq<char>
    decreases n,
{
    if n < 10 {
        seq![(('0' as nat) + n) as char]
    } else {
        decimal(n / 10).push((('0' as nat) + n % 10) as char)
    }
}

/// ASCII lower-casing of one character.
pub open spec fn ascii_lower_char(c: char) -> char {
    if 'A' <= c && c <= 'Z' {
        ((c as nat) + 32) as char
    } else {
        c
    }
}

/// Whether every character of `s` is ASCII.
pub open spec fn all_ascii(s: Seq<char>) -> bool {
    forall|i: int| 0 <= i < s.len() ==> (#[trigger] s[i]) as nat <= 127
}

/// The lower-case form of `s` that `str::to_lowercase` gives (full Unicode case mapping).
pub uninterp spec fn lowercase(s: Seq<char>) -> Seq<char>;

/// Whether `c` is white space: a character with the Unicode `White_Space` property,
/// as `char::is_whitespace` tests it.
pub(crate) fn char_is_white_space(c: char) -> (r: bool)
    ensures
        r == is_white_space(c),
{
    ('\u{9}' <= c && c <= '\u{d}') || c == ' ' || c == '\u{85}' || c == '\u{a0}' || c == '\u{1680}'
        || ('\u{2000}' <= c && c <= '\u{200a}') || c == '\u{2028}' || c == '\u{2029}' || c == '\u{202f}'
        || c == '\u{205f}' || c == '\u{3000}'
}

/// The lower-case form of `s`; calls `str::to_lowercase`.
/// Claimed: the result is `lowercase(s)`, and on ASCII text it maps only `A`–`Z`,
/// to `a`–`z`, as the standard library documents; the Unicode mapping of other
/// characters is not written out.
#[verifier::external_body]
pub(crate) fn to_lowercase(s: &str) -> (r: String)
    ensures
        r@ == lowercase(s@),
        all_ascii(s@) ==> r@ == s@.map_values(|c: char| ascii_lower_char(c)),
{
    s.to_lowercase()
}

/// Appends `c` to `s`; calls `String::push`.
#[verifier::external_body]
pub(crate) fn push_char(s: &mut String, c: char)
    ensures
        final(s)@ == old(s)@.push(c),
{
    s.push(c)
}

/// The digit character of `d`, which is below 10.
fn digit_char(d: u32) -> (c: char)
    requires
        d < 10,
    ensures
        c == ((('0' as nat) + d) as char),
{
    match d {
        0 => '0',
        1 => '1',
        2 => '2',
        3 => '3',
        4 => '4',
        5 => '5',
        6 => '6',
        7 => '7',
        8 => '8',
        _ => '9',
    }
}

/// Appends the decimal representation of `n` to `s`.
fn push_decimal(s: &mut String, n: u32)
    ensures
        final(s)@ == old(s)@ + decimal(n as nat),
    decreases n,
{
    if n >= 10 {
        push_decimal(s, n / 10);
    }
    let c = digit_char(n % 10);
    let ghost mid = s@;
    push_char(s, c);
    proof {
        if n >= 10 {
            assert(decimal(n as nat) == decimal((n / 10) as nat).push(c));
            assert(mid + seq![c] =~= mid.push(c));
        } else {
            assert(decimal(n as nat) == seq![c]);
        }
        assert(s@ =~= old(s)@ + decimal(n as nat));
    }
}

/// The decimal representation of `n`: its shortest decimal digits, as `Display` for
/// integers writes them.
pub(crate) fn u32_to_decimal(n: u32) -> (r: String)
    ensures
        r@ == decimal(n as nat),
{
    let mut s = String::new();
    push_decimal(&mut s, n);
    assert(s@ =~= decimal(n as nat));
    s
}

/// Appends `t` to `s`; calls `String::push_str`.
#[verifier::external_body]
pub(crate) fn push_str(s: &mut String, t: &str)
    ensures
        final(s)@ == old(s)@ + t@,
{
    s.push_str(t)
}

/// The characters of `s`, in order.
pub fn chars_of(s: &str) -> (v: Vec<char>)
    ensures
        v@ == s@,
{
    let mut v: Vec<char> = Vec::new();
    for c in it: s.chars()
        invariant
            v@ == it.seq().take(it.index() as int),
    {
        v.push(c);
    }
    v
}

/// A `String` holding the characters `v`.
pub fn string_from(v: &[char]) -> (s: String)
    ensures
        s@ == v@,
{
    let mut s = String::new();
    let n = v.len();
    for i in 0..n
        invariant
            n == v@.len(),
            s@ == v@.take(i as int),
    {
        push_char(&mut s, v[i]);
        assert(v@.take(i + 1) =~= v@.take(i as int).push(v@[i as int]));
    }
    assert(v@.take(n as int) =~= v@);
    s
}

/// Whether `a` and `b` hold the same characters.
pub fn same_chars(a: &[char], b: &[char]) -> (r: bool)
    ensures
        r == (a@ == b@),
{
    if a.len() != b.len() {
        return false;
    }
    let n = a.len();
    for i in 0..n
        invariant
            n == a@.len(),
            n == b@.len(),
            forall|j: int| 0 <= j < i ==> a@[j] == b@[j],
    {
        if a[i] != b[i] {
            return false;
        }
    }
    assert(a@ =~= b@);
    true
}

proof fn lemma_trim_start_step(s: Seq<char>, i: int)
    requires
        0 <= i < s.len(),
        is_white_space(s[i]),
    ensures
        trim_start(s.subrange(i, s.len() as int)) == trim_start(s.subrange(i + 1, s.len() as int)),
{
    assert(s.subrange(i, s.len() as int).drop_first() =~= s.subrange(i + 1, s.len() as int));
}

proof fn lemma_trim_end_step(s: Seq<char>, j: int)
    requires
        0 < j <= s.len(),
        is_white_space(s[j - 1]),
    ensures
        trim_end(s.subrange(0, j)) == trim_end(s.subrange(0, j - 1)),
{
    assert(s.subrange(0, j).drop_last() =~= s.subrange(0, j - 1));
}

/// The characters of `v` without leading and trailing white space.
pub fn trim_chars(v: &[char]) -> (r: Vec<char>)
    ensures
        r@ == trim(v@),
{
    let n = v.len();
    let mut i: usize = 0;
    assert(v@.subrange(0, n as int) =~= v@);
    while i < n && char_is_white_space(v[i])
        invariant
            n == v@.len(),
            i <= n,
            trim_start(v@) == trim_start(v@.subrange(i as int, n as int)),
        decreases n - i,
    {
        proof {
            lemma_trim_start_step(v@, i as int);
        }
        i = i + 1;
    }
    let ghost t = v@.subrange(i as int, n as int);
    assert(trim_start(v@) == t);
    let mut j: usize = n;
    assert(t.subrange(0, (j - i) as int) =~= t);
    while j > i && char_is_white_space(v[j - 1])
        invariant
            n == v@.len(),
            i <= j <= n,
            t == v@.subrange(i as int, n as int),
            trim_end(t) == trim_end(t.subrange(0, (j - i) as int)),
        decreases j,
    {
        proof {
            lemma_trim_end_step(t, (j - i) as int);
        }
        j = j - 1;
    }
    assert(trim_end(t) == t.subrange(0, (j - i) as int));
    let mut r: Vec<char> = Vec::new();
    let mut k: usize = i;
    while k < j
        invariant
            n == v@.len(),
            i <= k <= j <= n,
            r@ == v@.subrange(i as int, k as int),
        decreases j - k,
    {
        r.push(v[k]);
        assert(v@.subrange(i as int, k + 1) =~= v@.subrange(i as int, k as int).push(v@[k as int]));
        k = k + 1;
    }
    assert(r@ =~= t.subrange(0, (j - i) as int));
    r
}

/// The pieces of `v` between occurrences of `sep`.
pub fn split_chars(v: &[char], sep: char) -> (r: Vec<Vec<char>>)
    ensures
        r@.map_values(|p: Vec<char>| p@) == split(v@, sep),
{
    let n = v.len();
    let mut done: Vec<Vec<char>> = Vec::new();
    let mut cur: Vec<char> = Vec::new();
    let mut i: usize = 0;
    while i < n
        invariant
            n == v@.len(),
            i <= n,
            done@.map_values(|p: Vec<char>| p@) + split_from(v@, sep, i as int, cur@) == split(v@, sep),
        decreases n - i,
    {
        if v[i] == sep {
            let ghost before = done@.map_values(|p: Vec<char>| p@);
            let finished = cur;
            cur = Vec::new();
            let ghost piece = finished@;
            done.push(finished);
            assert(done@.map_values(|p: Vec<char>| p@) =~= before.push(piece));
            assert(before + split_from(v@, sep, i as int, piece) =~= before.push(piece) + split_from(
                v@,
                sep,
                i + 1,
                Seq::empty(),
            ));
            assert(cur@ =~= Seq::<char>::empty());
        } else {
            cur.push(v[i]);
        }
        i = i + 1;
    }
    let ghost before = done@.map_values(|p: Vec<char>| p@);
    let ghost piece = cur@;
    done.push(cur);
    assert(done@.map_values(|p: Vec<char>| p@) =~= before.push(piece));
    assert(before + seq![piece] =~= before.push(piece));
    done
}

/// `v` without one trailing carriage return.
fn strip_cr_chars(v: Vec<char>) -> (r: Vec<char>)
    ensures
        r@ == strip_cr(v@),
{
    let mut v = v;
    if v.len() > 0 && v[v.len() - 1] == '\r' {
        v.pop();
    }
    v
}

/// The lines of `v`, as `str::lines` splits them.
pub fn lines_of(v: &[char]) -> (r: Vec<Vec<char>>)
    ensures
        r@.map_values(|p: Vec<char>| p@) == lines(v@),
{
    let pieces = split_chars(v, '\n');
    let ghost ps = pieces@.map_values(|p: Vec<char>| p@);
    assert(ps.len() == pieces@.len());
    assert(ps.len() > 0) by {
        lemma_split_nonempty(v@, '\n', 0, Seq::empty());
    }
    let count = pieces.len();
    let mut out: Vec<Vec<char>> = Vec::new();
    let mut rest = pieces;
    let mut i: usize = 0;
    // take the pieces in order; `rest` keeps them, and the loop moves them to `out`
    let mut pieces_rev: Vec<Vec<char>> = Vec::new();
    while rest.len() > 0
        invariant
            rest@.len() + pieces_rev@.len() == count,
            forall|j: int| 0 <= j < rest@.len() ==> #[trigger] rest@[j]@ == ps[j],
            forall|j: int| 0 <= j < pieces_rev@.len() ==> #[trigger] pieces_rev@[j]@ == ps[count - 1 - j],
            count == ps.len(),
        decreases rest.len(),
    {
        let p = rest.pop().unwrap();
        pieces_rev.push(p);
    }
    while i + 1 < count
        invariant
            count == ps.len(),
            count > 0,
            i < count,
            pieces_rev@.len() == count - i,
            forall|j: int| 0 <= j < pieces_rev@.len() ==> #[trigger] pieces_rev@[j]@ == ps[count - 1 - j],
            out@.map_values(|p: Vec<char>| p@) == ps.take(i as int).map_values(|p: Seq<char>| strip_cr(p)),
        decreases count - i,
    {
        let p = pieces_rev.pop().unwrap();
        let ghost before = out@.map_values(|p: Vec<char>| p@);
        let q = strip_cr_chars(p);
        let ghost qv = q@;
        out.push(q);
        assert(out@.map_values(|p: Vec<char>| p@) =~= before.push(qv));
        assert(ps.take(i + 1).map_values(|p: Seq<char>| strip_cr(p)) =~= ps.take(i as int).map_values(
            |p: Seq<char>| strip_cr(p),
        ).push(strip_cr(ps[i as int])));
        i = i + 1;
    }
    let last = pieces_rev.pop().unwrap();
    assert(last@ == ps.last());
    assert(ps.take(i as int) =~= ps.drop_last());
    if last.len() > 0 {
        let ghost before = out@.map_values(|p: Vec<char>| p@);
        let ghost lv = last@;
        out.push(last);
        assert(out@.map_values(|p: Vec<char>| p@) =~= before.push(lv));
    }
    out
}

proof fn lemma_split_nonempty(s: Seq<char>, sep: char, i: int, cur: Seq<char>)
    ensures
        split_from(s, sep, i, cur).len() > 0,
    decreases s.len() - i,
{
    if i >= s.len() {
    } else if s[i] == sep {
        lemma_split_nonempty(s, sep, i + 1, Seq::empty());
    } else {
        lemma_split_nonempty(s, sep, i + 1, cur.push(s[i]));
    }
}

/// The value of a prefix of decimal digits is no larger than the value of the whole.
proof fn lemma_digits_value_prefix(s: Seq<char>, i: int)
    requires
        0 <= i <= s.len(),
    ensures
        digits_value(s.take(i)) <= digits_value(s),
    decreases s.len(),
{
    if i < s.len() {
        assert(s.drop_last().take(i) =~= s.take(i));
        lemma_digits_value_prefix(s.drop_last(), i);
    } else {
        assert(s.take(i) =~= s);
    }
}

/// Parses `v` as an unsigned integer no larger than `max`, as Rust's `FromStr`
/// for unsigned integers does (an optional `'+'`, then decimal digits only).
pub fn parse_unsigned_chars(v: &[char], max: u32) -> (r: Option<u32>)
    ensures
        match parse_unsigned(v@, max as nat) {
            Some(n) => r == Some(n as u32),
            None => r is None,
        },
{
    let n = v.len();
    let start: usize = if n > 0 && v[0] == '+' { 1 } else { 0 };
    let ghost d = strip_plus(v@);
    assert(d =~= v@.subrange(start as int, n as int));
    if start >= n {
        return None;
    }
    let mut value: u32 = 0;
    let mut i: usize = start;
    while i < n
        invariant
            n == v@.len(),
            start <= i <= n,
            d == v@.subrange(start as int, n as int),
            d == strip_plus(v@),
            forall|j: int| 0 <= j < i - start ==> is_digit(#[trigger] d[j]),
            value as nat == digits_value(d.take(i - start)),
            value <= max,
        decreases n - i,
    {
        let c = v[i];
        if !('0' <= c && c <= '9') {
            assert(!is_digit(d[i - start]));
            assert(!(forall|j: int| 0 <= j < d.len() ==> is_digit(#[trigger] d[j])));
            assert(d == strip_plus(v@));
            assert(parse_unsigned(v@, max as nat) is None);
            return None;
        }
        let digit: u32 = (c as u32) - ('0' as u32);
        assert(d.take(i - start + 1).drop_last() =~= d.take(i - start));
        assert(d.take(i - start + 1).last() == c);
        assert(digits_value(d.take(i - start + 1)) == value * 10 + digit);
        if digit > max || value > (max - digit) / 10 {
            proof {
                if digit <= max {
                    assert(value * 10 + digit > max) by (nonlinear_arith)
                        requires value > (max - digit) / 10, digit <= max;
                }
                lemma_digits_value_prefix(d, i - start + 1);
                assert(digits_value(d) > max);
                assert(d == strip_plus(v@));
                assert(parse_unsigned(v@, max as nat) is None);
            }
            return None;
        }
        assert(value * 10 + digit <= max) by (nonlinear_arith)
            requires value <= (max - digit) / 10, digit <= max;
        value = value * 10 + digit;
        i = i + 1;
    }
    assert(d.take(n - start) =~= d);
    Some(value)
}


/// Lines joined, each followed by a line break.
pub open spec fn join_lines(ls: Seq<Seq<char>>) -> Seq<char>
    decreases ls.len(),
{
    if ls.len() == 0 {
        Seq::empty()
    } else {
        join_lines(ls.drop_last()) + ls.last().push('\n')
    }
}

/// Whether `c` occurs in `s`.
pub open spec fn has_char(s: Seq<char>, c: char) -> bool {
    exists|i: int| 0 <= i < s.len() && s[i] == c
}

/// The pieces `ps` joined with `sep` between each two.
pub open spec fn joined(ps: Seq<Seq<char>>, sep: char) -> Seq<char>
    decreases ps.len(),
{
    if ps.len() <= 1 {
        if ps.len() == 0 {
            Seq::empty()
        } else {
            ps[0]
        }
    } else {
        ps[0].push(sep) + joined(ps.drop_first(), sep)
    }
}

/// Whether `s` has no white space at either end.
pub open spec fn is_trimmed(s: Seq<char>) -> bool {
    s.len() == 0 || (!is_white_space(s[0]) && !is_white_space(s.last()))
}

/// Reading on through characters that are not the separator adds them to the piece.
proof fn lemma_split_scan(s: Seq<char>, sep: char, i: int, k: int, cur: Seq<char>)
    requires
        0 <= i,
        0 <= k,
        i + k <= s.len(),
        forall|j: int| i <= j < i + k ==> s[j] != sep,
    ensures
        split_from(s, sep, i, cur) == split_from(s, sep, i + k, cur + s.subrange(i, i + k)),
    decreases k,
{
    if k == 0 {
        assert(cur + s.subrange(i, i) =~= cur);
    } else {
        lemma_split_scan(s, sep, i + 1, k - 1, cur.push(s[i]));
        assert(cur.push(s[i]) + s.subrange(i + 1, i + k) =~= cur + s.subrange(i, i + k));
    }
}

/// Splitting the end of `a + b` that lies in `b` is splitting `b` there.
proof fn lemma_split_shift(a: Seq<char>, b: Seq<char>, sep: char, j: int, cur: Seq<char>)
    requires
        0 <= j <= b.len(),
    ensures
        split_from(a + b, sep, a.len() + j, cur) == split_from(b, sep, j, cur),
    decreases b.len() - j,
{
    if j < b.len() {
        assert((a + b)[a.len() + j] == b[j]);
        if b[j] == sep {
            lemma_split_shift(a, b, sep, j + 1, Seq::empty());
        } else {
            lemma_split_shift(a, b, sep, j + 1, cur.push(b[j]));
        }
    }
}

/// A piece without the separator, the separator, then the rest: the piece comes first.
pub proof fn lemma_split_piece(a: Seq<char>, b: Seq<char>, sep: char)
    requires
        !has_char(a, sep),
    ensures
        split(a.push(sep) + b, sep) == seq![a] + split(b, sep),
{
    let s = a.push(sep) + b;
    assert forall|j: int| 0 <= j < a.len() implies s[j] != sep by {
        assert(s[j] == a[j]);
    }
    lemma_split_scan(s, sep, 0, a.len() as int, Seq::empty());
    assert(Seq::<char>::empty() + s.subrange(0, a.len() as int) =~= a);
    assert(s[a.len() as int] == sep);
    assert(s =~= a.push(sep) + b);
    lemma_split_shift(a.push(sep), b, sep, 0, Seq::empty());
}

/// Text without the separator is one piece.
pub proof fn lemma_split_single(a: Seq<char>, sep: char)
    requires
        !has_char(a, sep),
    ensures
        split(a, sep) == seq![a],
{
    lemma_split_scan(a, sep, 0, a.len() as int, Seq::empty());
    assert(Seq::<char>::empty() + a.subrange(0, a.len() as int) =~= a);
}

/// Splitting pieces joined with a separator none of them has gives the pieces back.
pub proof fn lemma_split_joined(ps: Seq<Seq<char>>, sep: char)
    requires
        ps.len() >= 1,
        forall|i: int| 0 <= i < ps.len() ==> !has_char(#[trigger] ps[i], sep),
    ensures
        split(joined(ps, sep), sep) == ps,
    decreases ps.len(),
{
    if ps.len() == 1 {
        lemma_split_single(ps[0], sep);
        assert(seq![ps[0]] =~= ps);
    } else {
        let rest = ps.drop_first();
        assert forall|i: int| 0 <= i < rest.len() implies !has_char(#[trigger] rest[i], sep) by {
            assert(rest[i] == ps[i + 1]);
        }
        lemma_split_joined(rest, sep);
        assert(!has_char(ps[0], sep));
        lemma_split_piece(ps[0], joined(rest, sep), sep);
        assert(seq![ps[0]] + rest =~= ps);
    }
}

/// Joining one more piece puts the separator and the piece at the end.
pub proof fn lemma_joined_push(ps: Seq<Seq<char>>, x: Seq<char>, sep: char)
    requires
        ps.len() >= 1,
    ensures
        joined(ps.push(x), sep) == joined(ps, sep).push(sep) + x,
    decreases ps.len(),
{
    assert(ps.push(x)[0] == ps[0]);
    if ps.len() == 1 {
        assert(ps.push(x).drop_first() =~= seq![x]);
        assert(joined(seq![x], sep) == x);
    } else {
        lemma_joined_push(ps.drop_first(), x, sep);
        assert(ps.push(x).drop_first() =~= ps.drop_first().push(x));
        assert(ps[0].push(sep) + (joined(ps.drop_first(), sep).push(sep) + x) =~= (ps[0].push(sep) + joined(
            ps.drop_first(),
            sep,
        )).push(sep) + x);
    }
}

/// The decimal form of a number: digits only, with that value.
pub proof fn lemma_decimal(n: nat)
    ensures
        decimal(n).len() >= 1,
        forall|i: int| 0 <= i < decimal(n).len() ==> is_digit(#[trigger] decimal(n)[i]),
        digits_value(decimal(n)) == n,
    decreases n,
{
    let ch = (('0' as nat) + n % 10) as char;
    assert(ch as nat == ('0' as nat) + n % 10);
    assert((n / 10) * 10 + n % 10 == n) by (nonlinear_arith);
    assert(n < 10 ==> n % 10 == n) by (nonlinear_arith);
    if n < 10 {
        assert(decimal(n).drop_last() =~= Seq::<char>::empty());
        assert(decimal(n).last() == ch);
        assert(digits_value(Seq::<char>::empty()) == 0);
        assert(digits_value(decimal(n)) == digits_value(decimal(n).drop_last()) * 10 + (ch as nat - '0' as nat) as nat);
    } else {
        lemma_decimal(n / 10);
        let d = decimal(n / 10);
        assert(decimal(n).drop_last() =~= d);
        assert(decimal(n).last() == ch);
        assert(digits_value(decimal(n)) == digits_value(d) * 10 + (ch as nat - '0' as nat));
        assert forall|i: int| 0 <= i < decimal(n).len() implies is_digit(#[trigger] decimal(n)[i]) by {
            if i < d.len() {
                assert(decimal(n)[i] == d[i]);
            }
        }
    }
}

/// Text of digits only has no white space, no `'+'` and none of the given characters.
proof fn lemma_digit_text(s: Seq<char>, c: char)
    requires
        forall|i: int| 0 <= i < s.len() ==> is_digit(#[trigger] s[i]),
        !is_digit(c),
    ensures
        !has_char(s, c),
        is_trimmed(s),
{
    if has_char(s, c) {
        let i = choose|i: int| 0 <= i < s.len() && s[i] == c;
        assert(is_digit(s[i]));
    }
    if s.len() > 0 {
        assert(is_digit(s[0]));
        assert(is_digit(s[s.len() - 1]));
    }
}

/// Text with no white space at its ends is its own trimmed form.
pub proof fn lemma_trimmed(s: Seq<char>)
    requires
        is_trimmed(s),
    ensures
        trim(s) == s,
{
}

/// The decimal form of `n` reads back as `n` wherever `n` is allowed.
pub proof fn lemma_decimal_parses(n: nat, max: nat)
    requires
        n <= max,
    ensures
        parse_unsigned(trim(decimal(n)), max) == Some(n),
        !has_char(decimal(n), ';'),
        !has_char(decimal(n), '\n'),
        !has_char(decimal(n), '\r'),
        !is_white_space(decimal(n)[0]),
        !is_white_space(decimal(n).last()),
        decimal(n)[0] != '#',
{
    lemma_decimal(n);
    let d = decimal(n);
    lemma_digit_text(d, ';');
    lemma_digit_text(d, '\n');
    lemma_digit_text(d, '\r');
    lemma_trimmed(d);
    assert(is_digit(d[0]));
    assert(is_digit(d[d.len() - 1]));
    assert(strip_plus(d) == d);
}

/// Trimming the end of text that starts with a non-space keeps its first character.
pub proof fn lemma_trim_end_first(s: Seq<char>)
    requires
        s.len() > 0,
        !is_white_space(s[0]),
    ensures
        trim_end(s).len() > 0,
        trim_end(s)[0] == s[0],
    decreases s.len(),
{
    if is_white_space(s.last()) {
        if s.len() > 1 {
            lemma_trim_end_first(s.drop_last());
        }
    }
}

/// The lines joined: the first line and its break, then the others.
proof fn lemma_join_lines_front(ls: Seq<Seq<char>>)
    requires
        ls.len() >= 1,
    ensures
        join_lines(ls) == ls[0].push('\n') + join_lines(ls.drop_first()),
    decreases ls.len(),
{
    if ls.len() == 1 {
        assert(ls.drop_first() =~= Seq::<Seq<char>>::empty());
        assert(ls.drop_last() =~= Seq::<Seq<char>>::empty());
        assert(Seq::<char>::empty() + ls[0].push('\n') =~= ls[0].push('\n'));
    } else {
        lemma_join_lines_front(ls.drop_last());
        assert(ls.drop_last().drop_first() =~= ls.drop_first().drop_last());
        assert(ls.drop_last()[0] == ls[0]);
        assert(ls.drop_first().last() == ls.last());
        assert(ls[0].push('\n') + join_lines(ls.drop_first().drop_last()) + ls.last().push('\n') =~= ls[0].push('\n') + (
        join_lines(ls.drop_first().drop_last()) + ls.last().push('\n')));
    }
}

/// Joining two runs of lines is joining each and putting them together.
pub proof fn lemma_join_lines_concat(a: Seq<Seq<char>>, b: Seq<Seq<char>>)
    ensures
        join_lines(a + b) == join_lines(a) + join_lines(b),
    decreases b.len(),
{
    if b.len() == 0 {
        assert(a + b =~= a);
        assert(join_lines(a) + Seq::<char>::empty() =~= join_lines(a));
    } else {
        lemma_join_lines_concat(a, b.drop_last());
        assert((a + b).drop_last() =~= a + b.drop_last());
        assert((a + b).last() == b.last());
        assert(join_lines(a) + join_lines(b.drop_last()) + b.last().push('\n') =~= join_lines(a) + (join_lines(
            b.drop_last(),
        ) + b.last().push('\n')));
    }
}

/// The lines of joined lines are the lines, when none has a line break or ends with
/// a carriage return.
pub proof fn lemma_lines_of_joined(ls: Seq<Seq<char>>)
    requires
        forall|i: int| 0 <= i < ls.len() ==> !has_char(#[trigger] ls[i], '\n'),
        forall|i: int| 0 <= i < ls.len() ==> strip_cr(#[trigger] ls[i]) == ls[i],
    ensures
        lines(join_lines(ls)) == ls,
{
    lemma_split_join_lines(ls);
    let pieces = split(join_lines(ls), '\n');
    assert(pieces.drop_last() =~= ls);
    assert(pieces.drop_last().map_values(|p: Seq<char>| strip_cr(p)) =~= ls);
}

/// Splitting joined lines at the breaks gives the lines and an empty last piece.
proof fn lemma_split_join_lines(ls: Seq<Seq<char>>)
    requires
        forall|i: int| 0 <= i < ls.len() ==> !has_char(#[trigger] ls[i], '\n'),
    ensures
        split(join_lines(ls), '\n') == ls.push(Seq::empty()),
    decreases ls.len(),
{
    if ls.len() == 0 {
        assert(split(Seq::<char>::empty(), '\n') == seq![Seq::<char>::empty()]);
        assert(ls.push(Seq::empty()) =~= seq![Seq::<char>::empty()]);
    } else {
        let rest = ls.drop_first();
        assert forall|i: int| 0 <= i < rest.len() implies !has_char(#[trigger] rest[i], '\n') by {
            assert(rest[i] == ls[i + 1]);
        }
        lemma_split_join_lines(rest);
        lemma_join_lines_front(ls);
        assert(!has_char(ls[0], '\n'));
        lemma_split_piece(ls[0], join_lines(rest), '\n');
        assert(seq![ls[0]] + rest.push(Seq::empty()) =~= ls.push(Seq::empty()));
    }
}

/// The lines of joined lines are the lines without one trailing carriage return each,
/// when none has a line break.
pub proof fn lemma_lines_of_joined_stripped(ls: Seq<Seq<char>>)
    requires
        forall|i: int| 0 <= i < ls.len() ==> !has_char(#[trigger] ls[i], '\n'),
    ensures
        lines(join_lines(ls)) == ls.map_values(|l: Seq<char>| strip_cr(l)),
{
    lemma_split_join_lines(ls);
    let pieces = split(join_lines(ls), '\n');
    assert(pieces.drop_last() =~= ls);
    assert(pieces.drop_last().map_values(|p: Seq<char>| strip_cr(p)) =~= ls.map_values(|l: Seq<char>| strip_cr(l)));
}

/// The pieces read from position `i` on, starting with `cur`, have no separator when
/// `cur` has none.
proof fn lemma_split_from_lacks(s: Seq<char>, sep: char, i: int, cur: Seq<char>)
    requires
        0 <= i,
        !has_char(cur, sep),
    ensures
        forall|k: int| 0 <= k < split_from(s, sep, i, cur).len() ==> !has_char(#[trigger] split_from(s, sep, i, cur)[k], sep),
    decreases s.len() - i,
{
    if i < s.len() {
        if s[i] == sep {
            lemma_split_from_lacks(s, sep, i + 1, Seq::empty());
            let rest = split_from(s, sep, i + 1, Seq::empty());
            assert(split_from(s, sep, i, cur) == seq![cur] + rest);
            assert((seq![cur] + rest)[0] == cur);
            assert forall|k: int| 0 <= k < (seq![cur] + rest).len() implies !has_char(#[trigger] (seq![cur] + rest)[k], sep) by {
                if k > 0 {
                    assert((seq![cur] + rest)[k] == rest[k - 1]);
                }
            }
        } else {
            let next = cur.push(s[i]);
            assert(!has_char(next, sep)) by {
                if has_char(next, sep) {
                    let j = choose|j: int| 0 <= j < next.len() && next[j] == sep;
                    if j < cur.len() {
                        assert(next[j] == cur[j]);
                    }
                }
            }
            lemma_split_from_lacks(s, sep, i + 1, next);
            assert(split_from(s, sep, i, cur) == split_from(s, sep, i + 1, next));
        }
    } else {
        assert(split_from(s, sep, i, cur) == seq![cur]);
        assert(seq![cur][0] == cur);
    }
}

/// No line of a text has a line break.
pub proof fn lemma_lines_lack_break(s: Seq<char>)
    ensures
        forall|k: int| 0 <= k < lines(s).len() ==> !has_char(#[trigger] lines(s)[k], '\n'),
{
    let pieces = split(s, '\n');
    lemma_split_from_lacks(s, '\n', 0, Seq::empty());
    lemma_split_nonempty(s, '\n', 0, Seq::empty());
    assert forall|k: int| 0 <= k < lines(s).len() implies !has_char(#[trigger] lines(s)[k], '\n') by {
        if k < pieces.len() - 1 {
            let p = pieces[k];
            assert(lines(s)[k] == strip_cr(p));
            if has_char(strip_cr(p), '\n') {
                let j = choose|j: int| 0 <= j < strip_cr(p).len() && strip_cr(p)[j] == '\n';
                assert(p[j] == '\n');
            }
        } else {
            assert(lines(s)[k] == pieces.last());
        }
    }
}

/// One more character that is not the separator goes onto the last piece.
proof fn lemma_split_from_push(s: Seq<char>, sep: char, c: char, i: int, cur: Seq<char>)
    requires
        c != sep,
        0 <= i <= s.len(),
    ensures
        split_from(s.push(c), sep, i, cur).len() == split_from(s, sep, i, cur).len(),
        split_from(s.push(c), sep, i, cur).drop_last() == split_from(s, sep, i, cur).drop_last(),
        split_from(s.push(c), sep, i, cur).last() == split_from(s, sep, i, cur).last().push(c),
    decreases s.len() - i,
{
    let t = s.push(c);
    if i == s.len() {
        assert(t[i] == c);
        assert(split_from(t, sep, i + 1, cur.push(c)) == seq![cur.push(c)]);
        assert(seq![cur.push(c)].drop_last() =~= seq![cur].drop_last());
    } else {
        assert(t[i] == s[i]);
        if s[i] == sep {
            lemma_split_from_push(s, sep, c, i + 1, Seq::empty());
            let a = split_from(s, sep, i + 1, Seq::empty());
            let b = split_from(t, sep, i + 1, Seq::empty());
            lemma_split_nonempty(s, sep, i + 1, Seq::empty());
            assert((seq![cur] + b).drop_last() =~= seq![cur] + b.drop_last());
            assert((seq![cur] + a).drop_last() =~= seq![cur] + a.drop_last());
        } else {
            lemma_split_from_push(s, sep, c, i + 1, cur.push(s[i]));
        }
    }
}

/// Splitting text with one more character that is not the separator: the same
/// pieces, the last one with the character added.
pub proof fn lemma_split_push(s: Seq<char>, sep: char, c: char)
    requires
        c != sep,
    ensures
        split(s.push(c), sep).len() == split(s, sep).len(),
        split(s.push(c), sep).drop_last() == split(s, sep).drop_last(),
        split(s.push(c), sep).last() == split(s, sep).last().push(c),
{
    lemma_split_from_push(s, sep, c, 0, Seq::empty());
}

/// Leading white space of text with white space added at its end.
proof fn lemma_trim_start_push_space(s: Seq<char>, c: char)
    requires
        is_white_space(c),
    ensures
        trim_start(s.push(c)) == if trim_start(s).len() == 0 {
            Seq::<char>::empty()
        } else {
            trim_start(s).push(c)
        },
    decreases s.len(),
{
    if s.len() == 0 {
        assert(s.push(c) =~= seq![c]);
        assert(seq![c].drop_first() =~= Seq::<char>::empty());
        assert(trim_start(Seq::<char>::empty()) == Seq::<char>::empty());
        assert(trim_start(seq![c]) == trim_start(seq![c].drop_first()));
    } else {
        assert(s.push(c)[0] == s[0]);
        if is_white_space(s[0]) {
            assert(s.push(c).drop_first() =~= s.drop_first().push(c));
            lemma_trim_start_push_space(s.drop_first(), c);
            assert(trim_start(s.push(c)) == trim_start(s.push(c).drop_first()));
            assert(trim_start(s) == trim_start(s.drop_first()));
        }
    }
}

/// White space added at the end does not change the trimmed text.
pub proof fn lemma_trim_push_space(s: Seq<char>, c: char)
    requires
        is_white_space(c),
    ensures
        trim(s.push(c)) == trim(s),
{
    lemma_trim_start_push_space(s, c);
    let x = trim_start(s);
    if x.len() > 0 {
        assert(x.push(c).drop_last() =~= x);
    }
}

} // verus!
