//! Character-level text handling: whitespace, words, lines, trimming and
//! decimal numbers, as the data files and the HTTP front end read them.
use vstd::prelude::*;

verus! {

broadcast use vstd::string::axiom_spec_iter;

/// The characters of a string.
pub fn chars_of(s: &str) -> (r: Vec<char>)
    ensures
        r@ == s@,
{
    let mut out: Vec<char> = Vec::new();
    for c in it: s.chars()
        invariant
            it.seq() == s@,
            out@ == it.seq().take(it.index()),
    {
        out.push(c);
        assert(it.seq().take(it.index() + 1) =~= out@);
    }
    assert(out@ =~= s@);
    out
}

} // verus!

verus! {

/// Collect characters into a string.
///
/// Calls `String::from_iter` on the characters, which appends each one.
#[verifier::external_body]
pub(crate) fn string_of(chars: &[char]) -> (r: String)
    ensures
        r@ == chars@,
{
    String::from_iter(chars.iter())
}

/// Unicode `White_Space`, the set that `char::is_whitespace` accepts.
pub open spec fn is_ws(c: char) -> bool {
    let u = c as u32;
    ||| 9 <= u <= 13
    ||| u == 32
    ||| u == 0x85
    ||| u == 0xA0
    ||| u == 0x1680
    ||| 0x2000 <= u <= 0x200A
    ||| u == 0x2028
    ||| u == 0x2029
    ||| u == 0x202F
    ||| u == 0x205F
    ||| u == 0x3000
}

/// Whether a character is Unicode white space.
pub fn is_whitespace(c: char) -> (r: bool)
    ensures
        r == is_ws(c),
{
    let u = c as u32;
    (9 <= u && u <= 13) || u == 32 || u == 0x85 || u == 0xA0 || u == 0x1680 || (0x2000 <= u && u
        <= 0x200A) || u == 0x2028 || u == 0x2029 || u == 0x202F || u == 0x205F || u == 0x3000
}

/// Whether any character of `s` is white space.
pub open spec fn has_ws(s: Seq<char>) -> bool {
    exists|i: int| 0 <= i < s.len() && is_ws(#[trigger] s[i])
}

/// Whether a string contains white space.
pub fn contains_whitespace(s: &[char]) -> (r: bool)
    ensures
        r == has_ws(s@),
{
    let mut i: usize = 0;
    while i < s.len()
        invariant
            i <= s@.len(),
            forall|j: int| 0 <= j < i ==> !is_ws(#[trigger] s@[j]),
        decreases s@.len() - i,
    {
        if is_whitespace(s[i]) {
            return true;
        }
        i = i + 1;
    }
    false
}

/// Reading `s` from the left: the words completed so far and the word
/// being read.
pub open spec fn word_scan(s: Seq<char>) -> (Seq<Seq<char>>, Seq<char>)
    decreases s.len(),
{
    if s.len() == 0 {
        (Seq::empty(), Seq::empty())
    } else {
        let (done, cur) = word_scan(s.drop_last());
        if is_ws(s.last()) {
            if cur.len() > 0 {
                (done.push(cur), Seq::empty())
            } else {
                (done, Seq::empty())
            }
        } else {
            (done, cur.push(s.last()))
        }
    }
}

/// The words of `s`: its maximal runs of non-white-space characters, in
/// order (what `str::split_whitespace` yields).
pub open spec fn words(s: Seq<char>) -> Seq<Seq<char>> {
    let (done, cur) = word_scan(s);
    if cur.len() > 0 {
        done.push(cur)
    } else {
        done
    }
}

/// Split into words at white space.
pub fn split_words(s: &[char]) -> (r: Vec<Vec<char>>)
    ensures
        r@.map_values(|w: Vec<char>| w@) == words(s@),
{
    let mut done: Vec<Vec<char>> = Vec::new();
    let mut cur: Vec<char> = Vec::new();
    let mut i: usize = 0;
    while i < s.len()
        invariant
            i <= s@.len(),
            (done@.map_values(|w: Vec<char>| w@), cur@) == word_scan(s@.take(i as int)),
        decreases s@.len() - i,
    {
        assert(s@.take(i + 1).drop_last() =~= s@.take(i as int));
        let ghost before = done@;
        if is_whitespace(s[i]) {
            if cur.len() > 0 {
                let w = cur;
                cur = Vec::new();
                done.push(w);
                assert(done@.map_values(|w: Vec<char>| w@) =~= before.map_values(|w: Vec<char>| w@).push(w@));
            }
        } else {
            cur.push(s[i]);
        }
        i = i + 1;
    }
    assert(s@.take(s@.len() as int) =~= s@);
    if cur.len() > 0 {
        let ghost before = done@;
        let w = cur;
        done.push(w);
        assert(done@.map_values(|w: Vec<char>| w@) =~= before.map_values(|w: Vec<char>| w@).push(w@));
    }
    done
}

} // verus!

verus! {

/// A line without the carriage return that ends it, if any.
pub open spec fn strip_cr(line: Seq<char>) -> Seq<char> {
    if line.len() > 0 && line.last() == '\r' {
        line.drop_last()
    } else {
        line
    }
}

/// Reading `s` from the left: the lines ended so far (by `\n`, or `\r\n`)
/// and the line being read.
pub open spec fn line_scan(s: Seq<char>) -> (Seq<Seq<char>>, Seq<char>)
    decreases s.len(),
{
    if s.len() == 0 {
        (Seq::empty(), Seq::empty())
    } else {
        let (done, cur) = line_scan(s.drop_last());
        if s.last() == '\n' {
            (done.push(strip_cr(cur)), Seq::empty())
        } else {
            (done, cur.push(s.last()))
        }
    }
}

/// The lines of `s` as `str::lines` yields them: split at `\n` or `\r\n`,
/// the last line ending optional.
pub open spec fn lines(s: Seq<char>) -> Seq<Seq<char>> {
    let (done, cur) = line_scan(s);
    if cur.len() > 0 {
        done.push(cur)
    } else {
        done
    }
}

/// Split text into lines.
pub fn split_lines(s: &[char]) -> (r: Vec<Vec<char>>)
    ensures
        r@.map_values(|w: Vec<char>| w@) == lines(s@),
{
    let mut done: Vec<Vec<char>> = Vec::new();
    let mut cur: Vec<char> = Vec::new();
    let mut i: usize = 0;
    while i < s.len()
        invariant
            i <= s@.len(),
            (done@.map_values(|w: Vec<char>| w@), cur@) == line_scan(s@.take(i as int)),
        decreases s@.len() - i,
    {
        assert(s@.take(i + 1).drop_last() =~= s@.take(i as int));
        let ghost before = done@;
        if s[i] == '\n' {
            let mut line = cur;
            cur = Vec::new();
            let ghost whole = line@;
            let n = line.len();
            if n > 0 && line[n - 1] == '\r' {
                line.pop();
            }
            assert(line@ =~= strip_cr(whole));
            let ghost stripped = line@;
            done.push(line);
            assert(done@.map_values(|w: Vec<char>| w@) =~= before.map_values(|w: Vec<char>| w@).push(stripped));
        } else {
            cur.push(s[i]);
        }
        i = i + 1;
    }
    assert(s@.take(s@.len() as int) =~= s@);
    if cur.len() > 0 {
        let ghost before = done@;
        let w = cur;
        done.push(w);
        assert(done@.map_values(|w: Vec<char>| w@) =~= before.map_values(|w: Vec<char>| w@).push(w@));
    }
    done
}

} // verus!

verus! {

/// Reading `s` from the left: the pieces ended by `\r\n` so far and the
/// piece being read.
pub open spec fn crlf_scan(s: Seq<char>) -> (Seq<Seq<char>>, Seq<char>)
    decreases s.len(),
{
    if s.len() == 0 {
        (Seq::empty(), Seq::empty())
    } else {
        let (done, cur) = crlf_scan(s.drop_last());
        if s.last() == '\n' && cur.len() > 0 && cur.last() == '\r' {
            (done.push(cur.drop_last()), Seq::empty())
        } else {
            (done, cur.push(s.last()))
        }
    }
}

/// The pieces of `s` between occurrences of `\r\n` (what `str::split`
/// with that pattern yields), the last one included even when empty.
pub open spec fn crlf_pieces(s: Seq<char>) -> Seq<Seq<char>> {
    let (done, cur) = crlf_scan(s);
    done.push(cur)
}

/// Split text at each `\r\n`.
pub fn split_crlf(s: &[char]) -> (r: Vec<Vec<char>>)
    ensures
        r@.map_values(|w: Vec<char>| w@) == crlf_pieces(s@),
{
    let mut done: Vec<Vec<char>> = Vec::new();
    let mut cur: Vec<char> = Vec::new();
    let mut i: usize = 0;
    while i < s.len()
        invariant
            i <= s@.len(),
            (done@.map_values(|w: Vec<char>| w@), cur@) == crlf_scan(s@.take(i as int)),
        decreases s@.len() - i,
    {
        assert(s@.take(i + 1).drop_last() =~= s@.take(i as int));
        let ghost before = done@;
        let n = cur.len();
        if s[i] == '\n' && n > 0 && cur[n - 1] == '\r' {
            let mut piece = cur;
            cur = Vec::new();
            piece.pop();
            let ghost p = piece@;
            done.push(piece);
            assert(done@.map_values(|w: Vec<char>| w@) =~= before.map_values(|w: Vec<char>| w@).push(p));
        } else {
            cur.push(s[i]);
        }
        i = i + 1;
    }
    assert(s@.take(s@.len() as int) =~= s@);
    let ghost before = done@;
    let w = cur;
    done.push(w);
    assert(done@.map_values(|w: Vec<char>| w@) =~= before.map_values(|w: Vec<char>| w@).push(w@));
    done
}

/// `s` without leading white space.
pub open spec fn trim_start(s: Seq<char>) -> Seq<char>
    decreases s.len(),
{
    if s.len() > 0 && is_ws(s[0]) {
        trim_start(s.drop_first())
    } else {
        s
    }
}

/// `s` without trailing white space.
pub open spec fn trim_end(s: Seq<char>) -> Seq<char>
    decreases s.len(),
{
    if s.len() > 0 && is_ws(s.last()) {
        trim_end(s.drop_last())
    } else {
        s
    }
}

/// `s` without leading or trailing white space (`str::trim`).
pub open spec fn trim(s: Seq<char>) -> Seq<char> {
    trim_end(trim_start(s))
}

/// Strip leading and trailing white space.
pub fn trimmed(s: &[char]) -> (r: Vec<char>)
    ensures
        r@ == trim(s@),
{
    let mut start: usize = 0;
    assert(s@.skip(0) =~= s@);
    while start < s.len() && is_whitespace(s[start])
        invariant
            start <= s@.len(),
            trim_start(s@) == trim_start(s@.skip(start as int)),
        decreases s@.len() - start,
    {
        assert(s@.skip(start as int).drop_first() =~= s@.skip(start + 1));
        start = start + 1;
    }
    let mut end: usize = s.len();
    let ghost t = s@.skip(start as int);
    assert(trim_start(s@) == t) by {
        if start < s@.len() {
            assert(t[0] == s@[start as int]);
        }
    }
    assert(t.take(t.len() as int) =~= t);
    while end > start && is_whitespace(s[end - 1])
        invariant
            start <= end <= s@.len(),
            t == s@.skip(start as int),
            trim_end(t) == trim_end(t.take(end - start)),
        decreases end,
    {
        assert(t.take(end - start).drop_last() =~= t.take(end - 1 - start));
        assert(t.take(end - start).last() == s@[end - 1]);
        end = end - 1;
    }
    let mut out: Vec<char> = Vec::new();
    let mut i: usize = start;
    while i < end
        invariant
            start <= i <= end <= s@.len(),
            out@ == s@.subrange(start as int, i as int),
        decreases end - i,
    {
        out.push(s[i]);
        assert(out@ =~= s@.subrange(start as int, i + 1));
        i = i + 1;
    }
    assert(trim_end(t) == out@) by {
        assert(out@ =~= t.take(end - start));
        if end > start {
            assert(t.take(end - start).last() == s@[end - 1]);
        }
    }
    out
}

/// The index of the first occurrence of `c` in `s`.
pub open spec fn first_index(s: Seq<char>, c: char) -> Option<int> {
    if exists|i: int| 0 <= i < s.len() && s[i] == c {
        Some(choose|i: int| 0 <= i < s.len() && s[i] == c && forall|j: int| 0 <= j < i ==> s[j] != c)
    } else {
        None
    }
}

/// Split at the first occurrence of `c` (`str::split_once`).
pub open spec fn split_once(s: Seq<char>, c: char) -> Option<(Seq<char>, Seq<char>)> {
    match first_index(s, c) {
        Some(i) => Some((s.take(i), s.skip(i + 1))),
        None => None,
    }
}

/// The first occurrence is the one with none before it.
proof fn lemma_first_index(s: Seq<char>, c: char, i: int)
    requires
        0 <= i < s.len(),
        s[i] == c,
        forall|j: int| 0 <= j < i ==> s[j] != c,
    ensures
        first_index(s, c) == Some(i),
{
    let k = choose|k: int| 0 <= k < s.len() && s[k] == c && forall|j: int| 0 <= j < k ==> s[j] != c;
    assert(s[i] == c);
    if k < i {
        assert(s[k] != c);
    } else if k > i {
        assert(s[i] != c);
    }
}

/// The characters of `s` from `from` up to `to`.
pub fn copy_range(s: &[char], from: usize, to: usize) -> (r: Vec<char>)
    requires
        from <= to <= s@.len(),
    ensures
        r@ == s@.subrange(from as int, to as int),
{
    let mut out: Vec<char> = Vec::new();
    let mut m: usize = from;
    while m < to
        invariant
            from <= m <= to <= s@.len(),
            out@ == s@.subrange(from as int, m as int),
        decreases to - m,
    {
        out.push(s[m]);
        assert(out@ =~= s@.subrange(from as int, m + 1));
        m = m + 1;
    }
    out
}

fn index_of(s: &[char], c: char) -> (r: Option<usize>)
    ensures
        match r {
            Some(i) => i < s@.len() && s@[i as int] == c && forall|j: int| 0 <= j < i ==> s@[j] != c,
            None => forall|j: int| 0 <= j < s@.len() ==> s@[j] != c,
        },
{
    let mut i: usize = 0;
    while i < s.len()
        invariant
            i <= s@.len(),
            forall|j: int| 0 <= j < i ==> s@[j] != c,
        decreases s@.len() - i,
    {
        if s[i] == c {
            return Some(i);
        }
        i = i + 1;
    }
    None
}

/// Split at the first occurrence of `c`.
pub fn split_at_char(s: &[char], c: char) -> (r: Option<(Vec<char>, Vec<char>)>)
    ensures
        match split_once(s@, c) {
            Some((a, b)) => r matches Some((x, y)) && x@ == a && y@ == b,
            None => r is None,
        },
{
    let n = s.len();
    match index_of(s, c) {
        Some(i) => {
            proof {
                lemma_first_index(s@, c, i as int);
            }
            let a = copy_range(s, 0, i);
            let b = copy_range(s, i + 1, n);
            assert(a@ =~= s@.take(i as int));
            assert(b@ =~= s@.skip(i + 1));
            Some((a, b))
        },
        None => None,
    }
}

} // verus!

verus! {

/// The decimal digits of a number.
pub open spec fn decimal(n: nat) -> Seq<char>
    decreases n,
{
    if n < 10 {
        seq![(48 + n) as char]
    } else {
        decimal(n / 10).push((48 + n % 10) as char)
    }
}

/// Append the decimal digits of `n`.
pub fn push_decimal(out: &mut Vec<char>, n: u64)
    ensures
        final(out)@ == old(out)@ + decimal(n as nat),
    decreases n,
{
    if n >= 10 {
        push_decimal(out, n / 10);
    }
    let ghost before = out@;
    let digit = (48 + n % 10) as u8;
    out.push(digit as char);
    proof {
        assert((digit as char) == ((48 + n as nat % 10) as char));
        if n < 10 {
            assert(n as nat % 10 == n);
        }
        assert(out@ =~= before.push((48 + n as nat % 10) as char));
    }
}

/// The decimal text of a number.
pub fn decimal_text(n: u64) -> (r: String)
    ensures
        r@ == decimal(n as nat),
{
    let mut out: Vec<char> = Vec::new();
    push_decimal(&mut out, n);
    assert(out@ =~= decimal(n as nat));
    string_of(out.as_slice())
}

/// Whether `c` is an ASCII digit.
pub open spec fn is_digit(c: char) -> bool {
    '0' <= c <= '9'
}

/// The value of a run of ASCII digits.
pub open spec fn digits_value(s: Seq<char>) -> nat
    decreases s.len(),
{
    if s.len() == 0 {
        0
    } else {
        digits_value(s.drop_last()) * 10 + (s.last() as nat - 48) as nat
    }
}

/// `s` without one leading `+`.
pub open spec fn sign_stripped(s: Seq<char>) -> Seq<char> {
    if s.len() > 0 && s[0] == '+' {
        s.drop_first()
    } else {
        s
    }
}

/// The number that `str::parse` reads for an unsigned type, before the
/// range check: an optional `+`, then one or more ASCII digits.
pub open spec fn uint_text(s: Seq<char>) -> Option<nat> {
    let d = sign_stripped(s);
    if d.len() > 0 && forall|i: int| 0 <= i < d.len() ==> is_digit(#[trigger] d[i]) {
        Some(digits_value(d))
    } else {
        None
    }
}

proof fn lemma_digits_grow(s: Seq<char>, i: int)
    requires
        0 <= i <= s.len(),
        forall|k: int| 0 <= k < s.len() ==> is_digit(#[trigger] s[k]),
    ensures
        digits_value(s.take(i)) <= digits_value(s),
    decreases s.len() - i,
{
    if i < s.len() {
        lemma_digits_grow(s, i + 1);
        assert(s.take(i + 1).drop_last() =~= s.take(i));
    } else {
        assert(s.take(i) =~= s);
    }
}

/// Parse an unsigned 64-bit decimal number as `u64::from_str` does.
pub fn parse_u64(s: &[char]) -> (r: Option<u64>)
    ensures
        match uint_text(s@) {
            Some(v) => if v <= u64::MAX {
                r == Some(v as u64)
            } else {
                r is None
            },
            None => r is None,
        },
{
    let start: usize = if s.len() > 0 && s[0] == '+' { 1 } else { 0 };
    let ghost d = sign_stripped(s@);
    assert(d =~= s@.skip(start as int));
    if start >= s.len() {
        return None;
    }
    let mut acc: u64 = 0;
    let mut i: usize = start;
    let mut overflow = false;
    while i < s.len()
        invariant
            start <= i <= s@.len(),
            d == s@.skip(start as int),
            d == sign_stripped(s@),
            start < s@.len(),
            forall|k: int| start <= k < i ==> is_digit(#[trigger] s@[k]),
            !overflow ==> acc == digits_value(d.take(i - start)),
            overflow ==> (forall|k: int| 0 <= k < d.len() ==> is_digit(#[trigger] d[k])) ==> digits_value(d) > u64::MAX,
        decreases s@.len() - i,
    {
        let c = s[i];
        if !('0' <= c && c <= '9') {
            assert(d[i - start] == s@[i as int]);
            assert(!is_digit(d[i - start]));
            return None;
        }
        let digit = (c as u32 - 48) as u64;
        proof {
            assert(d.take(i - start + 1).drop_last() =~= d.take(i - start));
            assert(d.take(i - start + 1).last() == c);
        }
        if !overflow {
            if acc > (u64::MAX - digit) / 10 {
                overflow = true;
                proof {
                    assert(acc * 10 + digit > u64::MAX) by (nonlinear_arith)
                        requires
                            acc > (u64::MAX - digit) / 10,
                            digit <= 9,
                    ;
                    if forall|k: int| 0 <= k < d.len() ==> is_digit(#[trigger] d[k]) {
                        lemma_digits_grow(d, i - start + 1);
                    }
                }
            } else {
                assert(acc * 10 + digit <= u64::MAX) by (nonlinear_arith)
                    requires
                        acc <= (u64::MAX - digit) / 10,
                        digit <= 9,
                ;
                acc = acc * 10 + digit;
            }
        }
        i = i + 1;
    }
    assert(d.take(d.len() as int) =~= d);
    assert(forall|k: int| 0 <= k < d.len() ==> is_digit(#[trigger] d[k])) by {
        assert forall|k: int| 0 <= k < d.len() implies is_digit(#[trigger] d[k]) by {
            assert(d[k] == s@[start + k]);
        }
    }
    if overflow {
        None
    } else {
        Some(acc)
    }
}

/// Parse an unsigned decimal number as `usize::from_str` does.
pub fn parse_usize(s: &[char]) -> (r: Option<usize>)
    ensures
        match uint_text(s@) {
            Some(v) => if v <= usize::MAX {
                r == Some(v as usize)
            } else {
                r is None
            },
            None => r is None,
        },
{
    match parse_u64(s) {
        Some(v) => {
            if v as u128 <= usize::MAX as u128 {
                Some(v as usize)
            } else {
                None
            }
        },
        None => {
            proof {
                if let Some(v) = uint_text(s@) {
                    assert(v > u64::MAX);
                    assert(usize::MAX <= u64::MAX);
                }
            }
            None
        },
    }
}

} // verus!

verus! {

/// Appending characters other than `\n` extends the line being read.
pub proof fn lemma_line_scan_plain(pre: Seq<char>, s: Seq<char>)
    requires
        forall|i: int| 0 <= i < s.len() ==> s[i] != '\n',
    ensures
        line_scan(pre + s) == (line_scan(pre).0, line_scan(pre).1 + s),
    decreases s.len(),
{
    if s.len() == 0 {
        assert(pre + s =~= pre);
        assert(line_scan(pre).1 + s =~= line_scan(pre).1);
    } else {
        lemma_line_scan_plain(pre, s.drop_last());
        assert((pre + s).drop_last() =~= pre + s.drop_last());
        assert((pre + s).last() == s.last());
        assert((line_scan(pre).1 + s.drop_last()).push(s.last()) =~= line_scan(pre).1 + s);
    }
}

/// A `\n` ends the line being read.
pub proof fn lemma_line_scan_newline(pre: Seq<char>)
    ensures
        line_scan(pre.push('\n')) == (line_scan(pre).0.push(strip_cr(line_scan(pre).1)), Seq::<char>::empty()),
{
    assert(pre.push('\n').drop_last() =~= pre);
}

/// The lines of two `\n`-terminated lines are those two lines.
pub proof fn lemma_two_lines(x: Seq<char>, y: Seq<char>)
    requires
        forall|i: int| 0 <= i < x.len() ==> x[i] != '\n' && x[i] != '\r',
        forall|i: int| 0 <= i < y.len() ==> y[i] != '\n' && y[i] != '\r',
    ensures
        lines(x + seq!['\n'] + y + seq!['\n']) == seq![x, y],
{
    let e = Seq::<char>::empty();
    lemma_line_scan_plain(e, x);
    assert(e + x =~= x);
    assert(line_scan(x) == (Seq::<Seq<char>>::empty(), x)) by {
        assert(line_scan(e) == (Seq::<Seq<char>>::empty(), e));
        assert(e + x =~= x);
    }
    lemma_line_scan_newline(x);
    assert(strip_cr(x) == x);
    assert(x + seq!['\n'] =~= x.push('\n'));
    lemma_line_scan_plain(x + seq!['\n'], y);
    assert(e + y =~= y);
    let p = x + seq!['\n'] + y;
    lemma_line_scan_newline(p);
    assert(strip_cr(y) == y);
    assert(p + seq!['\n'] =~= p.push('\n'));
    assert(Seq::<Seq<char>>::empty().push(x).push(y) =~= seq![x, y]);
}

/// Text without white space is its own trim.
pub proof fn lemma_trim_plain(s: Seq<char>)
    requires
        forall|i: int| 0 <= i < s.len() ==> !is_ws(s[i]),
    ensures
        trim(s) == s,
{
}

} // verus!

verus! {

/// Reading `s` from the left: the pieces ended by `c` so far and the piece
/// being read.
pub open spec fn split_scan(s: Seq<char>, c: char) -> (Seq<Seq<char>>, Seq<char>)
    decreases s.len(),
{
    if s.len() == 0 {
        (Seq::empty(), Seq::empty())
    } else {
        let (done, cur) = split_scan(s.drop_last(), c);
        if s.last() == c {
            (done.push(cur), Seq::empty())
        } else {
            (done, cur.push(s.last()))
        }
    }
}

/// The pieces of `s` between occurrences of `c` (what `str::split` with a
/// character yields), the last one included even when empty.
pub open spec fn pieces(s: Seq<char>, c: char) -> Seq<Seq<char>> {
    let (done, cur) = split_scan(s, c);
    done.push(cur)
}

/// Split text at each occurrence of `c`.
pub fn split_char(s: &[char], c: char) -> (r: Vec<Vec<char>>)
    ensures
        r@.map_values(|w: Vec<char>| w@) == pieces(s@, c),
{
    let mut done: Vec<Vec<char>> = Vec::new();
    let mut cur: Vec<char> = Vec::new();
    let mut i: usize = 0;
    while i < s.len()
        invariant
            i <= s@.len(),
            (done@.map_values(|w: Vec<char>| w@), cur@) == split_scan(s@.take(i as int), c),
        decreases s@.len() - i,
    {
        assert(s@.take(i + 1).drop_last() =~= s@.take(i as int));
        let ghost before = done@;
        if s[i] == c {
            let w = cur;
            cur = Vec::new();
            let ghost wv = w@;
            done.push(w);
            assert(done@.map_values(|w: Vec<char>| w@) =~= before.map_values(|w: Vec<char>| w@).push(wv));
        } else {
            cur.push(s[i]);
        }
        i = i + 1;
    }
    assert(s@.take(s@.len() as int) =~= s@);
    let ghost before = done@;
    let w = cur;
    done.push(w);
    assert(done@.map_values(|w: Vec<char>| w@) =~= before.map_values(|w: Vec<char>| w@).push(w@));
    done
}

} // verus!

verus! {

/// A copy of a run of characters.
pub fn chars_of_slice(s: &[char]) -> (r: Vec<char>)
    ensures
        r@ == s@,
{
    let mut out: Vec<char> = Vec::new();
    let mut i: usize = 0;
    while i < s.len()
        invariant
            i <= s@.len(),
            out@ == s@.take(i as int),
        decreases s@.len() - i,
    {
        out.push(s[i]);
        assert(out@ =~= s@.take(i + 1));
        i = i + 1;
    }
    assert(out@ =~= s@);
    out
}

} // verus!

verus! {

/// Appending a run without white space extends the word being read.
pub proof fn lemma_word_scan_plain(pre: Seq<char>, w: Seq<char>)
    requires
        forall|i: int| 0 <= i < w.len() ==> !is_ws(w[i]),
    ensures
        word_scan(pre + w) == (word_scan(pre).0, word_scan(pre).1 + w),
    decreases w.len(),
{
    if w.len() == 0 {
        assert(pre + w =~= pre);
        assert(word_scan(pre).1 + w =~= word_scan(pre).1);
    } else {
        lemma_word_scan_plain(pre, w.drop_last());
        assert((pre + w).drop_last() =~= pre + w.drop_last());
        assert((pre + w).last() == w.last());
        assert((word_scan(pre).1 + w.drop_last()).push(w.last()) =~= word_scan(pre).1 + w);
    }
}

/// A space ends the word being read.
pub proof fn lemma_word_scan_space(pre: Seq<char>)
    ensures
        word_scan(pre.push(' ')) == (
            if word_scan(pre).1.len() > 0 {
                word_scan(pre).0.push(word_scan(pre).1)
            } else {
                word_scan(pre).0
            },
            Seq::<char>::empty(),
        ),
{
    assert(pre.push(' ').drop_last() =~= pre);
    assert(is_ws(' '));
}

/// Words separated by single spaces are read back one by one.
pub proof fn lemma_words_spaced(ws: Seq<Seq<char>>)
    requires
        ws.len() > 0,
        forall|k: int| 0 <= k < ws.len() ==> (#[trigger] ws[k]).len() > 0,
        forall|k: int, i: int| 0 <= k < ws.len() && 0 <= i < ws[k].len() ==> !is_ws(#[trigger] ws[k][i]),
    ensures
        word_scan(spaced(ws)) == (ws.drop_last(), ws.last()),
        words(spaced(ws)) == ws,
    decreases ws.len(),
{
    if ws.len() == 1 {
        let e = Seq::<char>::empty();
        lemma_word_scan_plain(e, ws[0]);
        assert(e + ws[0] =~= ws[0]);
        assert(spaced(ws) == ws[0]);
        assert(word_scan(e) == (Seq::<Seq<char>>::empty(), e));
        assert(e + ws[0] =~= ws[0]);
        assert(ws.drop_last() =~= Seq::<Seq<char>>::empty());
    } else {
        let init = ws.drop_last();
        lemma_words_spaced(init);
        lemma_word_scan_space(spaced(init));
        lemma_word_scan_plain(spaced(init).push(' '), ws.last());
        assert(spaced(ws) == spaced(init).push(' ') + ws.last());
        assert(Seq::<char>::empty() + ws.last() =~= ws.last());
        assert(init.drop_last().push(init.last()) =~= init);
    }
}

/// Words joined with single spaces.
pub open spec fn spaced(ws: Seq<Seq<char>>) -> Seq<char>
    decreases ws.len(),
{
    if ws.len() == 0 {
        Seq::empty()
    } else if ws.len() == 1 {
        ws[0]
    } else {
        spaced(ws.drop_last()).push(' ') + ws.last()
    }
}

/// Text that is empty or ends a line has no line in progress.
pub proof fn lemma_lines_closed(pre: Seq<char>)
    requires
        pre.len() == 0 || pre.last() == '\n',
    ensures
        line_scan(pre).1.len() == 0,
        lines(pre) == line_scan(pre).0,
{
    if pre.len() > 0 {
        lemma_line_scan_newline(pre.drop_last());
        assert(pre.drop_last().push('\n') =~= pre);
    }
}

/// Appending one `\n`-terminated line to text that ends a line adds that
/// line.
pub proof fn lemma_lines_append(pre: Seq<char>, line: Seq<char>)
    requires
        pre.len() == 0 || pre.last() == '\n',
        forall|i: int| 0 <= i < line.len() ==> line[i] != '\n',
        line.len() == 0 || line.last() != '\r',
    ensures
        lines(pre + line + seq!['\n']) == lines(pre).push(line),
{
    lemma_lines_closed(pre);
    lemma_line_scan_plain(pre, line);
    assert(Seq::<char>::empty() + line =~= line);
    lemma_line_scan_newline(pre + line);
    assert(pre + line + seq!['\n'] =~= (pre + line).push('\n'));
}

} // verus!

verus! {

/// Spaced words hold only the words' characters and spaces.
pub proof fn lemma_spaced_chars(ws: Seq<Seq<char>>)
    requires
        forall|k: int, i: int| 0 <= k < ws.len() && 0 <= i < ws[k].len() ==> !is_ws(#[trigger] ws[k][i]),
    ensures
        forall|i: int| 0 <= i < spaced(ws).len() ==> (#[trigger] spaced(ws)[i]) == ' ' || !is_ws(spaced(ws)[i]),
    decreases ws.len(),
{
    if ws.len() == 1 {
        assert forall|i: int| 0 <= i < spaced(ws).len() implies (#[trigger] spaced(ws)[i]) == ' ' || !is_ws(spaced(ws)[i]) by {
            assert(spaced(ws)[i] == ws[0][i]);
        }
    } else if ws.len() > 1 {
        let init = ws.drop_last();
        assert forall|k: int, i: int| 0 <= k < init.len() && 0 <= i < init[k].len() implies !is_ws(#[trigger] init[k][i]) by {
            assert(init[k] == ws[k]);
        }
        lemma_spaced_chars(init);
        let a = spaced(init).push(' ');
        let l = ws.last();
        assert forall|i: int| 0 <= i < spaced(ws).len() implies (#[trigger] spaced(ws)[i]) == ' ' || !is_ws(spaced(ws)[i]) by {
            if i < spaced(init).len() {
                assert(spaced(ws)[i] == spaced(init)[i]);
            } else if i == spaced(init).len() {
                assert(spaced(ws)[i] == ' ');
            } else {
                assert(spaced(ws)[i] == l[i - a.len()]);
                assert(l == ws[ws.len() - 1]);
            }
        }
    }
}

} // verus!

verus! {

/// Decimal digits read back as the number they spell.
pub proof fn lemma_decimal_reads_back(n: nat)
    ensures
        decimal(n).len() > 0,
        forall|i: int| 0 <= i < decimal(n).len() ==> is_digit(#[trigger] decimal(n)[i]) && !is_ws(decimal(n)[i]),
        uint_text(decimal(n)) == Some(n),
    decreases n,
{
    if n < 10 {
        let d = decimal(n);
        assert(d == seq![(48 + n) as char]);
        assert(d.drop_last() =~= Seq::<char>::empty());
        assert(digits_value(d) == digits_value(d.drop_last()) * 10 + (d.last() as nat - 48) as nat);
    } else {
        lemma_decimal_reads_back(n / 10);
        let d = decimal(n);
        let p = decimal(n / 10);
        assert(d == p.push((48 + n % 10) as char));
        assert(d.drop_last() =~= p);
        assert forall|i: int| 0 <= i < d.len() implies is_digit(#[trigger] d[i]) && !is_ws(d[i]) by {
            if i < p.len() {
                assert(d[i] == p[i]);
            }
        }
        assert(sign_stripped(p) == p);
        assert(digits_value(p) == n / 10);
        assert(n == (n / 10) * 10 + n % 10);
    }
    let d = decimal(n);
    assert(is_digit(d[0]));
    assert(sign_stripped(d) == d);
}

} // verus!
