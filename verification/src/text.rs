//! Character-level text handling for the mesh reader: whitespace, trimming,
//! line and token splitting, and decimal integers.
//!
//! The definitions follow the behaviour of the standard library functions that
//! the reader relies on: `char::is_whitespace`, `str::trim`, `str::lines`,
//! `str::split_whitespace`, `FromStr` for the integer types and `Display` for
//! `i32`.

use vstd::prelude::*;

verus! {

// ---------------------------------------------------------------------------
// Whitespace
// ---------------------------------------------------------------------------

/// Unicode `White_Space` property, as used by `char::is_whitespace`.
pub open spec fn is_ws(c: char) -> bool {
    let u = c as u32;
    ||| (9 <= u && u <= 13)
    ||| u == 32
    ||| u == 0x85
    ||| u == 0xA0
    ||| u == 0x1680
    ||| (0x2000 <= u && u <= 0x200A)
    ||| u == 0x2028
    ||| u == 0x2029
    ||| u == 0x202F
    ||| u == 0x205F
    ||| u == 0x3000
}

/// Whether `c` is a whitespace character.
pub fn is_whitespace_char(c: char) -> (b: bool)
    ensures
        b == is_ws(c),
{
    let u = c as u32;
    (9 <= u && u <= 13) || u == 32 || u == 0x85 || u == 0xA0 || u == 0x1680 || (0x2000 <= u && u
        <= 0x200A) || u == 0x2028 || u == 0x2029 || u == 0x202F || u == 0x205F || u == 0x3000
}

/// `s` without its leading whitespace.
pub open spec fn trim_start(s: Seq<char>) -> Seq<char>
    decreases s.len(),
{
    if s.len() > 0 && is_ws(s[0]) {
        trim_start(s.drop_first())
    } else {
        s
    }
}

/// `s` without its trailing whitespace.
pub open spec fn trim_end(s: Seq<char>) -> Seq<char>
    decreases s.len(),
{
    if s.len() > 0 && is_ws(s.last()) {
        trim_end(s.drop_last())
    } else {
        s
    }
}

/// `s` without leading and trailing whitespace (`str::trim`).
pub open spec fn trim(s: Seq<char>) -> Seq<char> {
    trim_end(trim_start(s))
}

/// Number of leading characters of `s` that are not whitespace.
pub open spec fn word_len(s: Seq<char>) -> nat
    decreases s.len(),
{
    if s.len() > 0 && !is_ws(s[0]) {
        1 + word_len(s.drop_first())
    } else {
        0
    }
}

/// The whitespace-separated words of `s` (`str::split_whitespace`).
pub open spec fn words(s: Seq<char>) -> Seq<Seq<char>>
    decreases s.len(),
{
    let t = trim_start(s);
    if t.len() == 0 {
        seq![]
    } else {
        let k = word_len(t);
        proof {
            lemma_trim_start_len(s);
            lemma_word_len_pos(t);
        }
        seq![t.take(k as int)] + words(t.skip(k as int))
    }
}

/// Number of leading characters of `s` before the first line feed.
pub open spec fn line_len(s: Seq<char>) -> nat
    decreases s.len(),
{
    if s.len() > 0 && s[0] != '\n' {
        1 + line_len(s.drop_first())
    } else {
        0
    }
}

/// The lines of `s`, split at line feeds; a final line feed ends the last
/// line and does not start an empty one (`str::lines`, before trimming).
pub open spec fn raw_lines(s: Seq<char>) -> Seq<Seq<char>>
    decreases s.len(),
{
    if s.len() == 0 {
        seq![]
    } else {
        let k = line_len(s);
        proof {
            lemma_line_len_bound(s);
        }
        if k < s.len() {
            seq![s.take(k as int)] + raw_lines(s.skip((k + 1) as int))
        } else {
            seq![s]
        }
    }
}

/// The lines of `s`, each trimmed.
pub open spec fn trimmed_lines(s: Seq<char>) -> Seq<Seq<char>> {
    raw_lines(s).map_values(|l: Seq<char>| trim(l))
}

pub proof fn lemma_trim_start_len(s: Seq<char>)
    ensures
        trim_start(s).len() <= s.len(),
        trim_start(s).len() == 0 || !is_ws(trim_start(s)[0]),
    decreases s.len(),
{
    if s.len() > 0 && is_ws(s[0]) {
        lemma_trim_start_len(s.drop_first());
    }
}

pub proof fn lemma_word_len_pos(t: Seq<char>)
    requires
        t.len() > 0,
        !is_ws(t[0]),
    ensures
        0 < word_len(t) <= t.len(),
{
    lemma_word_len_bound(t);
}

pub proof fn lemma_word_len_bound(t: Seq<char>)
    ensures
        word_len(t) <= t.len(),
    decreases t.len(),
{
    if t.len() > 0 && !is_ws(t[0]) {
        lemma_word_len_bound(t.drop_first());
    }
}

pub proof fn lemma_line_len_bound(s: Seq<char>)
    ensures
        line_len(s) <= s.len(),
        line_len(s) < s.len() ==> s[line_len(s) as int] == '\n',
        forall|i: int| 0 <= i < line_len(s) ==> s[i] != '\n',
    decreases s.len(),
{
    if s.len() > 0 && s[0] != '\n' {
        lemma_line_len_bound(s.drop_first());
        assert forall|i: int| 0 <= i < line_len(s) implies s[i] != '\n' by {
            if i > 0 {
                assert(s[i] == s.drop_first()[i - 1]);
            }
        }
    }
}

/// Skipping `a` leading whitespace characters, followed by a non-whitespace
/// character or the end, is trimming the start.
pub proof fn lemma_trim_start_at(s: Seq<char>, a: int)
    requires
        0 <= a <= s.len(),
        forall|i: int| 0 <= i < a ==> is_ws(#[trigger] s[i]),
        a == s.len() || !is_ws(s[a]),
    ensures
        trim_start(s) == s.skip(a),
    decreases a,
{
    if a == 0 {
        assert(s.skip(0) =~= s);
    } else {
        let t = s.drop_first();
        assert forall|i: int| 0 <= i < a - 1 implies is_ws(#[trigger] t[i]) by {
            assert(t[i] == s[i + 1]);
        }
        if a - 1 < t.len() {
            assert(t[a - 1] == s[a]);
        }
        lemma_trim_start_at(t, a - 1);
        assert(t.skip(a - 1) =~= s.skip(a));
    }
}

/// Dropping trailing whitespace down to length `b` is trimming the end.
pub proof fn lemma_trim_end_at(s: Seq<char>, b: int)
    requires
        0 <= b <= s.len(),
        forall|i: int| b <= i < s.len() ==> is_ws(#[trigger] s[i]),
        b == 0 || !is_ws(s[b - 1]),
    ensures
        trim_end(s) == s.take(b),
    decreases s.len() - b,
{
    if b == s.len() {
        assert(s.take(b) =~= s);
    } else {
        let t = s.drop_last();
        assert forall|i: int| b <= i < t.len() implies is_ws(#[trigger] t[i]) by {
            assert(t[i] == s[i]);
        }
        if b > 0 {
            assert(t[b - 1] == s[b - 1]);
        }
        lemma_trim_end_at(t, b);
        assert(t.take(b) =~= s.take(b));
    }
}

/// A word of `k` non-whitespace characters ending at whitespace or the end.
pub proof fn lemma_word_len_at(s: Seq<char>, k: int)
    requires
        0 <= k <= s.len(),
        forall|i: int| 0 <= i < k ==> !is_ws(#[trigger] s[i]),
        k == s.len() || is_ws(s[k]),
    ensures
        word_len(s) == k,
    decreases k,
{
    if k > 0 {
        let t = s.drop_first();
        assert forall|i: int| 0 <= i < k - 1 implies !is_ws(#[trigger] t[i]) by {
            assert(t[i] == s[i + 1]);
        }
        if k - 1 < t.len() {
            assert(t[k - 1] == s[k]);
        }
        lemma_word_len_at(t, k - 1);
    }
}

/// A line of `k` characters ending at a line feed or the end.
pub proof fn lemma_line_len_at(s: Seq<char>, k: int)
    requires
        0 <= k <= s.len(),
        forall|i: int| 0 <= i < k ==> #[trigger] s[i] != '\n',
        k == s.len() || s[k] == '\n',
    ensures
        line_len(s) == k,
    decreases k,
{
    if k > 0 {
        let t = s.drop_first();
        assert forall|i: int| 0 <= i < k - 1 implies #[trigger] t[i] != '\n' by {
            assert(t[i] == s[i + 1]);
        }
        if k - 1 < t.len() {
            assert(t[k - 1] == s[k]);
        }
        lemma_line_len_at(t, k - 1);
    }
}

/// A nonempty run of characters without whitespace: one token.
pub open spec fn is_token(s: Seq<char>) -> bool {
    s.len() > 0 && forall|i: int| 0 <= i < s.len() ==> !is_ws(#[trigger] s[i])
}

/// `a`, one space, then `b`.
pub open spec fn spaced(a: Seq<char>, b: Seq<char>) -> Seq<char> {
    a + seq![' '] + b
}

/// A single token is its only word.
pub proof fn lemma_words_token(z: Seq<char>)
    requires
        is_token(z),
    ensures
        words(z) == seq![z],
{
    lemma_trim_start_at(z, 0);
    lemma_word_len_at(z, z.len() as int);
    assert(z.take(z.len() as int) =~= z);
    let e = z.skip(z.len() as int);
    assert(e =~= Seq::<char>::empty());
    assert(trim_start(e) =~= e);
    assert(words(e) =~= Seq::<Seq<char>>::empty());
    assert(words(z) =~= seq![z]);
}

/// The words of a token, a space and more text are the token followed by the
/// words of the rest.
pub proof fn lemma_words_spaced(a: Seq<char>, rest: Seq<char>)
    requires
        is_token(a),
    ensures
        words(spaced(a, rest)) == seq![a] + words(rest),
{
    let s = spaced(a, rest);
    let k = a.len() as int;
    assert(s[0] == a[0]);
    lemma_trim_start_at(s, 0);
    assert forall|i: int| 0 <= i < k implies !is_ws(#[trigger] s[i]) by {
        assert(s[i] == a[i]);
    }
    assert(s[k] == ' ');
    assert((' ' as u32) == 32);
    lemma_word_len_at(s, k);
    assert(s.take(k) =~= a);
    let sp = s.skip(k);
    assert(sp =~= seq![' '] + rest);
    assert(sp[0] == ' ');
    assert(sp.drop_first() =~= rest);
    assert(trim_start(sp) == trim_start(rest));
    assert(words(sp) == words(rest));
    assert(words(s) == seq![s.take(k)] + words(sp));
}

/// The text of the lines `ls`, each followed by a line feed.
pub open spec fn lines_text(ls: Seq<Seq<char>>) -> Seq<char>
    decreases ls.len(),
{
    if ls.len() == 0 {
        seq![]
    } else {
        ls[0] + seq!['\n'] + lines_text(ls.drop_first())
    }
}

/// Lines without line feeds, written one per line, are read back as the same lines.
pub proof fn lemma_raw_lines_text(ls: Seq<Seq<char>>)
    requires
        forall|k: int, i: int| 0 <= k < ls.len() && 0 <= i < ls[k].len() ==> #[trigger] ls[k][i] != '\n',
    ensures
        raw_lines(lines_text(ls)) == ls,
    decreases ls.len(),
{
    if ls.len() == 0 {
        assert(raw_lines(lines_text(ls)) =~= ls);
    } else {
        let a = ls[0];
        let rest = ls.drop_first();
        assert forall|k: int, i: int| 0 <= k < rest.len() && 0 <= i < rest[k].len() implies #[trigger] rest[k][i] != '\n' by {
            assert(rest[k] == ls[k + 1]);
        }
        lemma_raw_lines_text(rest);
        let s = lines_text(ls);
        assert(s == a + seq!['\n'] + lines_text(rest));
        assert forall|i: int| 0 <= i < a.len() implies #[trigger] s[i] != '\n' by {
            assert(s[i] == a[i]);
            assert(ls[0][i] != '\n');
        }
        assert(s[a.len() as int] == '\n');
        lemma_line_len_at(s, a.len() as int);
        assert(s.take(a.len() as int) =~= a);
        assert(s.skip(a.len() as int + 1) =~= lines_text(rest));
        assert(raw_lines(s) =~= seq![a] + rest);
        assert(seq![a] + rest =~= ls);
    }
}

/// A line that starts and ends with a non-whitespace character is its own trim.
pub proof fn lemma_trim_of_trimmed(l: Seq<char>)
    requires
        l.len() > 0,
        !is_ws(l[0]),
        !is_ws(l[l.len() - 1]),
    ensures
        trim(l) == l,
{
    lemma_trim_start_at(l, 0);
    assert(l.skip(0) =~= l);
    lemma_trim_end_at(l, l.len() as int);
    assert(l.take(l.len() as int) =~= l);
}

/// The characters of a string slice, in order.
pub fn chars_of(s: &str) -> (v: Vec<char>)
    ensures
        v@ == s@,
{
    let mut v: Vec<char> = Vec::new();
    for c in it: s.chars()
        invariant
            v@ == it.seq().take(it.index() as int),
            it.seq() == s@,
    {
        v.push(c);
    }
    v
}

/// A copy of `s[a..b]`.
pub fn copy_range(s: &Vec<char>, a: usize, b: usize) -> (r: Vec<char>)
    requires
        a <= b <= s.len(),
    ensures
        r@ == s@.subrange(a as int, b as int),
{
    let mut r: Vec<char> = Vec::new();
    let mut i = a;
    while i < b
        invariant
            a <= i <= b <= s.len(),
            r@ == s@.subrange(a as int, i as int),
        decreases b - i,
    {
        r.push(s[i]);
        i += 1;
    }
    r
}

/// `s` without leading and trailing whitespace.
pub fn trim_chars(s: &Vec<char>) -> (r: Vec<char>)
    ensures
        r@ == trim(s@),
{
    let n = s.len();
    let mut a: usize = 0;
    while a < n && is_whitespace_char(s[a])
        invariant
            a <= n == s.len(),
            forall|i: int| 0 <= i < a ==> is_ws(#[trigger] s@[i]),
        decreases n - a,
    {
        a += 1;
    }
    proof {
        lemma_trim_start_at(s@, a as int);
    }
    let mut b: usize = n;
    while b > a && is_whitespace_char(s[b - 1])
        invariant
            a <= b <= n == s.len(),
            forall|i: int| b <= i < n ==> is_ws(#[trigger] s@[i]),
        decreases b - a,
    {
        b -= 1;
    }
    proof {
        let t = s@.skip(a as int);
        assert forall|i: int| b - a <= i < t.len() implies is_ws(#[trigger] t[i]) by {
            assert(t[i] == s@[i + a]);
        }
        if b > a {
            assert(t[b - a - 1] == s@[b - 1]);
        }
        lemma_trim_end_at(t, b - a);
        assert(t.take(b - a) =~= s@.subrange(a as int, b as int));
    }
    copy_range(s, a, b)
}

/// The whitespace-separated words of `s`.
pub fn split_words(s: &Vec<char>) -> (r: Vec<Vec<char>>)
    ensures
        r@.map_values(|w: Vec<char>| w@) == words(s@),
{
    let n = s.len();
    let mut r: Vec<Vec<char>> = Vec::new();
    let mut i: usize = 0;
    proof {
        assert(s@.skip(0) =~= s@);
        assert(r@.map_values(|w: Vec<char>| w@) =~= seq![]);
        assert(seq![] + words(s@) =~= words(s@));
    }
    while i < n
        invariant
            i <= n == s.len(),
            words(s@) == r@.map_values(|w: Vec<char>| w@) + words(s@.skip(i as int)),
        decreases n - i,
    {
        let ghost rest = s@.skip(i as int);
        let mut j = i;
        while j < n && is_whitespace_char(s[j])
            invariant
                i <= j <= n == s.len(),
                forall|x: int| i <= x < j ==> is_ws(#[trigger] s@[x]),
            decreases n - j,
        {
            j += 1;
        }
        proof {
            assert forall|x: int| 0 <= x < j - i implies is_ws(#[trigger] rest[x]) by {
                assert(rest[x] == s@[x + i]);
            }
            if j < n {
                assert(rest[j - i] == s@[j as int]);
            }
            lemma_trim_start_at(rest, j - i);
            assert(rest.skip(j - i) =~= s@.skip(j as int));
        }
        if j == n {
            proof {
                assert(words(rest) =~= seq![]);
                assert(r@.map_values(|w: Vec<char>| w@) + seq![] =~= r@.map_values(
                    |w: Vec<char>| w@,
                ));
                assert(s@.skip(n as int) =~= seq![]);
                assert(words(seq![]) =~= seq![]);
            }
            i = n;
        } else {
            let mut k = j;
            while k < n && !is_whitespace_char(s[k])
                invariant
                    j <= k <= n == s.len(),
                    forall|x: int| j <= x < k ==> !is_ws(#[trigger] s@[x]),
                decreases n - k,
            {
                k += 1;
            }
            let w = copy_range(s, j, k);
            proof {
                let t = s@.skip(j as int);
                assert forall|x: int| 0 <= x < k - j implies !is_ws(#[trigger] t[x]) by {
                    assert(t[x] == s@[x + j]);
                }
                if k < n {
                    assert(t[k - j] == s@[k as int]);
                }
                lemma_word_len_at(t, k - j);
                assert(t.take(k - j) =~= w@);
                assert(t.skip(k - j) =~= s@.skip(k as int));
                assert(words(rest) == seq![w@] + words(s@.skip(k as int)));
            }
            let ghost old_r = r@;
            r.push(w);
            proof {
                assert(r@.map_values(|v: Vec<char>| v@) =~= old_r.map_values(|v: Vec<char>| v@)
                    + seq![w@]);
            }
            i = k;
        }
    }
    proof {
        assert(s@.skip(n as int) =~= seq![]);
        assert(words(seq![]) =~= seq![]);
        assert(r@.map_values(|w: Vec<char>| w@) + seq![] =~= r@.map_values(|w: Vec<char>| w@));
    }
    r
}

/// The trimmed lines of `s`.
pub fn split_trimmed_lines(s: &Vec<char>) -> (r: Vec<Vec<char>>)
    ensures
        r@.map_values(|l: Vec<char>| l@) == trimmed_lines(s@),
{
    let n = s.len();
    let mut r: Vec<Vec<char>> = Vec::new();
    let mut i: usize = 0;
    proof {
        assert(s@.skip(0) =~= s@);
        assert(r@.map_values(|l: Vec<char>| l@) =~= seq![]);
        let m = raw_lines(s@).map_values(|l: Seq<char>| trim(l));
        assert(seq![] + m =~= m);
    }
    while i < n
        invariant
            i <= n == s.len(),
            raw_lines(s@).map_values(|l: Seq<char>| trim(l)) == r@.map_values(|l: Vec<char>| l@)
                + raw_lines(s@.skip(i as int)).map_values(|l: Seq<char>| trim(l)),
        decreases n - i,
    {
        let ghost rest = s@.skip(i as int);
        let mut k = i;
        while k < n && s[k] != '\n'
            invariant
                i <= k <= n == s.len(),
                forall|x: int| i <= x < k ==> #[trigger] s@[x] != '\n',
            decreases n - k,
        {
            k += 1;
        }
        let raw = copy_range(s, i, k);
        let line = trim_chars(&raw);
        proof {
            assert forall|x: int| 0 <= x < k - i implies #[trigger] rest[x] != '\n' by {
                assert(rest[x] == s@[x + i]);
            }
            if k < n {
                assert(rest[k - i] == s@[k as int]);
            }
            lemma_line_len_at(rest, k - i);
            assert(rest.take(k - i) =~= raw@);
            if k < n {
                assert(rest.skip(k - i + 1) =~= s@.skip(k + 1));
                assert(raw_lines(rest) == seq![raw@] + raw_lines(s@.skip(k + 1)));
            } else {
                assert(rest =~= raw@);
                assert(raw_lines(rest) == seq![raw@]);
            }
        }
        let ghost old_r = r@;
        r.push(line);
        proof {
            assert(r@.map_values(|v: Vec<char>| v@) =~= old_r.map_values(|v: Vec<char>| v@)
                + seq![line@]);
            if k < n {
                let tail = raw_lines(s@.skip(k + 1));
                assert((seq![raw@] + tail).map_values(|l: Seq<char>| trim(l)) =~= seq![trim(raw@)]
                    + tail.map_values(|l: Seq<char>| trim(l)));
            } else {
                assert(seq![raw@].map_values(|l: Seq<char>| trim(l)) =~= seq![trim(raw@)]);
                assert(s@.skip(n as int) =~= seq![]);
                assert(raw_lines(seq![]) =~= seq![]);
            }
        }
        if k < n {
            i = k + 1;
        } else {
            i = n;
        }
    }
    proof {
        assert(s@.skip(n as int) =~= seq![]);
        assert(raw_lines(seq![]) =~= seq![]);
        let e = raw_lines(seq![]).map_values(|l: Seq<char>| trim(l));
        assert(e =~= seq![]);
        assert(r@.map_values(|l: Vec<char>| l@) + e =~= r@.map_values(|l: Vec<char>| l@));
    }
    r
}


// ---------------------------------------------------------------------------
// Decimal integers
// ---------------------------------------------------------------------------

/// An ASCII decimal digit.
pub open spec fn is_digit(c: char) -> bool {
    48 <= (c as u32) && (c as u32) <= 57
}

/// Whether every character of `s` is a decimal digit.
pub open spec fn all_digits(s: Seq<char>) -> bool {
    forall|i: int| 0 <= i < s.len() ==> is_digit(#[trigger] s[i])
}

/// The value of a digit character.
pub open spec fn digit_value(c: char) -> nat {
    ((c as u32) - 48) as nat
}

/// The value of a string of decimal digits.
pub open spec fn digits_value(s: Seq<char>) -> nat
    decreases s.len(),
{
    if s.len() == 0 {
        0
    } else {
        digits_value(s.drop_last()) * 10 + digit_value(s.last())
    }
}

/// The magnitude of an unsigned number written as `s`: an optional `+`
/// followed by one or more digits, at most `max` (`FromStr` for unsigned types).
pub open spec fn parse_unsigned(s: Seq<char>, max: nat) -> Option<nat> {
    let d = if s.len() > 0 && s[0] == '+' {
        s.drop_first()
    } else {
        s
    };
    if d.len() > 0 && all_digits(d) && digits_value(d) <= max {
        Some(digits_value(d))
    } else {
        None
    }
}

/// `s` read as a `usize`.
pub open spec fn parse_usize(s: Seq<char>) -> Option<usize> {
    match parse_unsigned(s, usize::MAX as nat) {
        Some(v) => Some(v as usize),
        None => None,
    }
}

/// `s` read as a `u32`.
pub open spec fn parse_u32(s: Seq<char>) -> Option<u32> {
    match parse_unsigned(s, u32::MAX as nat) {
        Some(v) => Some(v as u32),
        None => None,
    }
}

/// `s` read as an `i32`: an optional sign followed by one or more digits.
pub open spec fn parse_i32(s: Seq<char>) -> Option<i32> {
    if s.len() > 0 && s[0] == '-' {
        let d = s.drop_first();
        if d.len() > 0 && all_digits(d) && digits_value(d) <= 0x8000_0000 {
            Some((0 - digits_value(d)) as i32)
        } else {
            None
        }
    } else {
        match parse_unsigned(s, 0x7fff_ffff) {
            Some(v) => Some(v as i32),
            None => None,
        }
    }
}

/// Appending a digit to a string of digits does not make its value smaller.
pub proof fn lemma_digits_value_grows(s: Seq<char>, k: int)
    requires
        0 <= k <= s.len(),
    ensures
        digits_value(s.take(k)) <= digits_value(s),
    decreases s.len() - k,
{
    if k < s.len() {
        lemma_digits_value_grows(s.drop_last(), k);
        assert(s.drop_last().take(k) =~= s.take(k));
    } else {
        assert(s.take(k) =~= s);
    }
}

/// The value of the digits `s[start..]`, when they are all digits, there is at
/// least one, and the value is at most `max`.
fn digits_at_most(s: &Vec<char>, start: usize, max: u64) -> (r: Option<u64>)
    requires
        start <= s.len(),
    ensures
        ({
            let d = s@.skip(start as int);
            &&& r is Some <==> (d.len() > 0 && all_digits(d) && digits_value(d) <= max)
            &&& r matches Some(v) ==> v == digits_value(d)
        }),
{
    let ghost d = s@.skip(start as int);
    let n = s.len();
    if start == n {
        return None;
    }
    let mut acc: u64 = 0;
    let mut i = start;
    proof {
        assert(d.take(0) =~= seq![]);
    }
    while i < n
        invariant
            start <= i <= n == s.len(),
            d == s@.skip(start as int),
            acc == digits_value(d.take(i - start)),
            acc <= max,
            all_digits(d.take(i - start)),
        decreases n - i,
    {
        let c = s[i];
        let u = c as u32;
        if u < 48 || u > 57 {
            proof {
                assert(d[i - start] == c);
            }
            return None;
        }
        let dv = (u - 48) as u64;
        let next: u128 = (acc as u128) * 10 + (dv as u128);
        proof {
            assert(d.take(i - start + 1).drop_last() =~= d.take(i - start));
            assert(d.take(i - start + 1).last() == c);
            assert(digits_value(d.take(i - start + 1)) == next);
        }
        if next > max as u128 {
            proof {
                lemma_digits_value_grows(d, i - start + 1);
            }
            return None;
        }
        acc = next as u64;
        proof {
            assert forall|x: int| 0 <= x < i - start + 1 implies is_digit(
                #[trigger] d.take(i - start + 1)[x],
            ) by {
                if x < i - start {
                    assert(d.take(i - start + 1)[x] == d.take(i - start)[x]);
                }
            }
        }
        i += 1;
    }
    proof {
        assert(d.take(n - start) =~= d);
    }
    Some(acc)
}

/// `s` read as a `usize`.
pub fn parse_usize_chars(s: &Vec<char>) -> (r: Option<usize>)
    ensures
        r == parse_usize(s@),
{
    let start: usize = if s.len() > 0 && s[0] == '+' {
        1
    } else {
        0
    };
    proof {
        if start == 1 {
            assert(s@.skip(1) =~= s@.drop_first());
        } else {
            assert(s@.skip(0) =~= s@);
        }
    }
    match digits_at_most(s, start, usize::MAX as u64) {
        Some(v) => Some(v as usize),
        None => None,
    }
}

/// `s` read as a `u32`.
pub fn parse_u32_chars(s: &Vec<char>) -> (r: Option<u32>)
    ensures
        r == parse_u32(s@),
{
    let start: usize = if s.len() > 0 && s[0] == '+' {
        1
    } else {
        0
    };
    proof {
        if start == 1 {
            assert(s@.skip(1) =~= s@.drop_first());
        } else {
            assert(s@.skip(0) =~= s@);
        }
    }
    match digits_at_most(s, start, u32::MAX as u64) {
        Some(v) => Some(v as u32),
        None => None,
    }
}

/// `s` read as an `i32`.
pub fn parse_i32_chars(s: &Vec<char>) -> (r: Option<i32>)
    ensures
        r == parse_i32(s@),
{
    if s.len() > 0 && s[0] == '-' {
        proof {
            assert(s@.skip(1) =~= s@.drop_first());
        }
        match digits_at_most(s, 1, 0x8000_0000) {
            Some(v) => {
                let neg: i64 = 0 - (v as i64);
                Some(neg as i32)
            },
            None => None,
        }
    } else {
        let start: usize = if s.len() > 0 && s[0] == '+' {
            1
        } else {
            0
        };
        proof {
            if start == 1 {
                assert(s@.skip(1) =~= s@.drop_first());
            } else {
                assert(s@.skip(0) =~= s@);
            }
        }
        match digits_at_most(s, start, 0x7fff_ffff) {
            Some(v) => Some(v as i32),
            None => None,
        }
    }
}

/// The character of a decimal digit.
pub open spec fn digit_char(d: nat) -> char {
    ((48 + d) as u8) as char
}

/// The decimal numeral of `n`.
pub open spec fn nat_decimal(n: nat) -> Seq<char>
    decreases n,
{
    if n < 10 {
        seq![digit_char(n)]
    } else {
        nat_decimal(n / 10).push(digit_char(n % 10))
    }
}

/// The decimal numeral of an `i32`, as `Display` writes it.
pub open spec fn i32_decimal(x: i32) -> Seq<char> {
    if x < 0 {
        seq!['-'] + nat_decimal((0 - x) as nat)
    } else {
        nat_decimal(x as nat)
    }
}

proof fn lemma_digit_char(d: nat)
    requires
        d < 10,
    ensures
        is_digit(digit_char(d)),
        digit_value(digit_char(d)) == d,
{
    let c = digit_char(d);
    assert(((48 + d) as u8) as u32 == 48 + d);
    assert(c as u32 == 48 + d);
}

/// The decimal numeral of `n` is a nonempty string of digits whose base-ten
/// value is `n`.
pub proof fn lemma_nat_decimal_value(n: nat)
    ensures
        nat_decimal(n).len() > 0,
        all_digits(nat_decimal(n)),
        digits_value(nat_decimal(n)) == n,
    decreases n,
{
    if n < 10 {
        lemma_digit_char(n);
        let s = nat_decimal(n);
        assert(s.drop_last() =~= seq![]);
        assert(digits_value(s.drop_last()) == 0);
    } else {
        lemma_nat_decimal_value(n / 10);
        lemma_digit_char(n % 10);
        let s = nat_decimal(n);
        assert(s.drop_last() =~= nat_decimal(n / 10));
        assert forall|i: int| 0 <= i < s.len() implies is_digit(#[trigger] s[i]) by {
            if i < s.len() - 1 {
                assert(s[i] == nat_decimal(n / 10)[i]);
            }
        }
        assert(n == (n / 10) * 10 + n % 10);
    }
}

/// Reading is the inverse of decimal printing: every `u32` (and every `usize`)
/// is read back from its decimal numeral.
pub proof fn lemma_parse_decimal(n: nat)
    ensures
        n <= u32::MAX ==> parse_u32(nat_decimal(n)) == Some(n as u32),
        n <= usize::MAX ==> parse_usize(nat_decimal(n)) == Some(n as usize),
{
    lemma_nat_decimal_value(n);
    let s = nat_decimal(n);
    assert(is_digit(s[0]));
    assert(s[0] != '+');
}

/// Every `i32` is read back from the numeral `Display` writes for it.
pub proof fn lemma_parse_i32_decimal(x: i32)
    ensures
        parse_i32(i32_decimal(x)) == Some(x),
{
    if x < 0 {
        let m = (0 - x) as nat;
        lemma_nat_decimal_value(m);
        let s = i32_decimal(x);
        assert(s.drop_first() =~= nat_decimal(m));
        assert(s[0] == '-');
    } else {
        lemma_nat_decimal_value(x as nat);
        let s = nat_decimal(x as nat);
        assert(is_digit(s[0]));
        assert(s[0] != '+');
        assert(s[0] != '-');
    }
}

fn push_decimal(n: u64, out: &mut Vec<char>)
    ensures
        final(out)@ == old(out)@ + nat_decimal(n as nat),
    decreases n,
{
    if n >= 10 {
        push_decimal(n / 10, out);
    }
    let d = (n % 10) as u8;
    out.push((48u8 + d) as char);
    proof {
        if n < 10 {
            assert(n % 10 == n);
        }
    }
}

/// Appends the decimal numeral of `x` to `out`.
pub fn push_i32_decimal(x: i32, out: &mut Vec<char>)
    ensures
        final(out)@ == old(out)@ + i32_decimal(x),
{
    if x < 0 {
        out.push('-');
        let m: i64 = 0 - (x as i64);
        push_decimal(m as u64, out);
        proof {
            assert(old(out)@.push('-') + nat_decimal((0 - x) as nat) =~= old(out)@ + (seq!['-']
                + nat_decimal((0 - x) as nat)));
        }
    } else {
        push_decimal(x as u64, out);
    }
}

/// A `String` holding the characters `s`.
///
/// Calls `String::from_iter` over the characters; trusted to keep them in order.
#[verifier::external_body]
pub(crate) fn string_from_chars(s: &[char]) -> (r: String)
    ensures
        r@ == s@,
{
    String::from_iter(s.iter())
}

} // verus!
