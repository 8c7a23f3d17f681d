//! Character-level helpers shared by the whole library: the std string
//! functions the logic relies on, and verified scanning utilities over
//! sequences of chars.
use vstd::prelude::*;

verus! {

/// What `char::to_lowercase` yields for a non-ASCII char `c` (a function of
/// `c` alone, fixed by the Unicode tables that std ships).
pub uninterp spec fn char_lowercase(c: char) -> Seq<char>;

/// Whether `char::is_alphanumeric` holds of a non-ASCII char `c` (Unicode
/// Alphabetic or Numeric).
pub uninterp spec fn char_is_alphanumeric(c: char) -> bool;

pub open spec fn is_ascii_char(c: char) -> bool {
    (c as u32) < 128
}

pub open spec fn is_ascii_upper(c: char) -> bool {
    'A' <= c && c <= 'Z'
}

pub open spec fn is_ascii_alphanumeric(c: char) -> bool {
    ||| ('a' <= c && c <= 'z')
    ||| ('A' <= c && c <= 'Z')
    ||| ('0' <= c && c <= '9')
}

pub open spec fn ascii_lower(c: char) -> char {
    if is_ascii_upper(c) {
        ((c as u32) + 32) as char
    } else {
        c
    }
}

/// What `char::to_lowercase` yields for `c`: for an ASCII char the single
/// ASCII lowercase char (upper-case letters move down by 32, every other
/// ASCII char stays), else the Unicode lowercase mapping.
pub open spec fn lowercase_of(c: char) -> Seq<char> {
    if is_ascii_char(c) {
        seq![ascii_lower(c)]
    } else {
        char_lowercase(c)
    }
}

/// Whether `char::is_alphanumeric` holds of `c`: for an ASCII char exactly the
/// ASCII letters and digits, else the Unicode Alphabetic or Numeric property.
pub open spec fn is_alnum(c: char) -> bool {
    if is_ascii_char(c) {
        is_ascii_alphanumeric(c)
    } else {
        char_is_alphanumeric(c)
    }
}

/// Each char of `s` lowercased the ASCII way.
pub open spec fn ascii_lower_all(s: Seq<char>) -> Seq<char> {
    s.map_values(|c: char| ascii_lower(c))
}

/// Calls `char::to_lowercase` and collects the chars it yields.
/// Claimed of std: the result is the lowercase mapping of `c` (the ASCII
/// mapping for an ASCII char) and holds at least one char.
#[verifier::external_body]
pub(crate) fn lowercase_chars(c: char) -> (r: Vec<char>)
    ensures
        r@ == lowercase_of(c),
        !is_ascii_char(c) ==> r@ == char_lowercase(c),
        r@.len() >= 1,
{
    c.to_lowercase().collect()
}

/// Calls `char::is_alphanumeric`.
/// Claimed of std: the result is the Unicode Alphabetic-or-Numeric property,
/// which holds of an ASCII char exactly when it is a letter or a digit.
#[verifier::external_body]
pub(crate) fn is_alphanumeric(c: char) -> (b: bool)
    ensures
        b == is_alnum(c),
        !is_ascii_char(c) ==> b == char_is_alphanumeric(c),
{
    c.is_alphanumeric()
}

/// Collects the chars of `s` (`str::chars`).
/// Claimed of std: the vector holds exactly the chars of the string, in order.
#[verifier::external_body]
pub(crate) fn chars_of(s: &str) -> (r: Vec<char>)
    ensures
        r@ == s@,
{
    s.chars().collect()
}

/// Builds a `String` from chars (`String: FromIterator<char>`).
/// Claimed of std: the string holds exactly these chars, in order.
#[verifier::external_body]
pub(crate) fn string_of(v: &Vec<char>) -> (r: String)
    ensures
        r@ == v@,
{
    v.iter().collect()
}

/// Unicode White_Space, the set `char::is_whitespace` and `str::trim` use.
pub open spec fn is_white_space(c: char) -> bool {
    let u = c as u32;
    ||| (0x09 <= u && u <= 0x0D)
    ||| u == 0x20
    ||| u == 0x85
    ||| u == 0xA0
    ||| u == 0x1680
    ||| (0x2000 <= u && u <= 0x200A)
    ||| u == 0x2028
    ||| u == 0x2029
    ||| u == 0x202F
    ||| u == 0x205F
    ||| u == 0x3000
}

pub fn is_whitespace(c: char) -> (b: bool)
    ensures
        b == is_white_space(c),
{
    let u = c as u32;
    (0x09 <= u && u <= 0x0D) || u == 0x20 || u == 0x85 || u == 0xA0 || u == 0x1680 || (0x2000
        <= u && u <= 0x200A) || u == 0x2028 || u == 0x2029 || u == 0x202F || u == 0x205F || u
        == 0x3000
}

/// `s` with every leading `c` removed.
pub open spec fn trim_start_char(s: Seq<char>, c: char) -> Seq<char>
    decreases s.len(),
{
    if s.len() > 0 && s[0] == c {
        trim_start_char(s.drop_first(), c)
    } else {
        s
    }
}

/// `s` with every trailing `c` removed.
pub open spec fn trim_end_char(s: Seq<char>, c: char) -> Seq<char>
    decreases s.len(),
{
    if s.len() > 0 && s.last() == c {
        trim_end_char(s.drop_last(), c)
    } else {
        s
    }
}

/// `str::trim_matches(c)` for a single char.
pub open spec fn trim_char(s: Seq<char>, c: char) -> Seq<char> {
    trim_end_char(trim_start_char(s, c), c)
}

pub proof fn lemma_trim_start_char_skip(s: Seq<char>, c: char, k: int)
    requires
        0 <= k <= s.len(),
        forall|i: int| 0 <= i < k ==> s[i] == c,
    ensures
        trim_start_char(s, c) == trim_start_char(s.skip(k), c),
    decreases k,
{
    if k > 0 {
        assert(s.skip(1) == s.drop_first());
        lemma_trim_start_char_skip(s.drop_first(), c, k - 1);
        assert(s.drop_first().skip(k - 1) == s.skip(k));
    } else {
        assert(s.skip(0) == s);
    }
}

pub proof fn lemma_trim_end_char_take(s: Seq<char>, c: char, k: int)
    requires
        0 <= k <= s.len(),
        forall|i: int| k <= i < s.len() ==> s[i] == c,
    ensures
        trim_end_char(s, c) == trim_end_char(s.take(k), c),
    decreases s.len() - k,
{
    if k < s.len() {
        lemma_trim_end_char_take(s.drop_last(), c, k);
        assert(s.drop_last().take(k) == s.take(k));
    } else {
        assert(s.take(k) == s);
    }
}

/// Removes every leading and trailing `c` (`str::trim_matches` with a char).
pub fn trim_matching(v: &Vec<char>, c: char) -> (r: Vec<char>)
    ensures
        r@ == trim_char(v@, c),
        exists|a: int, b: int| 0 <= a <= b <= v@.len() && r@ == v@.subrange(a, b),
        r@.len() > 0 ==> r@[0] != c && r@.last() != c,
{
    let n = v.len();
    let mut a: usize = 0;
    while a < n && v[a] == c
        invariant
            n == v.len(),
            a <= n,
            forall|i: int| 0 <= i < a ==> v@[i] == c,
        decreases n - a,
    {
        a += 1;
    }
    proof {
        lemma_trim_start_char_skip(v@, c, a as int);
    }
    let mut b: usize = n;
    while b > a && v[b - 1] == c
        invariant
            n == v.len(),
            a <= b <= n,
            forall|i: int| b <= i < n ==> v@[i] == c,
        decreases b,
    {
        b -= 1;
    }
    let ghost rest = v@.skip(a as int);
    proof {
        if a < n {
            assert(v@[a as int] != c);
            assert(rest[0] == v@[a as int]);
            assert(trim_start_char(rest, c) == rest);
        } else {
            assert(rest.len() == 0);
        }
        assert forall|i: int| b - a <= i < rest.len() implies rest[i] == c by {
            assert(rest[i] == v@[i + a]);
        }
        lemma_trim_end_char_take(rest, c, b - a);
        let t = rest.take(b - a);
        if b > a {
            assert(t.last() == v@[b - 1]);
        }
        assert(trim_end_char(t, c) == t);
    }
    let mut r: Vec<char> = Vec::new();
    let mut k = a;
    while k < b
        invariant
            n == v.len(),
            a <= k <= b <= n,
            r@ == v@.subrange(a as int, k as int),
        decreases b - k,
    {
        r.push(v[k]);
        k += 1;
    }
    proof {
        assert(r@ == rest.take(b - a));
        if r@.len() > 0 {
            assert(r@[0] == v@[a as int]);
            assert(r@.last() == v@[b - 1]);
        }
    }
    r
}


/// `s` with leading White_Space removed (`str::trim_start`).
pub open spec fn trim_start_ws(s: Seq<char>) -> Seq<char>
    decreases s.len(),
{
    if s.len() > 0 && is_white_space(s[0]) {
        trim_start_ws(s.drop_first())
    } else {
        s
    }
}

/// `s` with trailing White_Space removed (`str::trim_end`).
pub open spec fn trim_end_ws(s: Seq<char>) -> Seq<char>
    decreases s.len(),
{
    if s.len() > 0 && is_white_space(s.last()) {
        trim_end_ws(s.drop_last())
    } else {
        s
    }
}

/// `str::trim`: White_Space removed at both ends.
pub open spec fn trim_ws(s: Seq<char>) -> Seq<char> {
    trim_end_ws(trim_start_ws(s))
}

pub proof fn lemma_trim_start_ws_skip(s: Seq<char>, k: int)
    requires
        0 <= k <= s.len(),
        forall|i: int| 0 <= i < k ==> is_white_space(#[trigger] s[i]),
    ensures
        trim_start_ws(s) == trim_start_ws(s.skip(k)),
    decreases k,
{
    if k > 0 {
        lemma_trim_start_ws_skip(s.drop_first(), k - 1);
        assert(s.drop_first().skip(k - 1) == s.skip(k));
    } else {
        assert(s.skip(0) == s);
    }
}

pub proof fn lemma_trim_end_ws_take(s: Seq<char>, k: int)
    requires
        0 <= k <= s.len(),
        forall|i: int| k <= i < s.len() ==> is_white_space(#[trigger] s[i]),
    ensures
        trim_end_ws(s) == trim_end_ws(s.take(k)),
    decreases s.len() - k,
{
    if k < s.len() {
        lemma_trim_end_ws_take(s.drop_last(), k);
        assert(s.drop_last().take(k) == s.take(k));
    } else {
        assert(s.take(k) == s);
    }
}

/// Index of the first char of `v[from..to]` that is not White_Space, or `to`.
fn skip_ws_forward(v: &Vec<char>, from: usize, to: usize) -> (a: usize)
    requires
        from <= to <= v.len(),
    ensures
        from <= a <= to,
        forall|i: int| from <= i < a ==> is_white_space(#[trigger] v@[i]),
        a < to ==> !is_white_space(v@[a as int]),
{
    let mut a = from;
    while a < to && is_whitespace(v[a])
        invariant
            from <= a <= to <= v.len(),
            forall|i: int| from <= i < a ==> is_white_space(#[trigger] v@[i]),
        decreases to - a,
    {
        a += 1;
    }
    a
}

/// Chars `v[from..to]` with White_Space removed at both ends: the bounds of
/// what is left.
pub fn trim_ws_bounds(v: &Vec<char>, from: usize, to: usize) -> (r: (usize, usize))
    requires
        from <= to <= v.len(),
    ensures
        from <= r.0 <= r.1 <= to,
        v@.subrange(r.0 as int, r.1 as int) == trim_ws(v@.subrange(from as int, to as int)),
{
    let a = skip_ws_forward(v, from, to);
    let mut b = to;
    while b > a && is_whitespace(v[b - 1])
        invariant
            from <= a <= b <= to <= v.len(),
            forall|i: int| b <= i < to ==> is_white_space(#[trigger] v@[i]),
        decreases b,
    {
        b -= 1;
    }
    proof {
        let s = v@.subrange(from as int, to as int);
        assert forall|i: int| 0 <= i < a - from implies is_white_space(#[trigger] s[i]) by {
            assert(s[i] == v@[from + i]);
        }
        lemma_trim_start_ws_skip(s, a - from);
        let rest = s.skip(a - from);
        assert(rest == v@.subrange(a as int, to as int));
        if a < to {
            assert(rest[0] == v@[a as int]);
        }
        assert(trim_start_ws(rest) == rest);
        assert forall|i: int| b - a <= i < rest.len() implies is_white_space(#[trigger] rest[i]) by {
            assert(rest[i] == v@[a + i]);
        }
        lemma_trim_end_ws_take(rest, b - a);
        let t = rest.take(b - a);
        assert(t == v@.subrange(a as int, b as int));
        if b > a {
            assert(t.last() == v@[b - 1]);
        }
        assert(trim_end_ws(t) == t);
    }
    (a, b)
}

/// The chars `v[from..to]`.
pub fn slice_chars(v: &Vec<char>, from: usize, to: usize) -> (r: Vec<char>)
    requires
        from <= to <= v.len(),
    ensures
        r@ == v@.subrange(from as int, to as int),
{
    let mut r: Vec<char> = Vec::new();
    let mut k = from;
    while k < to
        invariant
            from <= k <= to <= v.len(),
            r@ == v@.subrange(from as int, k as int),
        decreases to - k,
    {
        r.push(v[k]);
        k += 1;
    }
    r
}

/// `str::trim` on chars.
pub fn trim(v: &Vec<char>) -> (r: Vec<char>)
    ensures
        r@ == trim_ws(v@),
{
    let (a, b) = trim_ws_bounds(v, 0, v.len());
    proof {
        assert(v@.subrange(0, v@.len() as int) == v@);
    }
    slice_chars(v, a, b)
}

/// `str::trim_start` on chars.
pub fn trim_start(v: &Vec<char>) -> (r: Vec<char>)
    ensures
        r@ == trim_start_ws(v@),
{
    let a = skip_ws_forward(v, 0, v.len());
    proof {
        lemma_trim_start_ws_skip(v@, a as int);
        if a < v.len() {
            assert(v@.skip(a as int)[0] == v@[a as int]);
        }
        assert(trim_start_ws(v@.skip(a as int)) == v@.skip(a as int));
        assert(v@.skip(a as int) == v@.subrange(a as int, v@.len() as int));
    }
    slice_chars(v, a, v.len())
}

/// Appends the chars of `s` to `acc`.
pub fn push_all(acc: &mut Vec<char>, s: &Vec<char>)
    ensures
        final(acc)@ == old(acc)@ + s@,
{
    let mut k: usize = 0;
    while k < s.len()
        invariant
            k <= s.len(),
            acc@ == old(acc)@ + s@.take(k as int),
        decreases s.len() - k,
    {
        acc.push(s[k]);
        proof {
            assert(old(acc)@ + s@.take(k + 1) == (old(acc)@ + s@.take(k as int)).push(s@[k as int]));
        }
        k += 1;
    }
    proof {
        assert(s@.take(s@.len() as int) == s@);
    }
}

/// Appends the chars of a string slice to `acc`.
pub fn push_str(acc: &mut Vec<char>, s: &str)
    ensures
        final(acc)@ == old(acc)@ + s@,
{
    let cs = chars_of(s);
    push_all(acc, &cs);
}

/// `prefix` starts `s`.
pub open spec fn has_prefix(s: Seq<char>, prefix: Seq<char>) -> bool {
    prefix.len() <= s.len() && s.take(prefix.len() as int) == prefix
}

/// `suffix` ends `s`.
pub open spec fn has_suffix(s: Seq<char>, suffix: Seq<char>) -> bool {
    suffix.len() <= s.len() && s.skip(s.len() - suffix.len()) == suffix
}

/// Whether `pat` occurs in `s` at position `i`.
pub open spec fn occurs_at(s: Seq<char>, pat: Seq<char>, i: int) -> bool {
    0 <= i && i + pat.len() <= s.len() && s.subrange(i, i + pat.len()) == pat
}

pub fn matches_at(v: &Vec<char>, pat: &Vec<char>, i: usize) -> (b: bool)
    ensures
        b == occurs_at(v@, pat@, i as int),
{
    if i > v.len() || pat.len() > v.len() - i {
        return false;
    }
    let mut k: usize = 0;
    while k < pat.len()
        invariant
            i + pat.len() <= v.len(),
            k <= pat.len(),
            forall|j: int| 0 <= j < k ==> v@[i + j] == pat@[j],
        decreases pat.len() - k,
    {
        if v[i + k] != pat[k] {
            proof {
                assert(v@.subrange(i as int, i + pat.len())[k as int] == v@[i + k]);
            }
            return false;
        }
        k += 1;
    }
    proof {
        assert(v@.subrange(i as int, i + pat.len()) == pat@);
    }
    true
}

pub fn starts_with(v: &Vec<char>, prefix: &str) -> (b: bool)
    ensures
        b == has_prefix(v@, prefix@),
{
    let p = chars_of(prefix);
    let b = matches_at(v, &p, 0);
    proof {
        if p@.len() <= v@.len() {
            assert(v@.subrange(0, p@.len() as int) == v@.take(p@.len() as int));
        }
    }
    b
}

pub fn ends_with(v: &Vec<char>, suffix: &str) -> (b: bool)
    ensures
        b == has_suffix(v@, suffix@),
{
    let p = chars_of(suffix);
    if p.len() > v.len() {
        return false;
    }
    let b = matches_at(v, &p, v.len() - p.len());
    proof {
        assert(v@.subrange(v@.len() - p@.len(), v@.len() as int) == v@.skip(v@.len() - p@.len()));
    }
    b
}

/// The value of a decimal digit.
pub open spec fn digit_char(d: nat) -> char
    recommends
        d < 10,
{
    ((d as u32) + 48) as char
}

/// The decimal form of `n`, as `u64::to_string` and `{}` write it.
pub open spec fn decimal(n: nat) -> Seq<char>
    decreases n,
{
    if n < 10 {
        seq![digit_char(n)]
    } else {
        decimal(n / 10).push(digit_char(n % 10))
    }
}

fn digit(d: u8) -> (c: char)
    requires
        d < 10,
    ensures
        c == digit_char(d as nat),
{
    if d == 0 { '0' } else if d == 1 { '1' } else if d == 2 { '2' } else if d == 3 { '3' } else if d
        == 4 { '4' } else if d == 5 { '5' } else if d == 6 { '6' } else if d == 7 { '7' } else if d
        == 8 { '8' } else { '9' }
}

/// Appends the decimal form of `n` to `acc`.
pub fn push_decimal(acc: &mut Vec<char>, n: u128)
    ensures
        final(acc)@ == old(acc)@ + decimal(n as nat),
    decreases n,
{
    if n < 10 {
        acc.push(digit(n as u8));
    } else {
        push_decimal(acc, n / 10);
        acc.push(digit((n % 10) as u8));
        proof {
            assert(old(acc)@ + decimal(n as nat) == old(acc)@ + decimal((n / 10) as nat) + seq![
                digit_char((n % 10) as nat)]);
        }
    }
}


/// The views of a sequence of char vectors.
pub open spec fn views(v: Seq<Vec<char>>) -> Seq<Seq<char>> {
    v.map_values(|x: Vec<char>| x@)
}

/// The views of a sequence of strings.
pub open spec fn string_views(v: Seq<String>) -> Seq<Seq<char>> {
    v.map_values(|x: String| x@)
}

pub proof fn lemma_string_views_push(s: Seq<String>, x: String)
    ensures
        string_views(s.push(x)) == string_views(s).push(x@),
{
    assert(string_views(s.push(x)) =~= string_views(s).push(x@));
}

pub proof fn lemma_views_push(s: Seq<Vec<char>>, x: Vec<char>)
    ensures
        views(s.push(x)) == views(s).push(x@),
{
    assert(views(s.push(x)) =~= views(s).push(x@));
}

/// A line with the `\r` of a `\r\n` ending removed.
pub open spec fn strip_cr(l: Seq<char>) -> Seq<char> {
    if l.len() > 0 && l.last() == '\r' {
        l.drop_last()
    } else {
        l
    }
}

/// Scanning for `str::lines`: the finished lines and the line in progress.
pub open spec fn lines_scan(s: Seq<char>) -> (Seq<Seq<char>>, Seq<char>)
    decreases s.len(),
{
    if s.len() == 0 {
        (seq![], seq![])
    } else {
        let p = lines_scan(s.drop_last());
        if s.last() == '\n' {
            (p.0.push(strip_cr(p.1)), seq![])
        } else {
            (p.0, p.1.push(s.last()))
        }
    }
}

/// `str::lines`: the text split at each `\n` (a `\r` right before it is
/// dropped too); a final `\n` opens no empty last line.
pub open spec fn lines_of(s: Seq<char>) -> Seq<Seq<char>> {
    let p = lines_scan(s);
    if p.1.len() > 0 {
        p.0.push(p.1)
    } else {
        p.0
    }
}

pub fn lines(v: &Vec<char>) -> (r: Vec<Vec<char>>)
    ensures
        views(r@) == lines_of(v@),
{
    let mut done: Vec<Vec<char>> = Vec::new();
    let mut cur: Vec<char> = Vec::new();
    let mut i: usize = 0;
    while i < v.len()
        invariant
            i <= v.len(),
            (views(done@), cur@) == lines_scan(v@.take(i as int)),
        decreases v.len() - i,
    {
        let c = v[i];
        proof {
            assert(v@.take(i + 1).drop_last() == v@.take(i as int));
        }
        if c == '\n' {
            let mut line = cur;
            if line.len() > 0 && line[line.len() - 1] == '\r' {
                line.pop();
            }
            done.push(line);
            cur = Vec::new();
            proof {
                assert(views(done@) == lines_scan(v@.take(i as int)).0.push(strip_cr(lines_scan(v@.take(i as int)).1)));
            }
        } else {
            cur.push(c);
        }
        i += 1;
    }
    proof {
        assert(v@.take(v@.len() as int) == v@);
    }
    if cur.len() > 0 {
        done.push(cur);
    }
    proof {
        assert(views(done@) =~= lines_of(v@));
    }
    done
}

/// Lexicographic order of char sequences by code point (the order `String`
/// compares in, as UTF-8 keeps the order of code points).
pub open spec fn seq_lt(a: Seq<char>, b: Seq<char>) -> bool
    decreases a.len(),
{
    if a.len() == 0 {
        b.len() > 0
    } else if b.len() == 0 {
        false
    } else if a[0] < b[0] {
        true
    } else if a[0] > b[0] {
        false
    } else {
        seq_lt(a.drop_first(), b.drop_first())
    }
}

pub proof fn lemma_seq_lt_irreflexive(a: Seq<char>)
    ensures
        !seq_lt(a, a),
    decreases a.len(),
{
    if a.len() > 0 {
        lemma_seq_lt_irreflexive(a.drop_first());
    }
}

pub proof fn lemma_seq_lt_transitive(a: Seq<char>, b: Seq<char>, c: Seq<char>)
    requires
        seq_lt(a, b),
        seq_lt(b, c),
    ensures
        seq_lt(a, c),
    decreases a.len(),
{
    if a.len() > 0 && b.len() > 0 && c.len() > 0 {
        if a[0] == b[0] && b[0] == c[0] {
            lemma_seq_lt_transitive(a.drop_first(), b.drop_first(), c.drop_first());
        }
    }
}

pub proof fn lemma_seq_lt_total(a: Seq<char>, b: Seq<char>)
    requires
        a != b,
    ensures
        seq_lt(a, b) || seq_lt(b, a),
    decreases a.len(),
{
    if a.len() > 0 && b.len() > 0 {
        if a[0] == b[0] {
            if a.drop_first() == b.drop_first() {
                assert(a == seq![a[0]] + a.drop_first());
                assert(b == seq![b[0]] + b.drop_first());
            }
            lemma_seq_lt_total(a.drop_first(), b.drop_first());
        }
    } else if a.len() == 0 && b.len() == 0 {
        assert(a == b);
    }
}

pub fn less_than(a: &Vec<char>, b: &Vec<char>) -> (r: bool)
    ensures
        r == seq_lt(a@, b@),
{
    let mut k: usize = 0;
    proof {
        assert(a@.skip(0) == a@ && b@.skip(0) == b@);
    }
    while k < a.len() && k < b.len() && a[k] == b[k]
        invariant
            k <= a.len(),
            k <= b.len(),
            seq_lt(a@, b@) == seq_lt(a@.skip(k as int), b@.skip(k as int)),
        decreases a.len() - k,
    {
        proof {
            let (x, y) = (a@.skip(k as int), b@.skip(k as int));
            assert(x.drop_first() == a@.skip(k + 1));
            assert(y.drop_first() == b@.skip(k + 1));
        }
        k += 1;
    }
    let ghost x = a@.skip(k as int);
    let ghost y = b@.skip(k as int);
    if k == a.len() {
        proof {
            assert(x.len() == 0);
        }
        k < b.len()
    } else if k == b.len() {
        proof {
            assert(y.len() == 0);
        }
        false
    } else {
        proof {
            assert(x[0] == a@[k as int] && y[0] == b@[k as int]);
        }
        a[k] < b[k]
    }
}

/// The sequence is strictly increasing in lexicographic order.
pub open spec fn strictly_sorted(s: Seq<Seq<char>>) -> bool {
    forall|i: int, j: int| 0 <= i < j < s.len() ==> seq_lt(#[trigger] s[i], #[trigger] s[j])
}

/// Adds `x` to a strictly sorted vector of char sequences unless it is there
/// already (what a `BTreeSet` or a sort and dedup keeps).
pub fn insert_sorted_unique(v: &mut Vec<Vec<char>>, x: Vec<char>)
    requires
        strictly_sorted(views(old(v)@)),
    ensures
        strictly_sorted(views(final(v)@)),
        views(final(v)@).to_set() == views(old(v)@).to_set().insert(x@),
{
    let ghost old_views = views(v@);
    let mut k: usize = 0;
    while k < v.len() && less_than(&v[k], &x)
        invariant
            k <= v.len(),
            v@ == old(v)@,
            forall|i: int| 0 <= i < k ==> seq_lt(#[trigger] v@[i]@, x@),
        decreases v.len() - k,
    {
        k += 1;
    }
    if k < v.len() && !less_than(&x, &v[k]) {
        proof {
            if x@ != v@[k as int]@ {
                lemma_seq_lt_total(x@, v@[k as int]@);
            }
            assert(x@ == views(v@)[k as int]);
            assert(views(v@).to_set() =~= views(v@).to_set().insert(x@));
        }
        return;
    }
    proof {
        assert(views(v@) == old_views);
    }
    v.insert(k, x);
    proof {
        let nv = views(v@);
        assert(nv =~= old_views.insert(k as int, x@));
        assert forall|i: int, j: int| 0 <= i < j < nv.len() implies seq_lt(#[trigger] nv[i],
            #[trigger] nv[j]) by {
            if j < k {
                assert(nv[i] == old_views[i] && nv[j] == old_views[j]);
            } else if j == k {
                assert(nv[i] == old_views[i]);
            } else if i == k {
                assert(nv[j] == old_views[j - 1]);
                if j - 1 > k {
                    assert(seq_lt(old_views[k as int], old_views[j - 1]));
                    lemma_seq_lt_transitive(x@, old_views[k as int], old_views[j - 1]);
                }
            } else if i < k {
                assert(nv[i] == old_views[i] && nv[j] == old_views[j - 1]);
                assert(seq_lt(old_views[i], x@));
                if j - 1 > k {
                    assert(seq_lt(old_views[k as int], old_views[j - 1]));
                    lemma_seq_lt_transitive(x@, old_views[k as int], old_views[j - 1]);
                }
                lemma_seq_lt_transitive(old_views[i], x@, old_views[j - 1]);
            } else {
                assert(nv[i] == old_views[i - 1] && nv[j] == old_views[j - 1]);
            }
        }
        assert(nv.to_set() =~= old_views.to_set().insert(x@)) by {
            assert forall|y: Seq<char>| nv.to_set().contains(y) <==> old_views.to_set().insert(
                x@,
            ).contains(y) by {
                if nv.contains(y) {
                    let i = choose|i: int| 0 <= i < nv.len() && nv[i] == y;
                    if i < k {
                        assert(old_views[i] == y);
                    } else if i > k {
                        assert(old_views[i - 1] == y);
                    }
                }
                if old_views.contains(y) {
                    let i = choose|i: int| 0 <= i < old_views.len() && old_views[i] == y;
                    if i < k {
                        assert(nv[i] == y);
                    } else {
                        assert(nv[i + 1] == y);
                    }
                }
                if y == x@ {
                    assert(nv[k as int] == y);
                }
            }
        }
    }
}

/// The number of times `t` occurs in `toks`.
pub open spec fn occurrences(toks: Seq<Seq<char>>, t: Seq<char>) -> nat
    decreases toks.len(),
{
    if toks.len() == 0 {
        0
    } else {
        occurrences(toks.drop_last(), t) + if toks.last() == t {
            1nat
        } else {
            0nat
        }
    }
}

pub proof fn lemma_occurrences_bound(toks: Seq<Seq<char>>, t: Seq<char>)
    ensures
        occurrences(toks, t) <= toks.len(),
    decreases toks.len(),
{
    if toks.len() > 0 {
        lemma_occurrences_bound(toks.drop_last(), t);
    }
}

pub proof fn lemma_occurrences_concat(a: Seq<Seq<char>>, b: Seq<Seq<char>>, t: Seq<char>)
    ensures
        occurrences(a + b, t) == occurrences(a, t) + occurrences(b, t),
    decreases b.len(),
{
    if b.len() > 0 {
        assert((a + b).drop_last() == a + b.drop_last());
        lemma_occurrences_concat(a, b.drop_last(), t);
    } else {
        assert(a + b == a);
    }
}

pub proof fn lemma_occurrences_insert(s: Seq<Seq<char>>, k: int, x: Seq<char>, t: Seq<char>)
    requires
        0 <= k <= s.len(),
    ensures
        occurrences(s.insert(k, x), t) == occurrences(s, t) + if x == t {
            1nat
        } else {
            0nat
        },
{
    assert(s.insert(k, x) =~= s.take(k) + seq![x] + s.skip(k));
    assert(s =~= s.take(k) + s.skip(k));
    lemma_occurrences_concat(s.take(k) + seq![x], s.skip(k), t);
    lemma_occurrences_concat(s.take(k), seq![x], t);
    lemma_occurrences_concat(s.take(k), s.skip(k), t);
    assert(seq![x].drop_last() =~= Seq::<Seq<char>>::empty());
    assert(occurrences(Seq::<Seq<char>>::empty(), t) == 0);
    assert(occurrences(seq![x], t) == if x == t {
        1nat
    } else {
        0nat
    });
}

/// The sequence is in non-decreasing lexicographic order.
pub open spec fn sorted_le(s: Seq<Seq<char>>) -> bool {
    forall|i: int, j: int| 0 <= i < j < s.len() ==> !seq_lt(#[trigger] s[j], #[trigger] s[i])
}

/// Sorts strings in lexicographic order (`Vec::sort` on strings); equal
/// strings keep their order.
pub fn sort_strings(v: Vec<String>) -> (r: Vec<String>)
    ensures
        sorted_le(string_views(r@)),
        forall|t: Seq<char>| occurrences(string_views(r@), t) == occurrences(string_views(v@), t),
{
    let ghost vv = string_views(v@);
    let mut out: Vec<String> = Vec::new();
    let mut i: usize = 0;
    while i < v.len()
        invariant
            i <= v.len(),
            vv == string_views(v@),
            sorted_le(string_views(out@)),
            forall|t: Seq<char>| occurrences(string_views(out@), t) == occurrences(vv.take(i as int), t),
        decreases v.len() - i,
    {
        let x = v[i].clone();
        let xc = chars_of(x.as_str());
        let mut k: usize = 0;
        while k < out.len() && !less_than(&xc, &chars_of(out[k].as_str()))
            invariant
                k <= out.len(),
                xc@ == x@,
                forall|j: int| 0 <= j < k ==> !seq_lt(x@, #[trigger] out@[j]@),
            decreases out.len() - k,
        {
            k += 1;
        }
        let ghost old_out = string_views(out@);
        out.insert(k, x);
        proof {
            let nv = string_views(out@);
            assert(nv =~= old_out.insert(k as int, x@));
            assert forall|a: int, b: int| 0 <= a < b < nv.len() implies !seq_lt(#[trigger] nv[b], #[trigger] nv[a]) by {
                if b < k {
                    assert(nv[a] == old_out[a] && nv[b] == old_out[b]);
                } else if b == k {
                    assert(nv[a] == old_out[a]);
                    assert(!seq_lt(x@, out@[a]@));
                } else if a == k {
                    assert(nv[b] == old_out[b - 1]);
                    assert(seq_lt(x@, old_out[k as int]));
                    if seq_lt(old_out[b - 1], x@) {
                        lemma_seq_lt_transitive(old_out[b - 1], x@, old_out[k as int]);
                        if b - 1 > k {
                            assert(!seq_lt(old_out[b - 1], old_out[k as int]));
                        } else {
                            lemma_seq_lt_irreflexive(old_out[k as int]);
                        }
                    }
                } else if a < k {
                    assert(nv[a] == old_out[a] && nv[b] == old_out[b - 1]);
                } else {
                    assert(nv[a] == old_out[a - 1] && nv[b] == old_out[b - 1]);
                }
            }
            assert(vv[i as int] == x@);
            assert(vv.take(i + 1) =~= vv.take(i as int).push(x@));
            assert forall|t: Seq<char>| occurrences(nv, t) == occurrences(vv.take(i + 1), t) by {
                lemma_occurrences_insert(old_out, k as int, x@, t);
                assert(vv.take(i + 1).drop_last() =~= vv.take(i as int));
                assert(vv.take(i + 1).last() == x@);
            }
        }
        i += 1;
    }
    proof {
        assert(vv.take(v@.len() as int) == vv);
    }
    out
}

/// The items joined with `sep` between them (`join`).
pub open spec fn join(items: Seq<Seq<char>>, sep: Seq<char>) -> Seq<char>
    decreases items.len(),
{
    if items.len() == 0 {
        Seq::<char>::empty()
    } else if items.len() == 1 {
        items[0]
    } else {
        join(items.drop_last(), sep) + sep + items.last()
    }
}

/// Joins strings with `sep` between them.
pub fn join_strings(items: &Vec<String>, sep: &str) -> (r: Vec<char>)
    ensures
        r@ == join(string_views(items@), sep@),
{
    let ghost iv = string_views(items@);
    let mut r: Vec<char> = Vec::new();
    let mut i: usize = 0;
    while i < items.len()
        invariant
            i <= items.len(),
            iv == string_views(items@),
            r@ == join(iv.take(i as int), sep@),
        decreases items.len() - i,
    {
        proof {
            assert(iv.take(i + 1).drop_last() == iv.take(i as int));
            assert(iv.take(i + 1).last() == items@[i as int]@);
        }
        if i > 0 {
            push_str(&mut r, sep);
        } else {
            assert(iv.take(1)[0] == items@[0]@);
        }
        push_str(&mut r, items[i].as_str());
        i += 1;
    }
    proof {
        assert(iv.take(iv.len() as int) == iv);
    }
    r
}

/// The number of bytes UTF-8 takes for a char.
pub open spec fn utf8_width(c: char) -> nat {
    let u = c as u32;
    if u < 0x80 {
        1
    } else if u < 0x800 {
        2
    } else if u < 0x10000 {
        3
    } else {
        4
    }
}

/// The number of bytes UTF-8 takes for a text (`str::len`).
pub open spec fn byte_len(s: Seq<char>) -> nat
    decreases s.len(),
{
    if s.len() == 0 {
        0
    } else {
        byte_len(s.drop_last()) + utf8_width(s.last())
    }
}

pub fn width(c: char) -> (w: u8)
    ensures
        w == utf8_width(c),
{
    let u = c as u32;
    if u < 0x80 {
        1
    } else if u < 0x800 {
        2
    } else if u < 0x10000 {
        3
    } else {
        4
    }
}

pub proof fn lemma_byte_len_step(s: Seq<char>, k: int)
    requires
        0 <= k < s.len(),
    ensures
        byte_len(s.take(k + 1)) == byte_len(s.take(k)) + utf8_width(s[k]),
{
    assert(s.take(k + 1).drop_last() == s.take(k));
}

pub proof fn lemma_byte_len_increasing(s: Seq<char>, j: int, k: int)
    requires
        0 <= j < k <= s.len(),
    ensures
        byte_len(s.take(j)) < byte_len(s.take(k)),
    decreases k - j,
{
    lemma_byte_len_step(s, k - 1);
    if j < k - 1 {
        lemma_byte_len_increasing(s, j, k - 1);
    }
}

pub proof fn lemma_byte_len_le(s: Seq<char>, j: int, k: int)
    requires
        0 <= j <= k <= s.len(),
    ensures
        byte_len(s.take(j)) <= byte_len(s.take(k)),
{
    if j < k {
        lemma_byte_len_increasing(s, j, k);
    }
}

/// The bytes of the first `n` chars.
pub fn prefix_bytes(s: &Vec<char>, n: usize) -> (b: u128)
    requires
        n <= s.len(),
    ensures
        b == byte_len(s@.take(n as int)),
{
    let mut b: u128 = 0;
    let mut k: usize = 0;
    proof {
        assert(s@.take(0) =~= Seq::<char>::empty());
    }
    while k < n
        invariant
            k <= n <= s.len(),
            b == byte_len(s@.take(k as int)),
            b <= 4 * k,
        decreases n - k,
    {
        proof {
            lemma_byte_len_step(s@, k as int);
        }
        b = b + width(s[k]) as u128;
        k += 1;
    }
    b
}

/// Some char index of `s` starts at byte `b` (or `b` is its end).
pub open spec fn is_boundary(s: Seq<char>, b: nat) -> bool {
    exists|k: int| 0 <= k <= s.len() && byte_len(s.take(k)) == b
}

/// The char index of `s` at byte `b`.
pub open spec fn boundary_index(s: Seq<char>, b: nat) -> int {
    choose|k: int| 0 <= k <= s.len() && byte_len(s.take(k)) == b
}

pub proof fn lemma_boundary_index(s: Seq<char>, b: nat, k: int)
    requires
        0 <= k <= s.len(),
        byte_len(s.take(k)) == b,
    ensures
        boundary_index(s, b) == k,
{
    let j = boundary_index(s, b);
    assert(0 <= j <= s.len() && byte_len(s.take(j)) == b);
    if j < k {
        lemma_byte_len_increasing(s, j, k);
    } else if k < j {
        lemma_byte_len_increasing(s, k, j);
    }
}

/// The char index at byte `b`, if a char starts there.
pub fn index_at_byte(s: &Vec<char>, b: u128) -> (r: Option<usize>)
    ensures
        r matches Some(k) ==> k <= s.len() && byte_len(s@.take(k as int)) == b,
        r is None ==> !is_boundary(s@, b as nat),
{
    let mut acc: u128 = 0;
    let mut k: usize = 0;
    proof {
        assert(s@.take(0) =~= Seq::<char>::empty());
    }
    while k < s.len() && acc < b
        invariant
            k <= s.len(),
            acc == byte_len(s@.take(k as int)),
            acc <= 4 * k,
            k > 0 ==> byte_len(s@.take(k - 1)) < b,
        decreases s.len() - k,
    {
        proof {
            lemma_byte_len_step(s@, k as int);
        }
        acc = acc + width(s[k]) as u128;
        k += 1;
    }
    if acc == b {
        Some(k)
    } else {
        proof {
            assert forall|j: int| 0 <= j <= s@.len() implies byte_len(s@.take(j)) != b by {
                if j < k {
                    lemma_byte_len_le(s@, j, k - 1);
                } else if j > k {
                    lemma_byte_len_increasing(s@, k as int, j);
                }
            }
        }
        None
    }
}


/// The number of bytes UTF-8 takes for a text (`str::len`).
pub fn utf8_len(s: &str) -> (n: u128)
    ensures
        n == byte_len(s@),
{
    let cs = chars_of(s);
    let n = prefix_bytes(&cs, cs.len());
    proof {
        assert(cs@.take(cs@.len() as int) == cs@);
    }
    n
}


/// Scanning for `str::split` at a char: the finished pieces and the piece in
/// progress.
pub open spec fn split_scan(s: Seq<char>, c: char) -> (Seq<Seq<char>>, Seq<char>)
    decreases s.len(),
{
    if s.len() == 0 {
        (seq![], seq![])
    } else {
        let p = split_scan(s.drop_last(), c);
        if s.last() == c {
            (p.0.push(p.1), seq![])
        } else {
            (p.0, p.1.push(s.last()))
        }
    }
}

/// `str::split` at a char: the pieces between the separators, empty ones
/// included; there is always at least one.
pub open spec fn split_on(s: Seq<char>, c: char) -> Seq<Seq<char>> {
    let p = split_scan(s, c);
    p.0.push(p.1)
}

pub fn split_chars(v: &Vec<char>, c: char) -> (r: Vec<Vec<char>>)
    ensures
        views(r@) == split_on(v@, c),
{
    let mut done: Vec<Vec<char>> = Vec::new();
    let mut cur: Vec<char> = Vec::new();
    let mut i: usize = 0;
    while i < v.len()
        invariant
            i <= v.len(),
            (views(done@), cur@) == split_scan(v@.take(i as int), c),
        decreases v.len() - i,
    {
        proof {
            assert(v@.take(i + 1).drop_last() == v@.take(i as int));
        }
        if v[i] == c {
            let ghost before = done@;
            done.push(cur);
            cur = Vec::new();
            proof {
                lemma_views_push(before, done@.last());
            }
        } else {
            cur.push(v[i]);
        }
        i += 1;
    }
    proof {
        assert(v@.take(v@.len() as int) == v@);
    }
    let ghost before = done@;
    done.push(cur);
    proof {
        lemma_views_push(before, done@.last());
    }
    done
}

/// Scanning for `str::split_whitespace`: the finished words and the word in
/// progress.
pub open spec fn words_scan(s: Seq<char>) -> (Seq<Seq<char>>, Seq<char>)
    decreases s.len(),
{
    if s.len() == 0 {
        (seq![], seq![])
    } else {
        let p = words_scan(s.drop_last());
        if is_white_space(s.last()) {
            if p.1.len() > 0 {
                (p.0.push(p.1), seq![])
            } else {
                p
            }
        } else {
            (p.0, p.1.push(s.last()))
        }
    }
}

/// `str::split_whitespace`: the runs of chars that are not white space.
pub open spec fn words(s: Seq<char>) -> Seq<Seq<char>> {
    let p = words_scan(s);
    if p.1.len() > 0 {
        p.0.push(p.1)
    } else {
        p.0
    }
}

pub fn split_words(v: &Vec<char>) -> (r: Vec<Vec<char>>)
    ensures
        views(r@) == words(v@),
{
    let mut done: Vec<Vec<char>> = Vec::new();
    let mut cur: Vec<char> = Vec::new();
    let mut i: usize = 0;
    while i < v.len()
        invariant
            i <= v.len(),
            (views(done@), cur@) == words_scan(v@.take(i as int)),
        decreases v.len() - i,
    {
        proof {
            assert(v@.take(i + 1).drop_last() == v@.take(i as int));
        }
        if is_whitespace(v[i]) {
            if cur.len() > 0 {
                let ghost before = done@;
                done.push(cur);
                cur = Vec::new();
                proof {
                    lemma_views_push(before, done@.last());
                }
            }
        } else {
            cur.push(v[i]);
        }
        i += 1;
    }
    proof {
        assert(v@.take(v@.len() as int) == v@);
    }
    if cur.len() > 0 {
        let ghost before = done@;
        done.push(cur);
        proof {
            lemma_views_push(before, done@.last());
        }
    }
    done
}

/// Whether two texts are equal.
pub fn same_text(a: &str, b: &str) -> (r: bool)
    ensures
        r == (a@ == b@),
{
    let x = String::from_str(a);
    let y = String::from_str(b);
    x == y
}


/// `str::trim` of a text, as a new string.
pub fn trim_text(s: &str) -> (r: String)
    ensures
        r@ == trim_ws(s@),
{
    string_of(&trim(&chars_of(s)))
}

} // verus!
