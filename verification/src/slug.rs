//! Turning a session title into the folder name that stores the session.
use vstd::prelude::*;
use crate::text::{
    is_alnum, lowercase_of, is_ascii_char, is_ascii_upper, ascii_lower, chars_of, is_alphanumeric, lowercase_chars, string_of,
    trim_char, trim_matching, trim_start_char, trim_end_char,
};

verus! {

/// The chars of `s` after `char::to_lowercase` is applied to each of them in
/// turn (`s.chars().flat_map(char::to_lowercase)`).
pub open spec fn lower_all(s: Seq<char>) -> Seq<char>
    decreases s.len(),
{
    if s.len() == 0 {
        seq![]
    } else {
        lower_all(s.drop_last()) + lowercase_of(s.last())
    }
}

/// Scans lowercased chars: alphanumeric chars are kept, and each run of other
/// chars becomes one `-`. The flag tells whether the last char added was such
/// a separator.
pub open spec fn slug_scan(s: Seq<char>) -> (Seq<char>, bool)
    decreases s.len(),
{
    if s.len() == 0 {
        (seq![], false)
    } else {
        let prev = slug_scan(s.drop_last());
        let c = s.last();
        if is_alnum(c) {
            (prev.0.push(c), false)
        } else if !prev.1 {
            (prev.0.push('-'), true)
        } else {
            prev
        }
    }
}

/// The slug of a title: the scan of its lowercased chars with every leading
/// and trailing `-` removed, or `untitled` when nothing is left.
pub open spec fn slug_of(title: Seq<char>) -> Seq<char> {
    let t = trim_char(slug_scan(lower_all(title)).0, '-');
    if t.len() == 0 {
        "untitled"@
    } else {
        t
    }
}

/// A slug that the session store accepts as a folder name: it holds no `..`,
/// no `\\` and no `/`.
pub open spec fn accepted_slug(s: Seq<char>) -> bool {
    &&& !(exists|i: int| 0 <= i < s.len() - 1 && #[trigger] s[i] == '.' && s[i + 1] == '.')
    &&& !(exists|i: int| 0 <= i < s.len() && s[i] == '\\')
    &&& !(exists|i: int| 0 <= i < s.len() && s[i] == '/')
}

/// A char that a slug may hold: `-` or an alphanumeric char (never `.`, `/`
/// or `\\`, which are ASCII and not alphanumeric).
pub open spec fn slug_char(c: char) -> bool {
    c == '-' || is_alnum(c)
}

/// The shape every slug has: not empty, made of slug chars, no `-` at either
/// end and never two `-` in a row.
pub open spec fn well_formed_slug(s: Seq<char>) -> bool {
    &&& s.len() > 0
    &&& s[0] != '-'
    &&& s.last() != '-'
    &&& forall|i: int| 0 <= i < s.len() ==> slug_char(#[trigger] s[i])
    &&& forall|i: int| 0 <= i < s.len() - 1 && #[trigger] s[i] == '-' ==> s[i + 1] != '-'
}

/// Turns a title into the name of its session folder.
pub fn slugify(title: &str) -> (slug: String)
    ensures
        slug@ == slug_of(title@),
        well_formed_slug(slug@),
        accepted_slug(slug@),
{
    let chars = chars_of(title);
    let mut acc: Vec<char> = Vec::new();
    let mut last_was_dash = false;
    let mut i: usize = 0;
    while i < chars.len()
        invariant
            i <= chars.len(),
            (acc@, last_was_dash) == slug_scan(lower_all(chars@.take(i as int))),
            forall|k: int| 0 <= k < acc@.len() ==> slug_char(#[trigger] acc@[k]),
            forall|k: int| 0 <= k < acc@.len() - 1 && #[trigger] acc@[k] == '-' ==> acc@[k + 1] != '-',
            last_was_dash <==> (acc@.len() > 0 && acc@.last() == '-'),
        decreases chars.len() - i,
    {
        let lc = lowercase_chars(chars[i]);
        let ghost before = lower_all(chars@.take(i as int));
        let mut j: usize = 0;
        while j < lc.len()
            invariant
                j <= lc.len(),
                (acc@, last_was_dash) == slug_scan(before + lc@.take(j as int)),
                forall|k: int| 0 <= k < acc@.len() ==> slug_char(#[trigger] acc@[k]),
                forall|k: int| 0 <= k < acc@.len() - 1 && #[trigger] acc@[k] == '-' ==> acc@[k + 1] != '-',
                last_was_dash <==> (acc@.len() > 0 && acc@.last() == '-'),
            decreases lc.len() - j,
        {
            let ch = lc[j];
            let ghost prefix = before + lc@.take(j as int);
            proof {
                assert((before + lc@.take(j + 1)).drop_last() == prefix);
                assert((before + lc@.take(j + 1)).last() == ch);
            }
            if is_alphanumeric(ch) {
                acc.push(ch);
                last_was_dash = false;
            } else if !last_was_dash {
                acc.push('-');
                last_was_dash = true;
            }
            j += 1;
        }
        proof {
            assert(chars@.take(i + 1).drop_last() == chars@.take(i as int));
            assert(chars@.take(i + 1).last() == chars@[i as int]);
            assert(lc@.take(lc@.len() as int) == lc@);
        }
        i += 1;
    }
    proof {
        assert(chars@.take(chars@.len() as int) == chars@);
    }
    let trimmed = trim_matching(&acc, '-');
    if trimmed.len() == 0 {
        let u = String::from_str("untitled");
        proof {
            reveal_strlit("untitled");
        }
        u
    } else {
        proof {
            let (a, b) = choose|a: int, b: int|
                0 <= a <= b <= acc@.len() && trimmed@ == acc@.subrange(a, b);
            assert forall|k: int| 0 <= k < trimmed@.len() implies slug_char(#[trigger] trimmed@[k]) by {
                assert(trimmed@[k] == acc@[a + k]);
            }
            assert forall|k: int| 0 <= k < trimmed@.len() - 1 && #[trigger] trimmed@[k] == '-' implies trimmed@[k
                + 1] != '-' by {
                assert(trimmed@[k] == acc@[a + k]);
                assert(trimmed@[k + 1] == acc@[a + k + 1]);
            }
        }
        string_of(&trimmed)
    }
}

proof fn lemma_lower_all_fixed(t: Seq<char>)
    requires
        forall|i: int| 0 <= i < t.len() ==> lowercase_of(#[trigger] t[i]) == seq![t[i]],
    ensures
        lower_all(t) == t,
    decreases t.len(),
{
    if t.len() > 0 {
        let d = t.drop_last();
        assert forall|i: int| 0 <= i < d.len() implies lowercase_of(#[trigger] d[i]) == seq![d[i]] by {
            assert(d[i] == t[i]);
        }
        lemma_lower_all_fixed(d);
        assert(lowercase_of(t[t.len() - 1]) == seq![t.last()]);
        assert(d + seq![t.last()] =~= t);
    }
}

proof fn lemma_scan_fixed(t: Seq<char>, n: int)
    requires
        well_formed_slug(t),
        0 <= n <= t.len(),
    ensures
        slug_scan(t.take(n)) == (t.take(n), n > 0 && t[n - 1] == '-'),
    decreases n,
{
    if n > 0 {
        lemma_scan_fixed(t, n - 1);
        assert(t.take(n).drop_last() =~= t.take(n - 1));
        assert(t.take(n).last() == t[n - 1]);
        assert(!is_alnum('-'));
        let c = t[n - 1];
        assert(slug_char(c));
        if c == '-' {
            assert(n - 1 > 0);
            assert(t[n - 2] != '-');
        }
        assert(t.take(n - 1).push(c) =~= t.take(n));
    }
}

/// Slugifying a slug gives the slug back, for a slug whose chars each
/// lowercase to themselves.
pub proof fn lemma_slug_idempotent(t: Seq<char>)
    requires
        well_formed_slug(t),
        forall|i: int| 0 <= i < t.len() ==> lowercase_of(#[trigger] t[i]) == seq![t[i]],
    ensures
        slug_of(t) == t,
{
    lemma_lower_all_fixed(t);
    lemma_scan_fixed(t, t.len() as int);
    assert(t.take(t.len() as int) =~= t);
    assert(trim_start_char(t, '-') == t);
    assert(trim_end_char(t, '-') == t);
}

/// An ASCII char that lowercases to itself: not an upper-case letter.
pub open spec fn ascii_fixed(c: char) -> bool {
    is_ascii_char(c) && !is_ascii_upper(c)
}

proof fn lemma_ascii_lower_fixed(c: char)
    requires
        is_ascii_char(c),
    ensures
        ascii_fixed(ascii_lower(c)),
{
    if is_ascii_upper(c) {
        assert((((c as u32) + 32) as char) as u32 == (c as u32) + 32);
    }
}

proof fn lemma_lower_all_ascii(t: Seq<char>)
    requires
        forall|i: int| 0 <= i < t.len() ==> is_ascii_char(#[trigger] t[i]),
    ensures
        lower_all(t).len() == t.len(),
        forall|i: int| 0 <= i < t.len() ==> ascii_fixed(#[trigger] lower_all(t)[i]),
    decreases t.len(),
{
    if t.len() > 0 {
        let d = t.drop_last();
        assert forall|i: int| 0 <= i < d.len() implies is_ascii_char(#[trigger] d[i]) by {
            assert(d[i] == t[i]);
        }
        lemma_lower_all_ascii(d);
        let c = t.last();
        assert(is_ascii_char(c));
        lemma_ascii_lower_fixed(c);
        assert forall|i: int| 0 <= i < t.len() implies ascii_fixed(#[trigger] lower_all(t)[i]) by {
            if i < d.len() {
                assert(lower_all(t)[i] == lower_all(d)[i]);
            } else {
                assert(lower_all(t)[i] == ascii_lower(c));
            }
        }
    }
}

proof fn lemma_slug_scan_shape(s: Seq<char>)
    requires
        forall|i: int| 0 <= i < s.len() ==> ascii_fixed(#[trigger] s[i]),
    ensures
        forall|k: int| 0 <= k < slug_scan(s).0.len() ==> slug_char(#[trigger] slug_scan(s).0[k]) && ascii_fixed(slug_scan(s).0[k]),
        forall|k: int| 0 <= k < slug_scan(s).0.len() - 1 && #[trigger] slug_scan(s).0[k] == '-' ==> slug_scan(s).0[k + 1] != '-',
        slug_scan(s).1 <==> (slug_scan(s).0.len() > 0 && slug_scan(s).0.last() == '-'),
    decreases s.len(),
{
    if s.len() > 0 {
        let d = s.drop_last();
        assert forall|i: int| 0 <= i < d.len() implies ascii_fixed(#[trigger] d[i]) by {
            assert(d[i] == s[i]);
        }
        lemma_slug_scan_shape(d);
        let p = slug_scan(d).0;
        let c = s.last();
        assert(ascii_fixed(c));
        assert(ascii_fixed('-'));
        let r = slug_scan(s).0;
        assert forall|k: int| 0 <= k < r.len() implies slug_char(#[trigger] r[k]) && ascii_fixed(r[k]) by {
            if k < p.len() {
                assert(r[k] == p[k]);
            }
        }
        assert forall|k: int| 0 <= k < r.len() - 1 && #[trigger] r[k] == '-' implies r[k + 1] != '-' by {
            if k + 1 < p.len() {
                assert(r[k] == p[k] && r[k + 1] == p[k + 1]);
            } else if r.len() > p.len() {
                assert(r[k] == p[k]);
            }
        }
    }
}

proof fn lemma_trim_start_skip(s: Seq<char>, c: char) -> (a: int)
    ensures
        0 <= a <= s.len(),
        trim_start_char(s, c) == s.skip(a),
        a < s.len() ==> s[a] != c,
    decreases s.len(),
{
    if s.len() > 0 && s[0] == c {
        let a = lemma_trim_start_skip(s.drop_first(), c);
        assert(s.drop_first().skip(a) =~= s.skip(a + 1));
        a + 1
    } else {
        assert(s.skip(0) =~= s);
        0
    }
}

proof fn lemma_trim_end_take(s: Seq<char>, c: char) -> (b: int)
    ensures
        0 <= b <= s.len(),
        trim_end_char(s, c) == s.take(b),
        b > 0 ==> s[b - 1] != c,
    decreases s.len(),
{
    if s.len() > 0 && s.last() == c {
        let b = lemma_trim_end_take(s.drop_last(), c);
        assert(s.drop_last().take(b) =~= s.take(b));
        b
    } else {
        assert(s.take(s.len() as int) =~= s);
        s.len() as int
    }
}

/// The slug of an ASCII title is a well-formed slug whose chars each
/// lowercase to themselves, so slugifying it again gives it back.
pub proof fn lemma_ascii_slug_idempotent(title: Seq<char>)
    requires
        forall|i: int| 0 <= i < title.len() ==> is_ascii_char(#[trigger] title[i]),
    ensures
        well_formed_slug(slug_of(title)),
        slug_of(slug_of(title)) == slug_of(title),
{
    lemma_lower_all_ascii(title);
    let s = lower_all(title);
    lemma_slug_scan_shape(s);
    let sc = slug_scan(s).0;
    let a = lemma_trim_start_skip(sc, '-');
    let u = sc.skip(a);
    let b = lemma_trim_end_take(u, '-');
    let t = trim_char(sc, '-');
    assert(t == u.take(b));
    assert forall|k: int| 0 <= k < t.len() implies #[trigger] t[k] == sc[a + k] by {
    }
    let r = slug_of(title);
    if t.len() == 0 {
        reveal_strlit("untitled");
        assert(r == "untitled"@);
        assert forall|k: int| 0 <= k < r.len() implies slug_char(#[trigger] r[k]) && ascii_fixed(r[k]) by {
        }
    } else {
        assert(r == t);
        assert(t[0] == sc[a]);
        assert(t.last() == u[b - 1]);
        assert forall|k: int| 0 <= k < t.len() implies slug_char(#[trigger] t[k]) && ascii_fixed(t[k]) by {
            assert(t[k] == sc[a + k]);
        }
        assert forall|k: int| 0 <= k < t.len() - 1 && #[trigger] t[k] == '-' implies t[k + 1] != '-' by {
            assert(t[k] == sc[a + k]);
            assert(t[k + 1] == sc[a + k + 1]);
        }
    }
    assert forall|i: int| 0 <= i < r.len() implies lowercase_of(#[trigger] r[i]) == seq![r[i]] by {
        assert(ascii_fixed(r[i]));
    }
    lemma_slug_idempotent(r);
}

} // verus!
