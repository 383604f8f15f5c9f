//! Character-level helpers shared by the parsers: turning strings into
//! character vectors and back, Unicode trimming, ASCII case folding and the
//! lexicographic order on names.

use vstd::prelude::*;

verus! {

/// Whether `c` has the Unicode `White_Space` property (the code points listed
/// for it in the Unicode Character Database's `PropList.txt`).
pub open spec fn is_white_space(c: char) -> bool {
    ||| '\u{9}' <= c && c <= '\u{d}'
    ||| c == ' '
    ||| c == '\u{85}'
    ||| c == '\u{a0}'
    ||| c == '\u{1680}'
    ||| '\u{2000}' <= c && c <= '\u{200a}'
    ||| c == '\u{2028}'
    ||| c == '\u{2029}'
    ||| c == '\u{202f}'
    ||| c == '\u{205f}'
    ||| c == '\u{3000}'
}

/// Whether `c` is white space in the sense of `char::is_whitespace` (the
/// `White_Space` property), tested against that property's code points.
pub(crate) fn char_is_whitespace(c: char) -> (r: bool)
    ensures
        r == is_white_space(c),
{
    ('\u{9}' <= c && c <= '\u{d}')
        || c == ' '
        || c == '\u{85}'
        || c == '\u{a0}'
        || c == '\u{1680}'
        || ('\u{2000}' <= c && c <= '\u{200a}')
        || c == '\u{2028}'
        || c == '\u{2029}'
        || c == '\u{202f}'
        || c == '\u{205f}'
        || c == '\u{3000}'
}

/// `String::push`: appends one character.
#[verifier::external_body]
pub(crate) fn push_char(s: &mut String, c: char)
    ensures
        final(s)@ == old(s)@.push(c),
{
    s.push(c);
}

/// The characters of `s`, in order.
pub fn chars_of(s: &str) -> (r: Vec<char>)
    ensures
        r@ == s@,
{
    let n = s.unicode_len();
    let mut out: Vec<char> = Vec::new();
    let mut i: usize = 0;
    while i < n
        invariant
            n == s@.len(),
            i <= n,
            out@ == s@.subrange(0, i as int),
        decreases n - i,
    {
        out.push(s.get_char(i));
        i = i + 1;
    }
    assert(out@ =~= s@);
    out
}

/// The string made of `chars[from..to]`.
pub fn string_of(chars: &[char], from: usize, to: usize) -> (r: String)
    requires
        from <= to <= chars@.len(),
    ensures
        r@ == chars@.subrange(from as int, to as int),
{
    let mut out = String::new();
    let mut i = from;
    while i < to
        invariant
            from <= i <= to,
            to <= chars@.len(),
            out@ == chars@.subrange(from as int, i as int),
        decreases to - i,
    {
        push_char(&mut out, chars[i]);
        assert(out@ =~= chars@.subrange(from as int, i + 1));
        i = i + 1;
    }
    out
}

/// `a` followed by `b`.
pub fn concat(a: &str, b: &str) -> (r: String)
    ensures
        r@ == a@ + b@,
{
    let mut out = String::from_str(a);
    out.append(b);
    out
}

/// `a`, then `b`, then `c`.
pub fn concat3(a: &str, b: &str, c: &str) -> (r: String)
    ensures
        r@ == a@ + b@ + c@,
{
    let mut out = String::from_str(a);
    out.append(b);
    out.append(c);
    out
}

/// `s` with leading `White_Space` characters removed.
pub open spec fn trim_front(s: Seq<char>) -> Seq<char>
    decreases s.len(),
{
    if s.len() > 0 && is_white_space(s[0]) {
        trim_front(s.drop_first())
    } else {
        s
    }
}

/// `s` with trailing `White_Space` characters removed.
pub open spec fn trim_back(s: Seq<char>) -> Seq<char>
    decreases s.len(),
{
    if s.len() > 0 && is_white_space(s.last()) {
        trim_back(s.drop_last())
    } else {
        s
    }
}

/// `s` with leading and trailing `White_Space` removed (what `str::trim` gives).
pub open spec fn trim(s: Seq<char>) -> Seq<char> {
    trim_back(trim_front(s))
}

proof fn lemma_trim_front_skip(s: Seq<char>, i: int)
    requires
        0 <= i <= s.len(),
        forall|k: int| 0 <= k < i ==> is_white_space(#[trigger] s[k]),
    ensures
        trim_front(s) == trim_front(s.subrange(i, s.len() as int)),
    decreases i,
{
    if i > 0 {
        assert(s.drop_first() =~= s.subrange(1, s.len() as int));
        let t = s.drop_first();
        assert forall|k: int| 0 <= k < i - 1 implies is_white_space(#[trigger] t[k]) by {
            assert(t[k] == s[k + 1]);
        }
        lemma_trim_front_skip(t, i - 1);
        assert(t.subrange(i - 1, t.len() as int) =~= s.subrange(i, s.len() as int));
    } else {
        assert(s.subrange(0, s.len() as int) =~= s);
    }
}

proof fn lemma_trim_back_skip(s: Seq<char>, j: int)
    requires
        0 <= j <= s.len(),
        forall|k: int| j <= k < s.len() ==> is_white_space(#[trigger] s[k]),
    ensures
        trim_back(s) == trim_back(s.subrange(0, j)),
    decreases s.len() - j,
{
    if j < s.len() {
        let t = s.drop_last();
        assert forall|k: int| j <= k < t.len() implies is_white_space(#[trigger] t[k]) by {
            assert(t[k] == s[k]);
        }
        assert(is_white_space(s[s.len() - 1]));
        lemma_trim_back_skip(t, j);
        assert(t.subrange(0, j) =~= s.subrange(0, j));
    } else {
        assert(s.subrange(0, j) =~= s);
    }
}

/// The characters of `chars[from..to]` with surrounding whitespace removed,
/// as a `String` (what `str::trim` gives on that slice).
pub fn trimmed(chars: &[char], from: usize, to: usize) -> (r: String)
    requires
        from <= to <= chars@.len(),
    ensures
        r@ == trim(chars@.subrange(from as int, to as int)),
{
    let ghost s = chars@.subrange(from as int, to as int);
    let mut i = from;
    while i < to && char_is_whitespace(chars[i])
        invariant
            from <= i <= to,
            to <= chars@.len(),
            s == chars@.subrange(from as int, to as int),
            forall|k: int| 0 <= k < i - from ==> is_white_space(#[trigger] s[k]),
        decreases to - i,
    {
        i = i + 1;
    }
    proof {
        lemma_trim_front_skip(s, i - from);
        assert(s.subrange(i - from, s.len() as int) =~= chars@.subrange(i as int, to as int));
        let u = chars@.subrange(i as int, to as int);
        if i < to {
            assert(!is_white_space(u[0]));
        }
        assert(trim_front(u) == u);
    }
    let mut j = to;
    while j > i && char_is_whitespace(chars[j - 1])
        invariant
            from <= i <= j <= to,
            to <= chars@.len(),
            forall|k: int| j <= k < to ==> is_white_space(#[trigger] chars@[k]),
        decreases j - i,
    {
        j = j - 1;
    }
    proof {
        let u = chars@.subrange(i as int, to as int);
        assert forall|k: int| j - i <= k < u.len() implies is_white_space(#[trigger] u[k]) by {
            assert(u[k] == chars@[i + k]);
        }
        lemma_trim_back_skip(u, j - i);
        let w = u.subrange(0, j - i);
        assert(w =~= chars@.subrange(i as int, j as int));
        if j > i {
            assert(w.last() == chars@[j - 1]);
        }
        assert(trim_back(w) == w);
    }
    string_of(chars, i, j)
}

/// ASCII upper-case letters mapped to lower case; every other character kept.
pub open spec fn ascii_lower(c: char) -> char {
    if 'A' <= c && c <= 'Z' {
        ((c as u32) + 32) as char
    } else {
        c
    }
}

/// What `str::to_ascii_lowercase` does to a character sequence.
pub open spec fn ascii_lowercase(s: Seq<char>) -> Seq<char> {
    s.map_values(|c: char| ascii_lower(c))
}

/// One character folded to ASCII lower case.
pub fn lower_char(c: char) -> (r: char)
    ensures
        r == ascii_lower(c),
{
    if 'A' <= c && c <= 'Z' {
        let u = (c as u32) + 32;
        assert(0x61 <= u <= 0x7a);
        u as u8 as char
    } else {
        c
    }
}

/// Whether two character sequences are equal.
pub fn chars_eq(a: &[char], b: &[char]) -> (r: bool)
    ensures
        r == (a@ == b@),
{
    if a.len() != b.len() {
        return false;
    }
    let mut i: usize = 0;
    while i < a.len()
        invariant
            a@.len() == b@.len(),
            i <= a@.len(),
            forall|k: int| 0 <= k < i ==> a@[k] == b@[k],
        decreases a.len() - i,
    {
        if a[i] != b[i] {
            return false;
        }
        i = i + 1;
    }
    assert(a@ =~= b@);
    true
}

/// Whether the characters of `a` spell the string `b`.
pub fn chars_eq_str(a: &[char], b: &str) -> (r: bool)
    ensures
        r == (a@ == b@),
{
    let bc = chars_of(b);
    chars_eq(a, bc.as_slice())
}

/// Lexicographic order on character sequences (code point by code point, a
/// proper prefix first). On strings this is the order of `String`'s `Ord`.
pub open spec fn seq_lt(a: Seq<char>, b: Seq<char>) -> bool
    decreases a.len(),
{
    if a.len() == 0 {
        b.len() > 0
    } else if b.len() == 0 {
        false
    } else if a[0] != b[0] {
        a[0] < b[0]
    } else {
        seq_lt(a.drop_first(), b.drop_first())
    }
}

pub proof fn lemma_seq_lt_irreflexive(a: Seq<char>)
    ensures
        !seq_lt(a, a),
    decreases a.len(),
{
    if a.len() > 0 {
        lemma_seq_lt_irreflexive(a.drop_first());
    }
}

pub proof fn lemma_seq_lt_transitive(a: Seq<char>, b: Seq<char>, c: Seq<char>)
    requires
        seq_lt(a, b),
        seq_lt(b, c),
    ensures
        seq_lt(a, c),
    decreases a.len(),
{
    if a.len() > 0 && b.len() > 0 && c.len() > 0 && a[0] == b[0] && b[0] == c[0] {
        lemma_seq_lt_transitive(a.drop_first(), b.drop_first(), c.drop_first());
    }
}

pub proof fn lemma_seq_lt_total(a: Seq<char>, b: Seq<char>)
    ensures
        a == b || seq_lt(a, b) || seq_lt(b, a),
    decreases a.len(),
{
    if a.len() > 0 && b.len() > 0 && a[0] == b[0] {
        lemma_seq_lt_total(a.drop_first(), b.drop_first());
        if a.drop_first() == b.drop_first() {
            assert(a =~= seq![a[0]] + a.drop_first());
            assert(b =~= seq![b[0]] + b.drop_first());
        }
    } else if a.len() == 0 && b.len() == 0 {
        assert(a =~= b);
    }
}

/// `a` sorts strictly before `b`.
pub fn chars_lt(a: &[char], b: &[char]) -> (r: bool)
    ensures
        r == seq_lt(a@, b@),
{
    let mut i: usize = 0;
    assert(a@.subrange(0, a@.len() as int) =~= a@);
    assert(b@.subrange(0, b@.len() as int) =~= b@);
    while i < a.len() && i < b.len() && a[i] == b[i]
        invariant
            i <= a@.len(),
            i <= b@.len(),
            forall|k: int| 0 <= k < i ==> a@[k] == b@[k],
            seq_lt(a@, b@) == seq_lt(a@.subrange(i as int, a@.len() as int), b@.subrange(i as int, b@.len() as int)),
        decreases a.len() - i,
    {
        proof {
            let sa = a@.subrange(i as int, a@.len() as int);
            let sb = b@.subrange(i as int, b@.len() as int);
            assert(sa.drop_first() =~= a@.subrange(i + 1, a@.len() as int));
            assert(sb.drop_first() =~= b@.subrange(i + 1, b@.len() as int));
        }
        i = i + 1;
    }
    if i == a.len() {
        i < b.len()
    } else if i == b.len() {
        false
    } else {
        a[i] < b[i]
    }
}

/// The names held by a vector of strings.
pub open spec fn names(v: Seq<String>) -> Seq<Seq<char>> {
    v.map_values(|s: String| s@)
}

/// Strictly increasing in [`seq_lt`]: sorted, with no name twice.
pub open spec fn strictly_sorted(s: Seq<Seq<char>>) -> bool {
    forall|i: int, j: int| 0 <= i < j < s.len() ==> seq_lt(#[trigger] s[i], #[trigger] s[j])
}

/// Insert `name` into the sorted name set `set` (a no-op if it is there).
pub fn insert_name(set: &mut Vec<String>, name: &str)
    requires
        strictly_sorted(names(old(set)@)),
    ensures
        strictly_sorted(names(final(set)@)),
        names(final(set)@).to_set() == names(old(set)@).to_set().insert(name@),
{
    let ghost old_names = names(set@);
    let nc = chars_of(name);
    let mut k: usize = 0;
    while k < set.len()
        invariant
            set@ == old(set)@,
            old_names == names(set@),
            strictly_sorted(old_names),
            nc@ == name@,
            k <= set@.len(),
            forall|i: int| 0 <= i < k ==> seq_lt(#[trigger] old_names[i], name@),
        ensures
            set@ == old(set)@,
            k <= set@.len(),
            forall|i: int| 0 <= i < k ==> seq_lt(#[trigger] old_names[i], name@),
            k < set@.len() ==> seq_lt(name@, old_names[k as int]),
        decreases set.len() - k,
    {
        let cur = chars_of(set[k].as_str());
        assert(cur@ == old_names[k as int]);
        if chars_eq(cur.as_slice(), nc.as_slice()) {
            proof {
                assert(old_names.to_set().contains(name@));
                assert(old_names.to_set().insert(name@) =~= old_names.to_set());
            }
            return;
        }
        if !chars_lt(cur.as_slice(), nc.as_slice()) {
            proof {
                lemma_seq_lt_total(old_names[k as int], name@);
            }
            break;
        }
        k = k + 1;
    }
    proof {
        assert forall|j: int| k <= j < old_names.len() implies seq_lt(name@, #[trigger] old_names[j]) by {
            if j > k {
                lemma_seq_lt_transitive(name@, old_names[k as int], old_names[j]);
            }
        }
    }
    set.insert(k, String::from_str(name));
    proof {
        let nn = names(set@);
        assert(nn =~= old_names.insert(k as int, name@));
        assert forall|i: int, j: int| 0 <= i < j < nn.len() implies seq_lt(#[trigger] nn[i], #[trigger] nn[j]) by {
            if i < k && j < k {
                assert(nn[i] == old_names[i] && nn[j] == old_names[j]);
            } else if i < k && j == k {
            } else if i < k {
                assert(nn[j] == old_names[j - 1]);
                lemma_seq_lt_transitive(old_names[i], name@, old_names[j - 1]);
            } else if i == k {
                assert(nn[j] == old_names[j - 1]);
            } else {
                assert(nn[i] == old_names[i - 1] && nn[j] == old_names[j - 1]);
            }
        }
        assert(nn.to_set() =~= old_names.to_set().insert(name@)) by {
            assert forall|x: Seq<char>| nn.to_set().contains(x) implies old_names.to_set().insert(name@).contains(x) by {
                let i = choose|i: int| 0 <= i < nn.len() && nn[i] == x;
                if i < k {
                    assert(old_names[i] == x);
                } else if i > k {
                    assert(old_names[i - 1] == x);
                }
            }
            assert forall|x: Seq<char>| old_names.to_set().insert(name@).contains(x) implies nn.to_set().contains(x) by {
                if x == name@ {
                    assert(nn[k as int] == x);
                } else {
                    let i = choose|i: int| 0 <= i < old_names.len() && old_names[i] == x;
                    if i < k {
                        assert(nn[i] == x);
                    } else {
                        assert(nn[i + 1] == x);
                    }
                }
            }
        }
    }
}

/// The decimal digits of `n`.
pub open spec fn decimal_spec(n: nat) -> Seq<char>
    decreases n,
{
    if n < 10 {
        seq![(n + 48) as char]
    } else {
        decimal_spec(n / 10).push(((n % 10) + 48) as char)
    }
}

/// `n` written in decimal.
pub fn decimal(n: u64) -> (r: String)
    ensures
        r@ == decimal_spec(n as nat),
    decreases n,
{
    if n < 10 {
        let mut s = String::new();
        push_char(&mut s, ((n + 48) as u8) as char);
        assert(s@ =~= decimal_spec(n as nat));
        s
    } else {
        let mut s = decimal(n / 10);
        push_char(&mut s, (((n % 10) + 48) as u8) as char);
        s
    }
}

} // verus!
