use vstd::prelude::*;

verus! {

/// The decimal digit character for `d < 10`.
pub open spec fn digit_char(d: nat) -> char {
    if d == 0 {
        '0'
    } else if d == 1 {
        '1'
    } else if d == 2 {
        '2'
    } else if d == 3 {
        '3'
    } else if d == 4 {
        '4'
    } else if d == 5 {
        '5'
    } else if d == 6 {
        '6'
    } else if d == 7 {
        '7'
    } else if d == 8 {
        '8'
    } else {
        '9'
    }
}

/// The decimal representation of `n`, without leading zeros.
pub open spec fn decimal(n: nat) -> Seq<char>
    decreases n,
{
    if n < 10 {
        seq![digit_char(n)]
    } else {
        decimal(n / 10).push(digit_char(n % 10))
    }
}

fn digit_str(d: u64) -> (s: &'static str)
    requires
        d < 10,
    ensures
        s@ == seq![digit_char(d as nat)],
{
    proof {
        reveal_strlit("0");
        reveal_strlit("1");
        reveal_strlit("2");
        reveal_strlit("3");
        reveal_strlit("4");
        reveal_strlit("5");
        reveal_strlit("6");
        reveal_strlit("7");
        reveal_strlit("8");
        reveal_strlit("9");
    }
    if d == 0 {
        "0"
    } else if d == 1 {
        "1"
    } else if d == 2 {
        "2"
    } else if d == 3 {
        "3"
    } else if d == 4 {
        "4"
    } else if d == 5 {
        "5"
    } else if d == 6 {
        "6"
    } else if d == 7 {
        "7"
    } else if d == 8 {
        "8"
    } else {
        "9"
    }
}

/// Append the decimal representation of `n` to `s`.
pub fn push_decimal(s: &mut String, n: u64)
    ensures
        final(s)@ == old(s)@ + decimal(n as nat),
    decreases n,
{
    if n < 10 {
        s.append(digit_str(n));
    } else {
        push_decimal(s, n / 10);
        s.append(digit_str(n % 10));
        proof {
            assert(decimal(n as nat) == decimal((n / 10) as nat).push(digit_char((n % 10) as nat)));
        }
    }
}

proof fn lemma_digit_char_injective(a: nat, b: nat)
    requires
        a < 10,
        b < 10,
        digit_char(a) == digit_char(b),
    ensures
        a == b,
{
}

/// Distinct numbers have distinct decimal representations.
pub proof fn lemma_decimal_injective(a: nat, b: nat)
    requires
        decimal(a) == decimal(b),
    ensures
        a == b,
    decreases a,
{
    if a < 10 && b < 10 {
        assert(decimal(a) == seq![digit_char(a)]);
        assert(decimal(b) == seq![digit_char(b)]);
        assert(seq![digit_char(a)][0] == digit_char(a));
        assert(seq![digit_char(b)][0] == digit_char(b));
        lemma_digit_char_injective(a, b);
    } else if a >= 10 && b >= 10 {
        let da = decimal(a);
        let db = decimal(b);
        assert(da.last() == digit_char(a % 10));
        assert(db.last() == digit_char(b % 10));
        lemma_digit_char_injective(a % 10, b % 10);
        assert(da.drop_last() == decimal(a / 10));
        assert(db.drop_last() == decimal(b / 10));
        lemma_decimal_injective(a / 10, b / 10);
    } else if a < 10 {
        lemma_decimal_len_ge2(b);
    } else {
        lemma_decimal_len_ge2(a);
    }
}

proof fn lemma_decimal_len_ge2(n: nat)
    requires
        n >= 10,
    ensures
        decimal(n).len() >= 2,
    decreases n,
{
    lemma_decimal_nonempty(n / 10);
}

/// A decimal representation has at least one digit.
pub proof fn lemma_decimal_nonempty(n: nat)
    ensures
        decimal(n).len() >= 1,
    decreases n,
{
    if n >= 10 {
        lemma_decimal_nonempty(n / 10);
    }
}

// ---------------------------------------------------------------------------
// Prefixes, suffixes, whitespace
// ---------------------------------------------------------------------------

/// `s` begins with `p`.
pub open spec fn starts_with(s: Seq<char>, p: Seq<char>) -> bool {
    p.len() <= s.len() && s.take(p.len() as int) == p
}

/// `s` ends with `p`.
pub open spec fn ends_with(s: Seq<char>, p: Seq<char>) -> bool {
    p.len() <= s.len() && s.skip(s.len() - p.len()) == p
}

/// Whether `s` begins with `p`.
pub fn has_prefix(s: &str, p: &str) -> (b: bool)
    ensures
        b == starts_with(s@, p@),
{
    let n = s.unicode_len();
    let m = p.unicode_len();
    if m > n {
        return false;
    }
    let mut i: usize = 0;
    while i < m
        invariant
            m <= n,
            n == s@.len(),
            m == p@.len(),
            i <= m,
            forall|k: int| 0 <= k < i ==> s@[k] == p@[k],
        decreases m - i,
    {
        if s.get_char(i) != p.get_char(i) {
            return false;
        }
        i = i + 1;
    }
    assert(s@.take(m as int) =~= p@);
    true
}

/// Whether `s` ends with `p`.
pub fn has_suffix(s: &str, p: &str) -> (b: bool)
    ensures
        b == ends_with(s@, p@),
{
    let n = s.unicode_len();
    let m = p.unicode_len();
    if m > n {
        return false;
    }
    let d = n - m;
    let mut i: usize = 0;
    while i < m
        invariant
            m <= n,
            d == n - m,
            n == s@.len(),
            m == p@.len(),
            i <= m,
            forall|k: int| 0 <= k < i ==> s@[d + k] == p@[k],
        decreases m - i,
    {
        if s.get_char(d + i) != p.get_char(i) {
            assert(s@.skip(d as int)[i as int] != p@[i as int]);
            return false;
        }
        i = i + 1;
    }
    assert(s@.skip(d as int) =~= p@);
    true
}

/// The characters `s[from..to]` as a new string.
pub fn slice_chars(s: &str, from: usize, to: usize) -> (r: String)
    requires
        from <= to <= s@.len(),
    ensures
        r@ == s@.subrange(from as int, to as int),
{
    String::from_str(s.substring_char(from, to))
}

/// The first position at or after `i` where `pat` occurs in `s`.
pub open spec fn find_from(s: Seq<char>, pat: Seq<char>, i: int) -> Option<int>
    decreases s.len() + 1 - i,
{
    if i < 0 || i + pat.len() > s.len() {
        None
    } else if s.subrange(i, i + pat.len()) == pat {
        Some(i)
    } else {
        find_from(s, pat, i + 1)
    }
}

proof fn lemma_find_from_bounds(s: Seq<char>, pat: Seq<char>, i: int)
    ensures
        find_from(s, pat, i) matches Some(k) ==> i <= k && k + pat.len() <= s.len() && s.subrange(
            k,
            k + pat.len(),
        ) == pat,
    decreases s.len() + 1 - i,
{
    if 0 <= i && i + pat.len() <= s.len() && s.subrange(i, i + pat.len()) != pat {
        lemma_find_from_bounds(s, pat, i + 1);
    }
}

/// The first position where `pat` occurs in `s`.
pub fn find_str(s: &str, pat: &str) -> (r: Option<usize>)
    ensures
        r matches Some(k) ==> k + pat@.len() <= s@.len() && s@.subrange(k as int, k + pat@.len()) == pat@,
        match r {
            Some(k) => find_from(s@, pat@, 0) == Some(k as int),
            None => find_from(s@, pat@, 0) is None,
        },
{
    let n = s.unicode_len();
    let m = pat.unicode_len();
    if m > n {
        return None;
    }
    let mut i: usize = 0;
    while i <= n - m
        invariant
            n == s@.len(),
            m == pat@.len(),
            m <= n,
            i <= n - m + 1,
            find_from(s@, pat@, 0) == find_from(s@, pat@, i as int),
        decreases n - i,
    {
        let mut j: usize = 0;
        let mut same = true;
        while j < m
            invariant
                n == s@.len(),
                m == pat@.len(),
                i + m <= n,
                j <= m,
                same == (forall|k: int| 0 <= k < j ==> s@[i + k] == pat@[k]),
            decreases m - j,
        {
            if s.get_char(i + j) != pat.get_char(j) {
                same = false;
            }
            j = j + 1;
        }
        proof {
            if same {
                assert(s@.subrange(i as int, i + m) =~= pat@);
            } else {
                let k = choose|k: int| 0 <= k < m && s@[i + k] != pat@[k];
                assert(s@.subrange(i as int, i + m)[k] != pat@[k]);
            }
        }
        if same {
            proof {
                lemma_find_from_bounds(s@, pat@, i as int);
            }
            return Some(i);
        }
        i = i + 1;
    }
    None
}

/// Whether `c` has the Unicode `White_Space` property.
pub uninterp spec fn whitespace(c: char) -> bool;

/// `char::is_whitespace`: true for characters with the Unicode `White_Space`
/// property.  Stated here: the result is that named property of `c`; on ASCII
/// characters it holds exactly of space, tab, line feed, vertical tab, form
/// feed and carriage return, as the documentation lists.  What it is on other
/// characters is left to the Unicode tables.
#[verifier::external_body]
fn is_whitespace(c: char) -> (b: bool)
    ensures
        b == whitespace(c),
        (c as u32) < 128 ==> (b == (c == ' ' || c == '\t' || c == '\n' || c == '\u{b}' || c == '\u{c}'
            || c == '\r')),
{
    c.is_whitespace()
}

/// The index of the first character of `s` at or after `i` that is not
/// whitespace (or the end).
pub open spec fn skip_white(s: Seq<char>, i: int) -> int
    decreases s.len() - i,
{
    if i < 0 || i >= s.len() || !whitespace(s[i]) {
        i
    } else {
        skip_white(s, i + 1)
    }
}

/// The index just after the last character of `s[..j]` that is not
/// whitespace (or 0).
pub open spec fn trim_end_at(s: Seq<char>, j: int) -> int
    decreases j,
{
    if j <= 0 || j > s.len() || !whitespace(s[j - 1]) {
        j
    } else {
        trim_end_at(s, j - 1)
    }
}

proof fn lemma_skip_white_bounds(s: Seq<char>, i: int)
    requires
        0 <= i <= s.len(),
    ensures
        i <= skip_white(s, i) <= s.len(),
    decreases s.len() - i,
{
    if i < s.len() && whitespace(s[i]) {
        lemma_skip_white_bounds(s, i + 1);
    }
}

proof fn lemma_trim_end_bounds(s: Seq<char>, j: int)
    requires
        0 <= j <= s.len(),
    ensures
        0 <= trim_end_at(s, j) <= j,
    decreases j,
{
    if j > 0 && whitespace(s[j - 1]) {
        lemma_trim_end_bounds(s, j - 1);
    }
}

/// `s` without leading and trailing whitespace (`str::trim`).
pub open spec fn trimmed(s: Seq<char>) -> Seq<char> {
    let a = skip_white(s, 0);
    let b = trim_end_at(s, s.len() as int);
    if a < b {
        s.subrange(a, b)
    } else {
        Seq::empty()
    }
}

/// `s` without leading and trailing whitespace.
pub fn trim(s: &str) -> (r: String)
    ensures
        r@ == trimmed(s@),
{
    let n = s.unicode_len();
    proof {
        lemma_skip_white_bounds(s@, 0);
        lemma_trim_end_bounds(s@, n as int);
    }
    let mut a: usize = 0;
    while a < n && is_whitespace(s.get_char(a))
        invariant
            n == s@.len(),
            a <= n,
            skip_white(s@, 0) == skip_white(s@, a as int),
        decreases n - a,
    {
        a = a + 1;
    }
    let mut b: usize = n;
    while b > 0 && is_whitespace(s.get_char(b - 1))
        invariant
            n == s@.len(),
            b <= n,
            trim_end_at(s@, n as int) == trim_end_at(s@, b as int),
        decreases b,
    {
        b = b - 1;
    }
    if a < b {
        slice_chars(s, a, b)
    } else {
        String::new()
    }
}

/// Whether `s` spells the literal `lit`.
pub fn spells(s: &String, lit: &str) -> (b: bool)
    ensures
        b == (s@ == lit@),
{
    *s == String::from_str(lit)
}

// ---------------------------------------------------------------------------
// Ordering and sorting strings
// ---------------------------------------------------------------------------

/// `a` sorts no later than `b`: the order of `str`, character by character
/// by code point (which is also the order of their UTF-8 bytes).
pub open spec fn lex_le(a: Seq<char>, b: Seq<char>) -> bool
    decreases a.len(),
{
    if a.len() == 0 {
        true
    } else if b.len() == 0 {
        false
    } else if (a[0] as u32) != (b[0] as u32) {
        (a[0] as u32) < (b[0] as u32)
    } else {
        lex_le(a.skip(1), b.skip(1))
    }
}

/// Any two strings are ordered one way or the other.
pub proof fn lemma_lex_total(a: Seq<char>, b: Seq<char>)
    ensures
        lex_le(a, b) || lex_le(b, a),
    decreases a.len(),
{
    if a.len() > 0 && b.len() > 0 && (a[0] as u32) == (b[0] as u32) {
        lemma_lex_total(a.skip(1), b.skip(1));
    }
}

/// The order is transitive.
pub proof fn lemma_lex_trans(a: Seq<char>, b: Seq<char>, c: Seq<char>)
    requires
        lex_le(a, b),
        lex_le(b, c),
    ensures
        lex_le(a, c),
    decreases a.len(),
{
    if a.len() > 0 && b.len() > 0 && c.len() > 0 && (a[0] as u32) == (b[0] as u32) && (b[0] as u32)
        == (c[0] as u32) {
        lemma_lex_trans(a.skip(1), b.skip(1), c.skip(1));
    }
}

/// The strings of a list are in order.
pub open spec fn sorted(s: Seq<Seq<char>>) -> bool {
    forall|i: int, j: int| 0 <= i < j < s.len() ==> lex_le(#[trigger] s[i], #[trigger] s[j])
}

/// Whether `a` sorts no later than `b`.
pub fn lex_le_exec(a: &str, b: &str) -> (r: bool)
    ensures
        r == lex_le(a@, b@),
{
    let n = a.unicode_len();
    let m = b.unicode_len();
    let mut i: usize = 0;
    proof {
        assert(a@.skip(0) =~= a@);
        assert(b@.skip(0) =~= b@);
    }
    while i < n && i < m
        invariant
            n == a@.len(),
            m == b@.len(),
            i <= n,
            i <= m,
            lex_le(a@, b@) == lex_le(a@.skip(i as int), b@.skip(i as int)),
        decreases n - i,
    {
        let x = a.get_char(i) as u32;
        let y = b.get_char(i) as u32;
        if x != y {
            return x < y;
        }
        proof {
            assert(a@.skip(i as int).skip(1) =~= a@.skip(i + 1));
            assert(b@.skip(i as int).skip(1) =~= b@.skip(i + 1));
        }
        i = i + 1;
    }
    i == n
}

/// The strings of `v` in order.
pub fn sort_strings(v: Vec<String>) -> (r: Vec<String>)
    ensures
        sorted(strings_view(r@)),
        strings_view(r@).to_multiset() == strings_view(v@).to_multiset(),
{
    broadcast use vstd::seq_lib::group_to_multiset_ensures;

    let mut out: Vec<String> = Vec::new();
    let mut i: usize = 0;
    while i < v.len()
        invariant
            i <= v@.len(),
            sorted(strings_view(out@)),
            strings_view(out@).to_multiset() == strings_view(v@).take(i as int).to_multiset(),
        decreases v@.len() - i,
    {
        let x = v[i].clone();
        let mut pos: usize = 0;
        while pos < out.len() && lex_le_exec(out[pos].as_str(), x.as_str())
            invariant
                pos <= out@.len(),
                forall|k: int| 0 <= k < pos ==> lex_le(#[trigger] out@[k]@, x@),
            decreases out@.len() - pos,
        {
            pos = pos + 1;
        }
        let ghost before = strings_view(out@);
        out.insert(pos, x);
        proof {
            let after = strings_view(out@);
            let xv = v@[i as int]@;
            assert(after =~= before.insert(pos as int, xv));
            assert forall|a: int, b: int| 0 <= a < b < after.len() implies lex_le(#[trigger] after[a], #[trigger] after[b]) by {
                if a < pos && b == pos {
                    assert(lex_le(out@[a]@, xv));
                } else if a == pos {
                    assert(pos < before.len());
                    assert(!lex_le(before[pos as int], xv));
                    lemma_lex_total(before[pos as int], xv);
                    if b > pos + 1 {
                        lemma_lex_trans(xv, before[pos as int], before[b - 1]);
                    }
                } else if a < pos && b > pos {
                    assert(lex_le(before[a], before[b - 1]));
                } else if a > pos {
                    assert(lex_le(before[a - 1], before[b - 1]));
                } else {
                    assert(lex_le(before[a], before[b]));
                }
            }
            assert(strings_view(v@).take(i + 1) =~= strings_view(v@).take(i as int).push(xv));
            vstd::seq_lib::to_multiset_insert(before, pos as int, xv);
            vstd::seq_lib::to_multiset_build(strings_view(v@).take(i as int), xv);
            assert(after.to_multiset() == before.to_multiset().insert(xv));
            assert(strings_view(v@).take(i + 1).to_multiset() == strings_view(v@).take(i as int).to_multiset().insert(xv));
        }
        i = i + 1;
    }
    proof {
        assert(strings_view(v@).take(v@.len() as int) =~= strings_view(v@));
    }
    out
}

/// The texts of a list of strings.
pub open spec fn strings_view(ss: Seq<String>) -> Seq<Seq<char>> {
    Seq::new(ss.len(), |i: int| ss[i]@)
}

} // verus!
