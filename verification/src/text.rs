//! Text as sequences of characters: order, search and small builders.

use vstd::prelude::*;
use vstd::utf8::*;
use vstd::string::*;

verus! {

/// Appends one character to a string: `String::push`.
pub assume_specification[ String::push ](s: &mut String, c: char)
    ensures
        final(s)@ == old(s)@.push(c),
;

// ---------------------------------------------------------------------
// Order
// ---------------------------------------------------------------------

/// `a` and `b` hold the same bytes before position `i`.
pub open spec fn agree_until(a: Seq<u8>, b: Seq<u8>, i: int) -> bool {
    &&& 0 <= i <= a.len()
    &&& i <= b.len()
    &&& forall|j: int| 0 <= j < i ==> a[j] == b[j]
}

/// `a` comes before `b` when bytes are compared one by one from the left, a proper
/// prefix coming first.
pub open spec fn bytes_lt(a: Seq<u8>, b: Seq<u8>) -> bool {
    exists|i: int| #[trigger]
        agree_until(a, b, i) && i < b.len() && (i == a.len() || a[i] < b[i])
}

/// The order of strings: the order of their UTF-8 bytes.
pub open spec fn text_lt(a: Seq<char>, b: Seq<char>) -> bool {
    bytes_lt(encode_utf8(a), encode_utf8(b))
}

/// `a` comes before `b` or equals it.
pub open spec fn text_le(a: Seq<char>, b: Seq<char>) -> bool {
    a == b || text_lt(a, b)
}

/// The keys are in strictly ascending order, so none occurs twice.
pub open spec fn strictly_ascending(keys: Seq<Seq<char>>) -> bool {
    forall|i: int, j: int| 0 <= i < j < keys.len() ==> #[trigger] text_lt(keys[i], keys[j])
}

/// Two strings with the same bytes are the same string.
pub proof fn lemma_encode_injective(a: Seq<char>, b: Seq<char>)
    requires
        encode_utf8(a) == encode_utf8(b),
    ensures
        a == b,
{
    encode_utf8_decode_utf8(a);
    encode_utf8_decode_utf8(b);
}

proof fn lemma_bytes_total(a: Seq<u8>, b: Seq<u8>, i: int)
    requires
        agree_until(a, b, i),
        a != b,
    ensures
        bytes_lt(a, b) || bytes_lt(b, a),
    decreases a.len() - i,
{
    assert(agree_until(b, a, i));
    if i == a.len() {
        assert(i < b.len()) by {
            if i == b.len() {
                assert(a =~= b);
            }
        }
    } else if i < b.len() && a[i] == b[i] {
        lemma_bytes_total(a, b, i + 1);
    }
}

/// No string comes before itself.
pub proof fn lemma_text_lt_irreflexive(a: Seq<char>)
    ensures
        !text_lt(a, a),
{
}

/// The order of strings is transitive.
pub proof fn lemma_text_lt_transitive(a: Seq<char>, b: Seq<char>, c: Seq<char>)
    requires
        text_lt(a, b),
        text_lt(b, c),
    ensures
        text_lt(a, c),
{
    let x = encode_utf8(a);
    let y = encode_utf8(b);
    let z = encode_utf8(c);
    let i = choose|i: int| #[trigger]
        agree_until(x, y, i) && i < y.len() && (i == x.len() || x[i] < y[i]);
    let k = choose|k: int| #[trigger]
        agree_until(y, z, k) && k < z.len() && (k == y.len() || y[k] < z[k]);
    if i <= k {
        assert(agree_until(x, z, i));
    } else {
        assert(agree_until(x, z, k));
    }
}

/// Of two different strings one comes before the other.
pub proof fn lemma_text_lt_total(a: Seq<char>, b: Seq<char>)
    ensures
        a == b || text_lt(a, b) || text_lt(b, a),
{
    if a != b {
        if encode_utf8(a) == encode_utf8(b) {
            lemma_encode_injective(a, b);
        }
        assert(agree_until(encode_utf8(a), encode_utf8(b), 0));
        lemma_bytes_total(encode_utf8(a), encode_utf8(b), 0);
    }
}

/// Two strings cannot each come before the other.
pub proof fn lemma_text_lt_asymmetric(a: Seq<char>, b: Seq<char>)
    requires
        text_lt(a, b),
    ensures
        !text_lt(b, a),
        a != b,
{
    lemma_text_lt_irreflexive(a);
    if text_lt(b, a) {
        lemma_text_lt_transitive(a, b, a);
    }
}

/// Whether `a` comes before `b`.
pub fn text_less(a: &str, b: &str) -> (r: bool)
    ensures
        r == text_lt(a@, b@),
{
    let x: &[u8] = a.as_bytes();
    let y: &[u8] = b.as_bytes();
    let mut i: usize = 0;
    while i < x.len() && i < y.len() && x[i] == y[i]
        invariant
            agree_until(x@, y@, i as int),
        decreases x.len() - i,
    {
        i += 1;
    }
    proof {
        assert(x@ == encode_utf8(a@));
        assert(y@ == encode_utf8(b@));
    }
    if i >= y.len() {
        proof {
            if bytes_lt(x@, y@) {
                let k = choose|k: int| #[trigger]
                    agree_until(x@, y@, k) && k < y@.len() && (k == x@.len() || x@[k] < y@[k]);
                assert(x@[k] == y@[k]);
            }
        }
        false
    } else if i >= x.len() {
        true
    } else {
        proof {
            if bytes_lt(x@, y@) {
                let k = choose|k: int| #[trigger]
                    agree_until(x@, y@, k) && k < y@.len() && (k == x@.len() || x@[k] < y@[k]);
                assert(k == i) by {
                    if k < i {
                        assert(x@[k] == y@[k]);
                    }
                    if i < k {
                        assert(x@[i as int] == y@[i as int]);
                    }
                }
            }
        }
        x[i] < y[i]
    }
}

/// Whether two strings are the same.
pub fn text_eq(a: &str, b: &str) -> (r: bool)
    ensures
        r == (a@ == b@),
{
    let x: &[u8] = a.as_bytes();
    let y: &[u8] = b.as_bytes();
    if x.len() != y.len() {
        return false;
    }
    let mut i: usize = 0;
    while i < x.len()
        invariant
            x@.len() == y@.len(),
            x@ == encode_utf8(a@),
            y@ == encode_utf8(b@),
            agree_until(x@, y@, i as int),
        decreases x.len() - i,
    {
        if x[i] != y[i] {
            return false;
        }
        i += 1;
    }
    proof {
        assert(x@ =~= y@);
        lemma_encode_injective(a@, b@);
    }
    true
}

// ---------------------------------------------------------------------
// Characters
// ---------------------------------------------------------------------

/// The characters of a string.
pub fn chars_of(s: &str) -> (r: Vec<char>)
    ensures
        r@ == s@,
{
    let mut out: Vec<char> = Vec::new();
    for c in it: s.chars()
        invariant
            out@ == it.seq().take(it.index() as int),
            it.seq() == s@,
    {
        out.push(c);
    }
    out
}

/// The string made of the characters `from..to` of `chars`.
pub fn string_of(chars: &Vec<char>, from: usize, to: usize) -> (r: String)
    requires
        from <= to <= chars@.len(),
    ensures
        r@ == chars@.subrange(from as int, to as int),
{
    let mut out = String::new();
    let mut i: usize = from;
    while i < to
        invariant
            from <= i <= to <= chars@.len(),
            out@ == chars@.subrange(from as int, i as int),
        decreases to - i,
    {
        out.push(chars[i]);
        i += 1;
    }
    out
}

// ---------------------------------------------------------------------
// Search
// ---------------------------------------------------------------------

/// `pat` stands in `s` at position `i`.
pub open spec fn matches_at(s: Seq<char>, pat: Seq<char>, i: int) -> bool {
    &&& 0 <= i
    &&& i + pat.len() <= s.len()
    &&& s.subrange(i, i + pat.len()) == pat
}

/// The first position from `from` on at which `pat` stands in `s`.
pub open spec fn first_match(s: Seq<char>, pat: Seq<char>, from: int) -> Option<int>
    decreases s.len() + 1 - from,
{
    if from + pat.len() > s.len() {
        None
    } else if matches_at(s, pat, from) {
        Some(from)
    } else {
        first_match(s, pat, from + 1)
    }
}

/// The first position from `from` on that holds `c`.
pub open spec fn first_char(s: Seq<char>, c: char, from: int) -> Option<int>
    decreases s.len() - from,
{
    if from >= s.len() {
        None
    } else if s[from] == c {
        Some(from)
    } else {
        first_char(s, c, from + 1)
    }
}

/// What `first_match` finds is a match, and the first one.
pub proof fn lemma_first_match(s: Seq<char>, pat: Seq<char>, from: int)
    requires
        0 <= from,
    ensures
        first_match(s, pat, from) matches Some(k) ==> from <= k && matches_at(s, pat, k) && (
        forall|i: int| from <= i < k ==> !matches_at(s, pat, i)),
        first_match(s, pat, from) is None ==> (forall|i: int|
            from <= i ==> !matches_at(s, pat, i)),
    decreases s.len() + 1 - from,
{
    if from + pat.len() <= s.len() && !matches_at(s, pat, from) {
        lemma_first_match(s, pat, from + 1);
    }
}

/// What `first_char` finds holds the character, and no position before it does.
pub proof fn lemma_first_char(s: Seq<char>, c: char, from: int)
    requires
        0 <= from,
    ensures
        first_char(s, c, from) matches Some(k) ==> from <= k < s.len() && s[k] == c && (forall|
            i: int,
        |
            from <= i < k ==> s[i] != c),
        first_char(s, c, from) is None ==> (forall|i: int| from <= i < s.len() ==> s[i] != c),
    decreases s.len() - from,
{
    if from < s.len() && s[from] != c {
        lemma_first_char(s, c, from + 1);
    }
}

fn stands_at(s: &Vec<char>, pat: &Vec<char>, i: usize) -> (r: bool)
    requires
        i + pat@.len() <= s@.len(),
    ensures
        r == matches_at(s@, pat@, i as int),
{
    let n: usize = s.len();
    let mut k: usize = 0;
    while k < pat.len()
        invariant
            n == s@.len(),
            k <= pat@.len(),
            i + pat@.len() <= s@.len(),
            forall|j: int| 0 <= j < k ==> s@[i + j] == pat@[j],
        decreases pat.len() - k,
    {
        if s[i + k] != pat[k] {
            proof {
                assert(s@.subrange(i as int, i + pat@.len())[k as int] == s@[i + k]);
            }
            return false;
        }
        k += 1;
    }
    proof {
        assert(s@.subrange(i as int, i + pat@.len()) =~= pat@);
    }
    true
}

/// The first position from `from` on at which `pat` stands in `s`.
pub fn find_match(s: &Vec<char>, pat: &Vec<char>, from: usize) -> (r: Option<usize>)
    requires
        from <= s@.len(),
    ensures
        match r {
            Some(k) => first_match(s@, pat@, from as int) == Some(k as int),
            None => first_match(s@, pat@, from as int) is None,
        },
{
    let mut i: usize = from;
    while i <= s.len() && pat.len() <= s.len() - i
        invariant
            from <= i,
            i <= s@.len() + 1,
            first_match(s@, pat@, from as int) == first_match(s@, pat@, i as int),
        decreases s.len() + 1 - i,
    {
        if stands_at(s, pat, i) {
            return Some(i);
        }
        if i == s.len() {
            proof {
                assert(first_match(s@, pat@, i + 1) is None);
            }
            return None;
        }
        i += 1;
    }
    None
}

/// The first position from `from` on that holds `c`.
pub fn find_char(s: &Vec<char>, c: char, from: usize) -> (r: Option<usize>)
    ensures
        match r {
            Some(k) => first_char(s@, c, from as int) == Some(k as int),
            None => first_char(s@, c, from as int) is None,
        },
{
    let mut i: usize = from;
    while i < s.len()
        invariant
            from <= i,
            first_char(s@, c, from as int) == first_char(s@, c, i as int),
        decreases s.len() - i,
    {
        if s[i] == c {
            return Some(i);
        }
        i += 1;
    }
    None
}

// ---------------------------------------------------------------------
// Optional texts
// ---------------------------------------------------------------------

/// The text of an optional string slice.
pub open spec fn str_view(s: Option<&str>) -> Option<Seq<char>> {
    match s {
        Some(t) => Some(t@),
        None => None,
    }
}

/// The text of an optional string.
pub open spec fn string_view(s: Option<String>) -> Option<Seq<char>> {
    match s {
        Some(t) => Some(t@),
        None => None,
    }
}

/// A string with the text of a slice.
pub fn text_of(s: &str) -> (r: String)
    ensures
        r@ == s@,
{
    let mut out = String::new();
    out.append(s);
    proof {
        assert(Seq::<char>::empty() + s@ =~= s@);
    }
    out
}

// ---------------------------------------------------------------------
// Numbers
// ---------------------------------------------------------------------

/// The digit that stands for a number below ten.
pub open spec fn digit_char(d: nat) -> char {
    ('0' as u32 + d) as char
}

/// A number in decimal digits, without leading zeros.
pub open spec fn decimal(n: nat) -> Seq<char>
    decreases n,
{
    if n < 10 {
        seq![digit_char(n)]
    } else {
        decimal(n / 10).push(digit_char(n % 10))
    }
}

fn digit(d: usize) -> (r: char)
    requires
        d < 10,
    ensures
        r == digit_char(d as nat),
{
    match d {
        0 => '0',
        1 => '1',
        2 => '2',
        3 => '3',
        4 => '4',
        5 => '5',
        6 => '6',
        7 => '7',
        8 => '8',
        _ => '9',
    }
}

/// A number in decimal digits, without leading zeros.
pub fn decimal_text(n: usize) -> (r: String)
    ensures
        r@ == decimal(n as nat),
    decreases n,
{
    if n < 10 {
        let mut out = String::new();
        out.push(digit(n));
        proof {
            assert(out@ =~= seq![digit_char(n as nat)]);
        }
        out
    } else {
        let mut out: String = decimal_text(n / 10);
        out.push(digit(n % 10));
        out
    }
}

// ---------------------------------------------------------------------
// Replacement
// ---------------------------------------------------------------------

/// `s` from `from` on with every occurrence of `pat` replaced, from the left and without
/// overlaps. The empty text occurs before every character and at the end.
pub open spec fn replaced_from(
    s: Seq<char>,
    pat: Seq<char>,
    with: Seq<char>,
    from: int,
) -> Seq<char>
    decreases s.len() + 1 - from,
{
    if from < 0 || from > s.len() {
        Seq::empty()
    } else if pat.len() == 0 {
        if from == s.len() {
            with
        } else {
            with + seq![s[from]] + replaced_from(s, pat, with, from + 1)
        }
    } else {
        match first_match(s, pat, from) {
            Some(k) => if from <= k && k + pat.len() <= s.len() {
                s.subrange(from, k) + with + replaced_from(s, pat, with, k + pat.len())
            } else {
                Seq::empty()
            },
            None => s.skip(from),
        }
    }
}

/// `s` with every occurrence of `pat` replaced.
pub fn replace_all(s: &str, pat: &str, with: &str) -> (r: String)
    ensures
        r@ == replaced_from(s@, pat@, with@, 0),
{
    let chars: Vec<char> = chars_of(s);
    let pattern: Vec<char> = chars_of(pat);
    let n: usize = chars.len();
    let m: usize = pattern.len();
    let mut out = String::new();
    let mut from: usize = 0;
    let ghost whole = replaced_from(s@, pat@, with@, 0);
    proof {
        assert(Seq::<char>::empty() + whole =~= whole);
    }
    if m == 0 {
        while from < n
            invariant
                chars@ == s@,
                n == s@.len(),
                pat@.len() == 0,
                from <= n,
                whole == replaced_from(s@, pat@, with@, 0),
                whole == out@ + replaced_from(s@, pat@, with@, from as int),
            decreases n - from,
        {
            let ghost before = out@;
            let ghost rest = replaced_from(s@, pat@, with@, from + 1);
            out.append(with);
            out.push(chars[from]);
            proof {
                assert(before + (with@ + seq![s@[from as int]] + rest) =~= (before + with@).push(
                    s@[from as int],
                ) + rest);
            }
            from += 1;
        }
        out.append(with);
        return out;
    }
    while from <= n
        invariant
            chars@ == s@,
            pattern@ == pat@,
            n == s@.len(),
            m == pat@.len(),
            m > 0,
            whole == replaced_from(s@, pat@, with@, 0),
            whole == out@ + replaced_from(s@, pat@, with@, from as int),
            from <= n,
        decreases n + 1 - from,
    {
        proof {
            lemma_first_match(s@, pat@, from as int);
        }
        match find_match(&chars, &pattern, from) {
            Some(k) => {
                let ghost before = out@;
                let ghost rest = replaced_from(s@, pat@, with@, k + m);
                let head: String = string_of(&chars, from, k);
                out.append(head.as_str());
                out.append(with);
                proof {
                    assert(before + (s@.subrange(from as int, k as int) + with@ + rest) =~= before
                        + s@.subrange(from as int, k as int) + with@ + rest);
                }
                from = k + m;
            },
            None => {
                let tail: String = string_of(&chars, from, n);
                proof {
                    assert(s@.subrange(from as int, n as int) =~= s@.skip(from as int));
                }
                out.append(tail.as_str());
                return out;
            },
        }
    }
    out
}

// ---------------------------------------------------------------------
// Laws
// ---------------------------------------------------------------------

/// Of two texts the one with the smaller byte comes first, at the first place where their
/// UTF-8 bytes differ.
pub proof fn law_first_different_byte_decides(a: Seq<char>, b: Seq<char>, i: int)
    requires
        0 <= i < encode_utf8(a).len(),
        i < encode_utf8(b).len(),
        forall|j: int| 0 <= j < i ==> encode_utf8(a)[j] == encode_utf8(b)[j],
        encode_utf8(a)[i] < encode_utf8(b)[i],
    ensures
        text_lt(a, b),
        text_le(a, b),
        !text_lt(b, a),
        !text_le(b, a),
{
    assert(agree_until(encode_utf8(a), encode_utf8(b), i));
    lemma_text_lt_asymmetric(a, b);
}

proof fn lemma_encode_concat(a: Seq<char>, b: Seq<char>)
    ensures
        encode_utf8(a + b) == encode_utf8(a) + encode_utf8(b),
    decreases a.len(),
{
    if a.len() == 0 {
        assert(a + b =~= b);
        assert(encode_utf8(a) + encode_utf8(b) =~= encode_utf8(b));
    } else {
        lemma_encode_concat(a.drop_first(), b);
        assert((a + b).drop_first() =~= a.drop_first() + b);
        assert((a + b)[0] == a[0]);
        assert(encode_utf8(a + b) =~= encode_utf8(a) + encode_utf8(b));
    }
}

/// A text comes before every longer text that it begins.
pub proof fn law_prefix_comes_first(a: Seq<char>, b: Seq<char>)
    requires
        b.len() > 0,
    ensures
        text_lt(a, a + b),
        text_le(a, a + b),
        !text_lt(a + b, a),
        !text_le(a + b, a),
{
    lemma_encode_concat(a, b);
    let x = encode_utf8(a);
    let y = encode_utf8(a + b);
    assert(y.len() > x.len()) by {
        if encode_utf8(b).len() == 0 {
            encode_utf8_decode_utf8(b);
            assert(encode_utf8(b) =~= Seq::<u8>::empty());
            assert(decode_utf8(Seq::<u8>::empty()).len() == 0);
        }
    }
    assert(agree_until(x, y, x.len() as int));
    lemma_text_lt_asymmetric(a, a + b);
}

/// Any two texts are in order one way or the other, and both ways only where they are the
/// same.
pub proof fn law_texts_are_ordered(a: Seq<char>, b: Seq<char>)
    ensures
        text_le(a, b) || text_le(b, a),
        text_le(a, b) && text_le(b, a) <==> a == b,
        text_lt(a, b) <==> text_le(a, b) && a != b,
{
    lemma_text_lt_total(a, b);
    if text_lt(a, b) {
        lemma_text_lt_asymmetric(a, b);
    }
    if text_lt(b, a) {
        lemma_text_lt_asymmetric(b, a);
    }
}

/// A list is in strictly ascending order exactly where each text comes before the next.
pub proof fn law_ascending_step_by_step(keys: Seq<Seq<char>>)
    ensures
        strictly_ascending(keys) <==> forall|i: int|
            0 < i < keys.len() ==> text_lt(keys[i - 1], #[trigger] keys[i]),
{
    if forall|i: int| 0 < i < keys.len() ==> text_lt(keys[i - 1], #[trigger] keys[i]) {
        assert forall|i: int, j: int| 0 <= i < j < keys.len() implies #[trigger] text_lt(
            keys[i],
            keys[j],
        ) by {
            lemma_ascending_from(keys, i, j);
        }
    }
    if strictly_ascending(keys) {
        assert forall|i: int| 0 < i < keys.len() implies text_lt(keys[i - 1], #[trigger] keys[i]) by {
            assert(text_lt(keys[i - 1], keys[i]));
        }
    }
}

proof fn lemma_ascending_from(keys: Seq<Seq<char>>, i: int, j: int)
    requires
        0 <= i < j < keys.len(),
        forall|k: int| 0 < k < keys.len() ==> text_lt(keys[k - 1], #[trigger] keys[k]),
    ensures
        text_lt(keys[i], keys[j]),
    decreases j - i,
{
    assert(text_lt(keys[j - 1], keys[j]));
    if i < j - 1 {
        lemma_ascending_from(keys, i, j - 1);
        lemma_text_lt_transitive(keys[i], keys[j - 1], keys[j]);
    }
}

/// The text of an optional string is that of the string, and there is none where there is no
/// string.
pub proof fn law_optional_texts(s: String, t: &str)
    ensures
        string_view(Some(s)) == Some(s@),
        string_view(None) == None::<Seq<char>>,
        str_view(Some(t)) == Some(t@),
        str_view(None) == None::<Seq<char>>,
{
}

/// A number below ten is written as one digit, and a number with one more digit as the number
/// without it and that digit.
pub proof fn law_decimal_digits(n: nat, d: nat)
    requires
        d < 10,
    ensures
        decimal(d) == seq!["0123456789"@[d as int]],
        n > 0 ==> decimal(10 * n + d) == decimal(n) + decimal(d),
{
    reveal_strlit("0123456789");
    if n > 0 {
        assert((10 * n + d) / 10 == n && (10 * n + d) % 10 == d);
        assert(decimal(10 * n + d) =~= decimal(n) + decimal(d));
    }
}

/// Replacing a text that does not occur changes nothing.
pub proof fn law_nothing_to_replace(s: Seq<char>, pat: Seq<char>, with: Seq<char>)
    requires
        pat.len() > 0,
        forall|k: int|
            0 <= k && k + pat.len() <= s.len() ==> #[trigger] s.subrange(k, k + pat.len()) != pat,
    ensures
        replaced_from(s, pat, with, 0) == s,
{
    lemma_first_match(s, pat, 0);
    if let Some(k) = first_match(s, pat, 0) {
        assert(s.subrange(k, k + pat.len()) == pat);
    }
    assert(s.skip(0) =~= s);
}

proof fn lemma_first_match_shift(s: Seq<char>, pat: Seq<char>, from: int, i: int)
    requires
        0 <= from <= s.len(),
        0 <= i,
    ensures
        match first_match(s.skip(from), pat, i) {
            Some(k) => first_match(s, pat, from + i) == Some(from + k),
            None => first_match(s, pat, from + i) is None,
        },
    decreases s.len() + 1 - from - i,
{
    let t = s.skip(from);
    if i + pat.len() <= t.len() {
        assert(t.subrange(i, i + pat.len()) =~= s.subrange(from + i, from + i + pat.len()));
        if !matches_at(t, pat, i) {
            lemma_first_match_shift(s, pat, from, i + 1);
        }
    }
}

proof fn lemma_replaced_shift(
    s: Seq<char>,
    pat: Seq<char>,
    with: Seq<char>,
    from: int,
    i: int,
)
    requires
        0 <= from <= s.len(),
        0 <= i,
        from + i <= s.len(),
    ensures
        replaced_from(s, pat, with, from + i) == replaced_from(s.skip(from), pat, with, i),
    decreases s.len() + 1 - from - i,
{
    let t = s.skip(from);
    if pat.len() == 0 {
        if i < t.len() {
            lemma_replaced_shift(s, pat, with, from, i + 1);
        }
    } else {
        lemma_first_match(t, pat, i);
        lemma_first_match_shift(s, pat, from, i);
        match first_match(t, pat, i) {
            Some(k) => {
                lemma_replaced_shift(s, pat, with, from, k + pat.len());
                assert(t.subrange(i, k) =~= s.subrange(from + i, from + k));
            },
            None => {
                assert(t.skip(i) =~= s.skip(from + i));
            },
        }
    }
}

/// Replacing a text replaces its first occurrence, and goes on behind it.
pub proof fn law_first_occurrence_is_replaced(
    s: Seq<char>,
    pat: Seq<char>,
    with: Seq<char>,
    k: int,
)
    requires
        pat.len() > 0,
        0 <= k,
        k + pat.len() <= s.len(),
        s.subrange(k, k + pat.len()) == pat,
        forall|i: int| 0 <= i < k ==> #[trigger] s.subrange(i, i + pat.len()) != pat,
    ensures
        replaced_from(s, pat, with, 0) == s.take(k) + with + replaced_from(
            s.skip(k + pat.len()),
            pat,
            with,
            0,
        ),
{
    lemma_first_match(s, pat, 0);
    assert(matches_at(s, pat, k));
    let f = first_match(s, pat, 0)->0;
    if f < k {
        assert(s.subrange(f, f + pat.len()) == pat);
    }
    lemma_replaced_shift(s, pat, with, k + pat.len(), 0);
    assert(s.subrange(0, k) =~= s.take(k));
}

/// The empty text stands before every character and at the end.
pub proof fn law_empty_text_is_replaced(s: Seq<char>, with: Seq<char>)
    ensures
        replaced_from(Seq::empty(), Seq::empty(), with, 0) == with,
        s.len() > 0 ==> replaced_from(s, Seq::empty(), with, 0) == with + s.take(1)
            + replaced_from(s.skip(1), Seq::empty(), with, 0),
{
    if s.len() > 0 {
        lemma_replaced_shift(s, Seq::empty(), with, 1, 0);
        assert(s.take(1) =~= seq![s[0]]);
    }
}

} // verus!
