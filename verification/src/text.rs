use vstd::prelude::*;

verus! {

/// The Unicode `White_Space` property, as `char::is_whitespace` documents it.
pub open spec fn is_white_space(c: char) -> bool {
    let u = c as u32;
    ||| 0x9 <= u <= 0xd
    ||| u == 0x20
    ||| u == 0x85
    ||| u == 0xa0
    ||| u == 0x1680
    ||| 0x2000 <= u <= 0x200a
    ||| u == 0x2028
    ||| u == 0x2029
    ||| u == 0x202f
    ||| u == 0x205f
    ||| u == 0x3000
}

/// Whether `c` is white space.
pub fn white_space(c: char) -> (r: bool)
    ensures
        r == is_white_space(c),
{
    let u = c as u32;
    (0x9 <= u && u <= 0xd) || u == 0x20 || u == 0x85 || u == 0xa0 || u == 0x1680 || (0x2000 <= u
        && u <= 0x200a) || u == 0x2028 || u == 0x2029 || u == 0x202f || u == 0x205f || u == 0x3000
}

/// The characters of `s`, in order.
pub fn chars_of(s: &str) -> (v: Vec<char>)
    ensures
        v@ == s@,
{
    let mut v: Vec<char> = Vec::new();
    for c in it: s.chars()
        invariant
            v@ == it.seq().subrange(0, it.index() as int),
    {
        v.push(c);
    }
    v
}


/// Whether every character of `s` is white space.
pub open spec fn all_white(s: Seq<char>) -> bool {
    forall|i: int| 0 <= i < s.len() ==> is_white_space(#[trigger] s[i])
}

/// `s` without its leading and trailing white space, as `str::trim` gives it.
pub open spec fn trim(s: Seq<char>) -> Seq<char>
    decreases s.len(),
{
    if s.len() > 0 && is_white_space(s.first()) {
        trim(s.drop_first())
    } else if s.len() > 0 && is_white_space(s.last()) {
        trim(s.drop_last())
    } else {
        s
    }
}

/// A trimmed text neither starts nor ends with white space.
proof fn lemma_trim_clean(s: Seq<char>)
    ensures
        trim(s).len() > 0 ==> !is_white_space(trim(s).first()) && !is_white_space(trim(s).last()),
    decreases s.len(),
{
    if s.len() > 0 && is_white_space(s.first()) {
        lemma_trim_clean(s.drop_first());
    } else if s.len() > 0 && is_white_space(s.last()) {
        lemma_trim_clean(s.drop_last());
    }
}

/// Whether `s` cut at `a` and `b` leaves white space only outside and a
/// piece that neither starts nor ends with white space.
pub open spec fn trimmed_at(s: Seq<char>, a: int, b: int) -> bool {
    &&& 0 <= a <= b <= s.len()
    &&& all_white(s.subrange(0, a))
    &&& all_white(s.subrange(b, s.len() as int))
    &&& a < b ==> !is_white_space(s[a]) && !is_white_space(s[b - 1])
}

/// Trimming past white space in front shifts the cut by one.
proof fn lemma_trim_front_case(s: Seq<char>, a: int, b: int)
    requires
        s.len() > 0,
        is_white_space(s.first()),
        trimmed_at(s.drop_first(), a, b),
        s.drop_first().subrange(a, b) == trim(s.drop_first()),
    ensures
        trimmed_at(s, a + 1, b + 1),
        s.subrange(a + 1, b + 1) == trim(s),
{
    let t = s.drop_first();
    assert(s.subrange(a + 1, b + 1) =~= t.subrange(a, b));
    assert forall|i: int| 0 <= i < a + 1 implies is_white_space(#[trigger] s.subrange(0, a + 1)[i]) by {
        if i > 0 {
            assert(s.subrange(0, a + 1)[i] == t.subrange(0, a)[i - 1]);
        }
    }
    assert(s.subrange(b + 1, s.len() as int) =~= t.subrange(b, t.len() as int));
}

/// Trimming past white space at the back keeps the cut.
proof fn lemma_trim_back_case(s: Seq<char>, a: int, b: int)
    requires
        s.len() > 0,
        !is_white_space(s.first()),
        is_white_space(s.last()),
        trimmed_at(s.drop_last(), a, b),
        s.drop_last().subrange(a, b) == trim(s.drop_last()),
    ensures
        trimmed_at(s, a, b),
        s.subrange(a, b) == trim(s),
{
    let t = s.drop_last();
    assert(s.subrange(a, b) =~= t.subrange(a, b));
    assert(s.subrange(0, a) =~= t.subrange(0, a));
    assert forall|i: int| 0 <= i < s.len() - b implies is_white_space(
        #[trigger] s.subrange(b, s.len() as int)[i],
    ) by {
        if i < t.len() - b {
            assert(s.subrange(b, s.len() as int)[i] == t.subrange(b, t.len() as int)[i]);
        } else {
            assert(s.subrange(b, s.len() as int)[i] == s.last());
        }
    }
}

/// The trimmed text is the piece of `s` between white space only, that
/// neither starts nor ends with white space.
pub proof fn law_trim(s: Seq<char>)
    ensures
        exists|a: int, b: int| trimmed_at(s, a, b) && #[trigger] s.subrange(a, b) == trim(s),
    decreases s.len(),
{
    if s.len() > 0 && is_white_space(s.first()) {
        let t = s.drop_first();
        law_trim(t);
        let (a, b) = choose|a: int, b: int| trimmed_at(t, a, b) && #[trigger] t.subrange(a, b) == trim(t);
        lemma_trim_front_case(s, a, b);
    } else if s.len() > 0 && is_white_space(s.last()) {
        let t = s.drop_last();
        law_trim(t);
        let (a, b) = choose|a: int, b: int| trimmed_at(t, a, b) && #[trigger] t.subrange(a, b) == trim(t);
        lemma_trim_back_case(s, a, b);
    } else {
        assert(s.subrange(0, s.len() as int) =~= s);
        assert(s.subrange(0, 0) =~= Seq::<char>::empty());
        assert(s.subrange(s.len() as int, s.len() as int) =~= Seq::<char>::empty());
        assert(trimmed_at(s, 0, s.len() as int));
    }
}

/// Trimming a trimmed text changes nothing (`str::trim` is idempotent).
pub proof fn law_trim_idempotent(s: Seq<char>)
    ensures
        trim(trim(s)) == trim(s),
{
    lemma_trim_clean(s);
}

/// Dropping white space in front does not change the trimmed text.
proof fn lemma_trim_skip_front(s: Seq<char>, k: int)
    requires
        0 <= k <= s.len(),
        all_white(s.subrange(0, k)),
    ensures
        trim(s) == trim(s.subrange(k, s.len() as int)),
    decreases k,
{
    if k > 0 {
        assert(is_white_space(s.subrange(0, k)[0]));
        let t = s.drop_first();
        assert(all_white(t.subrange(0, k - 1))) by {
            assert forall|i: int| 0 <= i < k - 1 implies is_white_space(
                #[trigger] t.subrange(0, k - 1)[i],
            ) by {
                assert(t.subrange(0, k - 1)[i] == s.subrange(0, k)[i + 1]);
            }
        }
        lemma_trim_skip_front(t, k - 1);
        assert(t.subrange(k - 1, t.len() as int) =~= s.subrange(k, s.len() as int));
    } else {
        assert(s.subrange(0, s.len() as int) =~= s);
    }
}

/// Dropping white space at the back of a text that starts with a
/// non-white character does not change the trimmed text.
proof fn lemma_trim_skip_back(s: Seq<char>, e: int)
    requires
        1 <= e <= s.len(),
        !is_white_space(s[0]),
        all_white(s.subrange(e, s.len() as int)),
    ensures
        trim(s) == trim(s.subrange(0, e)),
    decreases s.len() - e,
{
    if e < s.len() {
        assert(is_white_space(s.subrange(e, s.len() as int)[s.len() - e - 1]));
        let t = s.drop_last();
        assert(all_white(t.subrange(e, t.len() as int))) by {
            assert forall|i: int| 0 <= i < t.len() - e implies is_white_space(
                #[trigger] t.subrange(e, t.len() as int)[i],
            ) by {
                assert(t.subrange(e, t.len() as int)[i] == s.subrange(e, s.len() as int)[i]);
            }
        }
        lemma_trim_skip_back(t, e);
        assert(t.subrange(0, e) =~= s.subrange(0, e));
    } else {
        assert(s.subrange(0, e) =~= s);
    }
}

/// The trimmed text of `s` (as characters), with its bounds in `s`.
pub fn trim_chars(s: &Vec<char>) -> (r: (usize, usize))
    ensures
        r.0 <= r.1 <= s@.len(),
        trim(s@) == s@.subrange(r.0 as int, r.1 as int),
        (r.0 == r.1) == all_white(s@),
{
    let n = s.len();
    let mut a: usize = 0;
    while a < n && white_space(s[a])
        invariant
            n == s@.len(),
            a <= n,
            all_white(s@.subrange(0, a as int)),
        decreases n - a,
    {
        proof {
            assert forall|i: int| 0 <= i < a + 1 implies is_white_space(
                #[trigger] s@.subrange(0, a + 1)[i],
            ) by {
                if i < a {
                    assert(s@.subrange(0, a + 1)[i] == s@.subrange(0, a as int)[i]);
                }
            }
        }
        a = a + 1;
    }
    proof {
        lemma_trim_skip_front(s@, a as int);
    }
    if a == n {
        proof {
            assert(s@.subrange(0, a as int) =~= s@);
            assert(s@.subrange(a as int, n as int) =~= Seq::<char>::empty());
        }
        return (a, a);
    }
    let mut b: usize = n;
    while b > a + 1 && white_space(s[b - 1])
        invariant
            n == s@.len(),
            a < n,
            !is_white_space(s@[a as int]),
            a + 1 <= b <= n,
            all_white(s@.subrange(b as int, n as int)),
        decreases b,
    {
        proof {
            assert forall|i: int| 0 <= i < n - (b - 1) implies is_white_space(
                #[trigger] s@.subrange(b - 1, n as int)[i],
            ) by {
                if i > 0 {
                    assert(s@.subrange(b - 1, n as int)[i] == s@.subrange(b as int, n as int)[i
                        - 1]);
                }
            }
        }
        b = b - 1;
    }
    proof {
        let t = s@.subrange(a as int, n as int);
        assert(all_white(t.subrange(b - a, t.len() as int))) by {
            assert forall|i: int| 0 <= i < n - b implies is_white_space(
                #[trigger] t.subrange(b - a, t.len() as int)[i],
            ) by {
                assert(t.subrange(b - a, t.len() as int)[i] == s@.subrange(b as int, n as int)[i]);
            }
        }
        lemma_trim_skip_back(t, b - a);
        assert(t.subrange(0, b - a) =~= s@.subrange(a as int, b as int));
        let u = s@.subrange(a as int, b as int);
        assert(!is_white_space(u.first()));
        if b == a + 1 {
            assert(u.last() == u.first());
        } else {
            assert(!is_white_space(s@[b - 1]));
        }
        assert(trim(u) == u);
        assert(!all_white(s@)) by {
            assert(!is_white_space(s@[a as int]));
        }
    }
    (a, b)
}

/// Whether `s` holds nothing but white space (`s.trim().len() == 0`).
pub fn is_blank(s: &str) -> (r: bool)
    ensures
        r == all_white(s@),
        r == (trim(s@).len() == 0),
{
    let v = chars_of(s);
    let (a, b) = trim_chars(&v);
    a == b
}

/// The text of `s` without leading and trailing white space.
pub fn trimmed(s: &str) -> (r: String)
    ensures
        r@ == trim(s@),
{
    let v = chars_of(s);
    let (a, b) = trim_chars(&v);
    let t = s.substring_char(a, b);
    String::from_str(t)
}

/// A text built from `v`'s characters, through `String`'s `FromIterator<&char>`,
/// which std documents as appending each character in turn.
#[verifier::external_body]
pub(crate) fn string_from_chars(v: &[char]) -> (s: String)
    ensures
        s@ == v@,
{
    v.iter().collect()
}

/// The part of `s` after its last `'-'` (all of `s` when it has none), as
/// `s.split("-").last()` gives it.
pub open spec fn last_segment(s: Seq<char>) -> Seq<char>
    decreases s.len(),
{
    if s.len() == 0 {
        s
    } else if s.last() == '-' {
        Seq::empty()
    } else {
        last_segment(s.drop_last()).push(s.last())
    }
}

/// The part of `s` after its last `'-'`.
pub fn last_segment_of(s: &str) -> (r: String)
    ensures
        r@ == last_segment(s@),
{
    let v = chars_of(s);
    let n = v.len();
    let mut i: usize = n;
    assert(v@.subrange(0, n as int) =~= v@);
    assert(v@ + v@.subrange(n as int, n as int) =~= v@);
    while i > 0 && v[i - 1] != '-'
        invariant
            i <= n,
            n == v@.len(),
            last_segment(v@) == last_segment(v@.subrange(0, i as int)) + v@.subrange(
                i as int,
                n as int,
            ),
        decreases i,
    {
        proof {
            let p = v@.subrange(0, i as int);
            assert(p.drop_last() =~= v@.subrange(0, i - 1));
            assert(p.last() == v@[i - 1]);
            assert(v@.subrange(i - 1, n as int) =~= seq![v@[i - 1]] + v@.subrange(
                i as int,
                n as int,
            ));
            assert(last_segment(v@.subrange(0, i - 1)).push(v@[i - 1]) + v@.subrange(
                i as int,
                n as int,
            ) =~= last_segment(v@.subrange(0, i - 1)) + v@.subrange(i - 1, n as int));
        }
        i = i - 1;
    }
    proof {
        let p = v@.subrange(0, i as int);
        if i > 0 {
            assert(p.last() == '-');
        } else {
            assert(p =~= Seq::<char>::empty());
        }
        assert(last_segment(p) =~= Seq::<char>::empty());
        assert(Seq::<char>::empty() + v@.subrange(i as int, n as int) =~= v@.subrange(
            i as int,
            n as int,
        ));
    }
    string_from_chars(&v.as_slice()[i..n])
}

/// Whether `needle` occurs in `hay` at position `i`.
pub open spec fn occurs_at(hay: Seq<char>, needle: Seq<char>, i: int) -> bool {
    0 <= i && i + needle.len() <= hay.len() && hay.subrange(i, i + needle.len()) == needle
}

/// Whether `needle` occurs somewhere in `hay` (`str::contains`).
pub open spec fn contains_text(hay: Seq<char>, needle: Seq<char>) -> bool {
    exists|i: int| occurs_at(hay, needle, i)
}

/// Whether `needle` occurs in `hay`.
pub fn contains(hay: &str, needle: &str) -> (r: bool)
    ensures
        r == contains_text(hay@, needle@),
{
    let h = chars_of(hay);
    let nd = chars_of(needle);
    let hn = h.len();
    let nn = nd.len();
    if nn > hn {
        assert forall|i: int| !occurs_at(hay@, needle@, i) by {}
        return false;
    }
    let mut i: usize = 0;
    while i <= hn - nn
        invariant
            h@ == hay@,
            nd@ == needle@,
            hn == h@.len(),
            nn == nd@.len(),
            nn <= hn,
            i <= hn - nn + 1,
            forall|j: int| 0 <= j < i ==> !occurs_at(hay@, needle@, j),
        decreases hn - nn + 1 - i,
    {
        let mut k: usize = 0;
        while k < nn && h[i + k] == nd[k]
            invariant
                i <= hn - nn,
                hn == h@.len(),
                nn == nd@.len(),
                k <= nn,
                forall|m: int| 0 <= m < k ==> h@[i + m] == nd@[m],
            decreases nn - k,
        {
            k = k + 1;
        }
        if k == nn {
            assert(h@.subrange(i as int, i + nn) =~= nd@);
            assert(occurs_at(hay@, needle@, i as int));
            return true;
        }
        assert(!occurs_at(hay@, needle@, i as int)) by {
            if occurs_at(hay@, needle@, i as int) {
                assert(h@.subrange(i as int, i + nn)[k as int] == nd@[k as int]);
            }
        }
        i = i + 1;
    }
    assert forall|j: int| !occurs_at(hay@, needle@, j) by {
        if 0 <= j < i {
        }
    }
    false
}

/// `a` comes strictly before `b` in the order of their characters' code
/// points (for UTF-8 text this is also the order of their bytes, the order
/// that `Ord for String` uses).
pub open spec fn text_less(a: Seq<char>, b: Seq<char>) -> bool
    decreases a.len(),
{
    if a.len() == 0 {
        b.len() > 0
    } else if b.len() == 0 {
        false
    } else if (a[0] as u32) < (b[0] as u32) {
        true
    } else if (a[0] as u32) > (b[0] as u32) {
        false
    } else {
        text_less(a.drop_first(), b.drop_first())
    }
}

/// `text_less` is irreflexive, asymmetric and total on distinct texts.
pub proof fn lemma_text_less_total(a: Seq<char>, b: Seq<char>)
    ensures
        !text_less(a, a),
        text_less(a, b) ==> !text_less(b, a),
        a != b ==> text_less(a, b) || text_less(b, a),
    decreases a.len(),
{
    if a.len() > 0 && b.len() > 0 {
        lemma_text_less_total(a.drop_first(), b.drop_first());
        lemma_text_less_total(a.drop_first(), a.drop_first());
        if a[0] == b[0] && a != b {
            assert(a.drop_first() != b.drop_first()) by {
                if a.drop_first() == b.drop_first() {
                    assert(a =~= seq![a[0]] + a.drop_first());
                    assert(b =~= seq![b[0]] + b.drop_first());
                }
            }
        }
        lemma_char_code_eq(a[0], b[0]);
    } else if a.len() > 0 {
        lemma_text_less_total(a.drop_first(), a.drop_first());
    } else if b.len() == 0 {
        assert(a =~= b);
    }
}

proof fn lemma_char_code_eq(x: char, y: char)
    ensures
        (x as u32 == y as u32) ==> x == y,
{
}

/// `text_less` is transitive.
pub proof fn lemma_text_less_transitive(a: Seq<char>, b: Seq<char>, c: Seq<char>)
    requires
        text_less(a, b),
        text_less(b, c),
    ensures
        text_less(a, c),
    decreases a.len(),
{
    if a.len() > 0 && b.len() > 0 && c.len() > 0 {
        if a[0] as u32 == b[0] as u32 && b[0] as u32 == c[0] as u32 {
            lemma_text_less_transitive(a.drop_first(), b.drop_first(), c.drop_first());
        }
    }
}

/// Whether `a` comes strictly before `b`.
pub fn less(a: &Vec<char>, b: &Vec<char>) -> (r: bool)
    ensures
        r == text_less(a@, b@),
{
    let n = a.len();
    let m = b.len();
    let mut i: usize = 0;
    assert(a@.subrange(0, n as int) =~= a@);
    assert(b@.subrange(0, m as int) =~= b@);
    while i < n && i < m
        invariant
            n == a@.len(),
            m == b@.len(),
            i <= n,
            i <= m,
            text_less(a@, b@) == text_less(a@.subrange(i as int, n as int), b@.subrange(
                i as int,
                m as int,
            )),
        decreases n - i,
    {
        let x = a[i] as u32;
        let y = b[i] as u32;
        if x < y {
            return true;
        }
        if x > y {
            return false;
        }
        proof {
            let sa = a@.subrange(i as int, n as int);
            let sb = b@.subrange(i as int, m as int);
            assert(sa.drop_first() =~= a@.subrange(i + 1, n as int));
            assert(sb.drop_first() =~= b@.subrange(i + 1, m as int));
        }
        i = i + 1;
    }
    i == n && i < m
}

/// Whether `v` is in strictly increasing text order.
pub open spec fn strictly_sorted(v: Seq<Seq<char>>) -> bool {
    forall|i: int, j: int| 0 <= i < j < v.len() ==> text_less(#[trigger] v[i], #[trigger] v[j])
}

/// The characters of a code point in lowercase hexadecimal, without leading
/// zeros.
pub open spec fn hex_digits(n: nat) -> Seq<char>
    decreases n,
{
    if n < 16 {
        seq![hex_digit(n)]
    } else {
        hex_digits(n / 16).push(hex_digit(n % 16))
    }
}

/// The lowercase hexadecimal digit for `d < 16`.
pub open spec fn hex_digit(d: nat) -> char {
    if d < 10 {
        ((d + 48) as u8) as char
    } else {
        ((d + 87) as u8) as char
    }
}

/// The value of a lowercase hexadecimal digit.
pub open spec fn hex_value_of(c: char) -> nat {
    if '0' <= c <= '9' {
        (c as u32 - 48) as nat
    } else {
        (c as u32 - 87) as nat
    }
}

/// The number that lowercase hexadecimal digits spell (`from_str_radix(_, 16)`).
pub open spec fn hex_value(s: Seq<char>) -> nat
    decreases s.len(),
{
    if s.len() == 0 {
        0
    } else {
        hex_value(s.drop_last()) * 16 + hex_value_of(s.last())
    }
}

proof fn lemma_hex_digit_value(d: nat)
    requires
        d < 16,
    ensures
        hex_value_of(hex_digit(d)) == d,
{
    let v: u8 = if d < 10 { (d + 48) as u8 } else { (d + 87) as u8 };
    assert(((v as char) as u32) == v as u32);
}

/// Reading back the digits of a number gives the number.
pub proof fn lemma_hex_roundtrip(n: nat)
    ensures
        hex_value(hex_digits(n)) == n,
        hex_digits(n).len() > 0,
    decreases n,
{
    lemma_hex_digit_value(n % 16);
    if n >= 16 {
        lemma_hex_roundtrip(n / 16);
        let h = hex_digits(n);
        assert(h.drop_last() =~= hex_digits(n / 16));
        assert(h.last() == hex_digit(n % 16));
        assert(hex_value(h) == hex_value(h.drop_last()) * 16 + hex_value_of(h.last()));
        assert((n / 16) * 16 + n % 16 == n) by (nonlinear_arith);
    } else {
        let h = hex_digits(n);
        assert(h.drop_last() =~= Seq::<char>::empty());
        assert(hex_value(h.drop_last()) == 0);
        assert(h.last() == hex_digit(n));
        assert(hex_value(h) == hex_value(h.drop_last()) * 16 + hex_value_of(h.last()));
    }
}

/// The lowercase hexadecimal digit for `d`.
fn hex_digit_of(d: u32) -> (c: char)
    requires
        d < 16,
    ensures
        c == hex_digit(d as nat),
{
    if d < 10 {
        ((d + 48) as u8) as char
    } else {
        ((d + 87) as u8) as char
    }
}

/// The code point of `c` in lowercase hexadecimal without leading zeros: the
/// digits of `c.escape_unicode()`.
pub fn unicode_hex(c: char) -> (r: String)
    ensures
        r@ == hex_digits(c as nat),
{
    let mut n: u32 = c as u32;
    let mut digits: Vec<char> = Vec::new();
    let ghost full: nat = c as nat;
    // digits holds the low-order digits, last digit first
    while n >= 16
        invariant
            hex_digits(full) == hex_digits(n as nat) + digits@.reverse(),
        decreases n,
    {
        let d = hex_digit_of(n % 16);
        proof {
            assert(hex_digits(n as nat) == hex_digits((n / 16) as nat).push(d));
            assert(digits@.push(d).reverse() =~= seq![d] + digits@.reverse());
            assert(hex_digits((n / 16) as nat).push(d) + digits@.reverse() =~= hex_digits(
                (n / 16) as nat,
            ) + (seq![d] + digits@.reverse()));
        }
        digits.push(d);
        n = n / 16;
    }
    let first = hex_digit_of(n);
    let mut out: Vec<char> = Vec::new();
    out.push(first);
    let mut k: usize = digits.len();
    assert(hex_digits(n as nat) =~= seq![first]);
    while k > 0
        invariant
            k <= digits@.len(),
            hex_digits(full) == out@ + digits@.subrange(0, k as int).reverse(),
        decreases k,
    {
        let d = digits[k - 1];
        proof {
            assert(digits@.subrange(0, k as int).reverse() =~= seq![d] + digits@.subrange(
                0,
                k - 1,
            ).reverse());
            assert(out@ + (seq![d] + digits@.subrange(0, k - 1).reverse()) =~= out@.push(d)
                + digits@.subrange(0, k - 1).reverse());
        }
        out.push(d);
        k = k - 1;
    }
    assert(out@ + digits@.subrange(0, 0).reverse() =~= out@);
    string_from_chars(out.as_slice())
}

/// The code-point bound of the first of the two font files: characters up
/// to it are drawn with the first, the others with the second.
pub const FIRST_FONT_LAST: u32 = 28431;

/// The font face that draws `c`, chosen by the code point that its
/// hexadecimal digits spell.
pub fn font_class(c: char) -> (r: &'static str)
    ensures
        (c as u32) <= FIRST_FONT_LAST ==> r@ == "KaiTi_GB2312_0"@,
        (c as u32) > FIRST_FONT_LAST ==> r@ == "KaiTi_GB2312_1"@,
{
    if (c as u32) <= FIRST_FONT_LAST {
        "KaiTi_GB2312_0"
    } else {
        "KaiTi_GB2312_1"
    }
}

/// A text is at least as many UTF-8 bytes long as it has characters.
pub proof fn lemma_utf8_len(s: Seq<char>)
    ensures
        vstd::utf8::encode_utf8(s).len() >= s.len(),
    decreases s.len(),
{
    if s.len() > 0 {
        lemma_utf8_len(s.drop_first());
    }
}

/// The number of UTF-8 bytes of `s` (`str::len`).
pub fn byte_len(s: &str) -> (n: usize)
    ensures
        n == vstd::utf8::encode_utf8(s@).len() as usize,
{
    s.len()
}

/// The texts of a list of strings.
pub open spec fn texts_of(v: Seq<String>) -> Seq<Seq<char>> {
    v.map_values(|x: String| x@)
}

/// Whether no two strings of `v` have the same text.
pub open spec fn texts_distinct(v: Seq<String>) -> bool {
    forall|i: int, j: int| 0 <= i < v.len() && 0 <= j < v.len() && i != j ==> #[trigger] v[i]@
        != #[trigger] v[j]@
}

/// `v`'s strings in increasing text order (`keys.sort()` on distinct keys).
pub fn sort_texts(v: &Vec<String>) -> (r: Vec<String>)
    requires
        texts_distinct(v@),
    ensures
        r@.len() == v@.len(),
        strictly_sorted(texts_of(r@)),
        forall|t: Seq<char>| texts_of(r@).contains(t) <==> texts_of(v@).contains(t),
{
    let n = v.len();
    let mut r: Vec<String> = Vec::new();
    let mut rc: Vec<Vec<char>> = Vec::new();
    for i in 0..n
        invariant
            n == v@.len(),
            texts_distinct(v@),
            r@.len() == i,
            rc@.len() == i,
            forall|j: int| 0 <= j < i ==> #[trigger] rc@[j]@ == r@[j]@,
            strictly_sorted(texts_of(r@)),
            forall|t: Seq<char>|
                texts_of(r@).contains(t) <==> texts_of(v@.subrange(0, i as int)).contains(t),
    {
        let s = v[i].clone();
        let sc = chars_of(s.as_str());
        let ghost rv = texts_of(r@);
        assert(forall|t: Seq<char>|
            rv.contains(t) <==> texts_of(v@.subrange(0, i as int)).contains(t));
        proof {
            // the new text differs from every text taken so far
            assert forall|j: int| 0 <= j < rv.len() implies #[trigger] rv[j] != s@ by {
                assert(texts_of(r@)[j] == r@[j]@);
                assert(texts_of(r@).contains(r@[j]@));
                assert(texts_of(v@.subrange(0, i as int)).contains(r@[j]@));
                let k = choose|k: int|
                    0 <= k < i && #[trigger] texts_of(v@.subrange(0, i as int))[k] == r@[j]@;
                assert(v@.subrange(0, i as int)[k] == v@[k]);
            }
        }
        let mut p: usize = 0;
        while p < rc.len() && !less(&sc, &rc[p])
            invariant
                p <= rc@.len(),
                rc@.len() == r@.len(),
                rv == texts_of(r@),
                sc@ == s@,
                forall|j: int| 0 <= j < r@.len() ==> #[trigger] rc@[j]@ == r@[j]@,
                forall|j: int| 0 <= j < r@.len() ==> #[trigger] rv[j] != s@,
                forall|j: int| 0 <= j < p ==> text_less(#[trigger] rv[j], s@),
                i < n,
                n == v@.len(),
                forall|t: Seq<char>|
                    rv.contains(t) <==> texts_of(v@.subrange(0, i as int)).contains(t),
            decreases rc@.len() - p,
        {
            proof {
                lemma_text_less_total(s@, rv[p as int]);
            }
            p = p + 1;
        }
        proof {
            if p < rc@.len() {
                assert(text_less(s@, rv[p as int]));
                assert forall|j: int| p <= j < rv.len() implies text_less(s@, #[trigger] rv[j]) by {
                    if j > p {
                        lemma_text_less_transitive(s@, rv[p as int], rv[j]);
                    }
                }
            }
        }
        r.insert(p, s);
        rc.insert(p, sc);
        proof {
            let nr = texts_of(r@);
            assert(nr =~= rv.insert(p as int, s@));
            assert forall|a: int, b: int| 0 <= a < b < nr.len() implies text_less(
                #[trigger] nr[a],
                #[trigger] nr[b],
            ) by {
                if b < p {
                } else if b == p {
                } else if a < p {
                    lemma_text_less_transitive(nr[a], s@, nr[b]);
                } else if a == p {
                } else {
                    assert(nr[a] == rv[a - 1]);
                    assert(nr[b] == rv[b - 1]);
                }
            }
            assert forall|j: int| 0 <= j < i + 1 implies #[trigger] rc@[j]@ == r@[j]@ by {
                if j < p {
                } else if j > p {
                }
            }
            let vp = texts_of(v@.subrange(0, i as int));
            let vq = texts_of(v@.subrange(0, i + 1));
            assert(vq =~= vp.push(s@));
            assert forall|t: Seq<char>| nr.contains(t) <==> vq.contains(t) by {
                if nr.contains(t) {
                    let k = choose|k: int| 0 <= k < nr.len() && nr[k] == t;
                    if k < p {
                        assert(rv.contains(t));
                        assert(vp.contains(t));
                        let m = choose|m: int| 0 <= m < vp.len() && vp[m] == t;
                        assert(vq[m] == t);
                    } else if k == p {
                        assert(vq[i as int] == t);
                    } else {
                        assert(rv[k - 1] == t);
                        assert(rv.contains(t));
                        let m = choose|m: int| 0 <= m < vp.len() && vp[m] == t;
                        assert(vq[m] == t);
                    }
                }
                if vq.contains(t) {
                    let k = choose|k: int| 0 <= k < vq.len() && vq[k] == t;
                    if k < i {
                        assert(vp[k] == t);
                        assert(vp.contains(t));
                        assert(rv.contains(t));
                        let m = choose|m: int| 0 <= m < rv.len() && rv[m] == t;
                        if m < p {
                            assert(nr[m] == t);
                        } else {
                            assert(nr[m + 1] == t);
                        }
                    } else {
                        assert(nr[p as int] == t);
                    }
                }
            }
        }
    }
    assert(v@.subrange(0, n as int) =~= v@);
    r
}

} // verus!
