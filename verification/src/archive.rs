//! Building the archives the teacher ships: the poem and lesson-text
//! collections parsed from their source texts, and the packed stroke data.
use crate::codec::{
    base64_encode, bincode_of_text_pairs, bzip2_compress, bzip2_compressed, encode_text_pairs,
    packed_text,
};
use crate::table::{
    assoc_distinct, lemma_text_pairs_distinct, text_map, text_pairs, texts_of_map, Table,
};
use crate::text::{all_white, chars_of, is_blank};
use vstd::prelude::*;

verus! {

// ----------------------------------------------------------------- lines

/// A line without the `'\r'` that ends it, if one does.
pub open spec fn strip_cr(line: Seq<char>) -> Seq<char> {
    if line.len() > 0 && line.last() == '\r' {
        line.drop_last()
    } else {
        line
    }
}

/// After reading `s`: the lines finished by a `'\n'`, and the line begun
/// since the last one.
pub open spec fn line_split(s: Seq<char>) -> (Seq<Seq<char>>, Seq<char>)
    decreases s.len(),
{
    if s.len() == 0 {
        (seq![], seq![])
    } else {
        let (done, cur) = line_split(s.drop_last());
        if s.last() == '\n' {
            (done.push(strip_cr(cur)), seq![])
        } else {
            (done, cur.push(s.last()))
        }
    }
}

/// The lines of `s` as `str::lines` yields them: split at `'\n'`, a
/// `'\r'` right before a `'\n'` dropped, and no empty line after a final
/// `'\n'`.
pub open spec fn lines_of(s: Seq<char>) -> Seq<Seq<char>> {
    let (done, cur) = line_split(s);
    if cur.len() == 0 {
        done
    } else {
        done.push(cur)
    }
}

/// The texts of a list of strings.
pub open spec fn string_texts(v: Seq<String>) -> Seq<Seq<char>> {
    Seq::new(v.len(), |i: int| v[i]@)
}

/// The lines of `s`.
pub fn split_lines(s: &str) -> (lines: Vec<String>)
    ensures
        string_texts(lines@) == lines_of(s@),
{
    let chars = chars_of(s);
    let n = chars.len();
    let mut lines: Vec<String> = Vec::new();
    let mut start: usize = 0;
    let mut i: usize = 0;
    while i < n
        invariant
            n == chars@.len(),
            chars@ == s@,
            start <= i <= n,
            line_split(s@.subrange(0, i as int)) == (
                string_texts(lines@),
                s@.subrange(start as int, i as int),
            ),
        decreases n - i,
    {
        proof {
            let pre = s@.subrange(0, i + 1);
            assert(pre.drop_last() =~= s@.subrange(0, i as int));
            assert(pre.last() == s@[i as int]);
        }
        if chars[i] == '\n' {
            let end = if i > start && chars[i - 1] == '\r' {
                i - 1
            } else {
                i
            };
            let line = String::from_str(s.substring_char(start, end));
            let ghost old_lines = lines@;
            lines.push(line);
            proof {
                let cur = s@.subrange(start as int, i as int);
                assert(strip_cr(cur) =~= s@.subrange(start as int, end as int));
                assert(string_texts(lines@) =~= string_texts(old_lines).push(strip_cr(cur)));
            }
            start = i + 1;
            proof {
                assert(s@.subrange(start as int, (i + 1) as int) =~= Seq::<char>::empty());
            }
        } else {
            proof {
                assert(s@.subrange(start as int, (i + 1) as int) =~= s@.subrange(
                    start as int,
                    i as int,
                ).push(s@[i as int]));
            }
        }
        i = i + 1;
    }
    proof {
        assert(s@.subrange(0, n as int) =~= s@);
    }
    if start < n {
        let ghost old_lines = lines@;
        lines.push(String::from_str(s.substring_char(start, n)));
        proof {
            assert(string_texts(lines@) =~= string_texts(old_lines).push(
                s@.subrange(start as int, n as int),
            ));
        }
    }
    lines
}

// ------------------------------------------------------------ the parser

/// Whether `c` is one of the digits `0` to `9`.
pub open spec fn is_digit(c: char) -> bool {
    '0' <= c && c <= '9'
}

/// The digits of `s`, in order.
pub open spec fn digits_of(s: Seq<char>) -> Seq<char>
    decreases s.len(),
{
    if s.len() == 0 {
        seq![]
    } else if is_digit(s.last()) {
        digits_of(s.drop_last()).push(s.last())
    } else {
        digits_of(s.drop_last())
    }
}

/// The characters of `s` that are not digits, in order.
pub open spec fn non_digits_of(s: Seq<char>) -> Seq<char>
    decreases s.len(),
{
    if s.len() == 0 {
        seq![]
    } else if is_digit(s.last()) {
        non_digits_of(s.drop_last())
    } else {
        non_digits_of(s.drop_last()).push(s.last())
    }
}

/// The key under which a text is stored: the digits of its heading line,
/// a `'-'`, then the rest of the heading.
pub open spec fn title_key(line: Seq<char>) -> Seq<char> {
    digits_of(line) + seq!['-'] + non_digits_of(line)
}

/// The kinds of line in a source text.
pub enum LineType {
    /// A line of a text.
    Normal,
    /// A line of nothing but white space: it ends the current text.
    Blank,
    /// A heading: it starts with a digit and starts a new text.
    Start,
}

/// The kind of a line.
pub open spec fn line_kind(line: Seq<char>) -> LineType {
    if all_white(line) {
        LineType::Blank
    } else if is_digit(line[0]) {
        LineType::Start
    } else {
        LineType::Normal
    }
}

/// The kind of `line`.
pub fn line_type(line: &str) -> (k: LineType)
    ensures
        k == line_kind(line@),
{
    if is_blank(line) {
        LineType::Blank
    } else {
        let c = line.get_char(0);
        if '0' <= c && c <= '9' {
            LineType::Start
        } else {
            LineType::Normal
        }
    }
}

/// The digits of a text are the digits of its parts, part after part, and a
/// single character is kept exactly when it is a digit; the other
/// characters likewise go to the rest. So a key holds every digit of its
/// heading, in order, then `'-'`, then every other character, in order.
pub proof fn law_title_key(a: Seq<char>, b: Seq<char>)
    ensures
        digits_of(a + b) == digits_of(a) + digits_of(b),
        non_digits_of(a + b) == non_digits_of(a) + non_digits_of(b),
        forall|c: char| #[trigger] digits_of(seq![c]) == if is_digit(c) { seq![c] } else { Seq::<char>::empty() },
        forall|c: char|
            #[trigger] non_digits_of(seq![c]) == if is_digit(c) { Seq::<char>::empty() } else { seq![c] },
        title_key(a).len() == a.len() + 1,
    decreases b.len(),
{
    assert forall|c: char| #[trigger] digits_of(seq![c]) == if is_digit(c) { seq![c] } else { Seq::<char>::empty() } by {
        let one = seq![c];
        assert(one.drop_last() =~= Seq::<char>::empty());
        assert(one.last() == c);
        assert(digits_of(Seq::<char>::empty()) == Seq::<char>::empty());
        assert(Seq::<char>::empty().push(c) =~= seq![c]);
    }
    assert forall|c: char| #[trigger] non_digits_of(seq![c]) == if is_digit(c) { Seq::<char>::empty() } else { seq![c] } by {
        let one = seq![c];
        assert(one.drop_last() =~= Seq::<char>::empty());
        assert(one.last() == c);
        assert(non_digits_of(Seq::<char>::empty()) == Seq::<char>::empty());
        assert(Seq::<char>::empty().push(c) =~= seq![c]);
    }
    if b.len() == 0 {
        assert(a + b =~= a);
        assert(digits_of(a) + digits_of(b) =~= digits_of(a));
        assert(non_digits_of(a) + non_digits_of(b) =~= non_digits_of(a));
    } else {
        law_title_key(a, b.drop_last());
        assert((a + b).drop_last() =~= a + b.drop_last());
        assert((a + b).last() == b.last());
        assert(digits_of(a + b) =~= digits_of(a) + digits_of(b));
        assert(non_digits_of(a + b) =~= non_digits_of(a) + non_digits_of(b));
    }
    lemma_split_len(a);
}

/// Each character of a text goes to its digits or to the rest.
proof fn lemma_split_len(a: Seq<char>)
    ensures
        digits_of(a).len() + non_digits_of(a).len() == a.len(),
    decreases a.len(),
{
    if a.len() > 0 {
        lemma_split_len(a.drop_last());
    }
}

/// No line holds a `'\n'`, and a text without one that is not empty is a
/// single line.
pub proof fn law_lines_of(s: Seq<char>)
    ensures
        forall|i: int| 0 <= i < lines_of(s).len() ==> !(#[trigger] lines_of(s)[i]).contains('\n'),
        !s.contains('\n') && s.len() > 0 ==> lines_of(s) == seq![s],
{
    lemma_line_split(s);
    if !s.contains('\n') {
        lemma_line_split_plain(s);
    }
}

/// The lines finished while reading, and the line begun, hold no `'\n'`.
proof fn lemma_line_split(s: Seq<char>)
    ensures
        forall|i: int| 0 <= i < line_split(s).0.len() ==> !(#[trigger] line_split(s).0[i]).contains('\n'),
        !line_split(s).1.contains('\n'),
    decreases s.len(),
{
    if s.len() > 0 {
        let t = s.drop_last();
        lemma_line_split(t);
        let (done, cur) = line_split(t);
        if s.last() == '\n' {
            assert(!strip_cr(cur).contains('\n')) by {
                if strip_cr(cur).contains('\n') {
                    let k = choose|k: int| 0 <= k < strip_cr(cur).len() && strip_cr(cur)[k] == '\n';
                    assert(cur[k] == '\n');
                }
            }
            assert(!Seq::<char>::empty().contains('\n'));
            let d2 = done.push(strip_cr(cur));
            assert forall|i: int| 0 <= i < d2.len() implies !(#[trigger] d2[i]).contains('\n') by {
                if i < done.len() {
                    assert(d2[i] == done[i]);
                }
            }
        } else {
            let c2 = cur.push(s.last());
            assert(!c2.contains('\n')) by {
                if c2.contains('\n') {
                    let k = choose|k: int| 0 <= k < c2.len() && c2[k] == '\n';
                    if k < cur.len() {
                        assert(cur[k] == '\n');
                    }
                }
            }
        }
    }
    let (done, cur) = line_split(s);
    if cur.len() > 0 {
        let l = done.push(cur);
        assert forall|i: int| 0 <= i < l.len() implies !(#[trigger] l[i]).contains('\n') by {
            if i < done.len() {
                assert(l[i] == done[i]);
            }
        }
    }
}

/// A text without `'\n'` is read as one line begun and none finished.
proof fn lemma_line_split_plain(s: Seq<char>)
    requires
        !s.contains('\n'),
    ensures
        line_split(s) == (Seq::<Seq<char>>::empty(), s),
    decreases s.len(),
{
    if s.len() > 0 {
        let t = s.drop_last();
        assert(!t.contains('\n')) by {
            if t.contains('\n') {
                let k = choose|k: int| 0 <= k < t.len() && t[k] == '\n';
                assert(s[k] == '\n');
            }
        }
        lemma_line_split_plain(t);
        assert(s.last() != '\n') by {
            assert(s[s.len() - 1] == s.last());
        }
        assert(t.push(s.last()) =~= s);
    } else {
        assert(s =~= Seq::<char>::empty());
    }
}

/// The key for the text whose heading is `line`.
pub fn title_key_of(line: &str) -> (r: String)
    ensures
        r@ == title_key(line@),
{
    let chars = chars_of(line);
    let n = chars.len();
    let mut digits = String::new();
    let mut rest = String::new();
    for i in 0..n
        invariant
            n == chars@.len(),
            chars@ == line@,
            digits@ == digits_of(line@.subrange(0, i as int)),
            rest@ == non_digits_of(line@.subrange(0, i as int)),
    {
        proof {
            let pre = line@.subrange(0, i + 1);
            assert(pre.drop_last() =~= line@.subrange(0, i as int));
            assert(pre.last() == line@[i as int]);
        }
        let one = line.substring_char(i, i + 1);
        proof {
            assert(one@ =~= seq![line@[i as int]]);
        }
        if '0' <= chars[i] && chars[i] <= '9' {
            digits.append(one);
        } else {
            rest.append(one);
        }
    }
    proof {
        assert(line@.subrange(0, n as int) =~= line@);
    }
    let dash = "-";
    proof {
        reveal_strlit("-");
    }
    digits.append(dash);
    digits.append(rest.as_str());
    digits
}

/// Where the parser stands: the texts stored so far by key, whether a text
/// is being read, and that text's key and lines so far.
pub type ParseState = (Map<Seq<char>, Seq<char>>, bool, Seq<char>, Seq<char>);

/// The parser after one more line.  A heading stores the text being read
/// and starts a new one; a line of text is appended to the text being read;
/// a blank line stores the text being read and ends it.  Outside a text,
/// lines of text and blank lines are skipped.
pub open spec fn parse_step(st: ParseState, line: Seq<char>) -> ParseState {
    let (texts, reading, key, content) = st;
    match line_kind(line) {
        LineType::Start => (
            if reading {
                texts.insert(key, content)
            } else {
                texts
            },
            true,
            title_key(line),
            seq![],
        ),
        LineType::Normal => if reading {
            (texts, true, key, content + line)
        } else {
            st
        },
        LineType::Blank => if reading {
            (texts.insert(key, content), false, key, content)
        } else {
            st
        },
    }
}

/// The parser after reading `lines` from the start.
pub open spec fn parse_lines(lines: Seq<Seq<char>>) -> ParseState
    decreases lines.len(),
{
    if lines.len() == 0 {
        (Map::empty(), false, seq![], seq![])
    } else {
        parse_step(parse_lines(lines.drop_last()), lines.last())
    }
}

/// The texts a source text holds, by key.  A text that no blank line or
/// heading follows is not stored.
pub open spec fn titled_texts(contents: Seq<char>) -> Map<Seq<char>, Seq<char>> {
    parse_lines(lines_of(contents)).0
}

/// A digit is not white space.
proof fn lemma_digit_not_white(c: char)
    requires
        is_digit(c),
    ensures
        !crate::text::is_white_space(c),
{
}

/// How the parser takes each kind of line. A line of nothing but white
/// space (empty or not) ends the text being read and stores it under its
/// key, and is skipped outside a text. A heading (its first character a
/// digit) stores the text being read, if any, and starts a new empty text
/// under the heading's key. Any other line is appended to the text being
/// read, and is skipped outside a text.
pub proof fn law_parse_step(st: ParseState, line: Seq<char>)
    ensures
        all_white(line) && st.1 ==> parse_step(st, line) == (
            st.0.insert(st.2, st.3),
            false,
            st.2,
            st.3,
        ),
        all_white(line) && !st.1 ==> parse_step(st, line) == st,
        line.len() > 0 && is_digit(line[0]) ==> parse_step(st, line) == (
            if st.1 {
                st.0.insert(st.2, st.3)
            } else {
                st.0
            },
            true,
            digits_of(line) + seq!['-'] + non_digits_of(line),
            Seq::<char>::empty(),
        ),
        !all_white(line) && !is_digit(line[0]) && st.1 ==> parse_step(st, line) == (
            st.0,
            true,
            st.2,
            st.3 + line,
        ),
        !all_white(line) && !is_digit(line[0]) && !st.1 ==> parse_step(st, line) == st,
{
    if line.len() > 0 && is_digit(line[0]) {
        lemma_digit_not_white(line[0]);
        assert(!all_white(line));
    }
}

/// Whether one of `lines` is a heading whose key is `k`.
pub open spec fn heading_with_key(lines: Seq<Seq<char>>, k: Seq<char>) -> bool {
    exists|i: int|
        0 <= i < lines.len() && line_kind(lines[i]) is Start && #[trigger] title_key(lines[i]) == k
}

/// Every key the parser stored, and the key of the text it reads, belong to
/// a heading among the lines read.
proof fn lemma_parse_keys(lines: Seq<Seq<char>>)
    ensures
        forall|k: Seq<char>| #[trigger]
            parse_lines(lines).0.contains_key(k) ==> heading_with_key(lines, k),
        parse_lines(lines).1 ==> heading_with_key(lines, parse_lines(lines).2),
    decreases lines.len(),
{
    if lines.len() > 0 {
        let rest = lines.drop_last();
        let line = lines.last();
        lemma_parse_keys(rest);
        assert forall|k: Seq<char>| heading_with_key(rest, k) implies heading_with_key(lines, k) by {
            let i = choose|i: int|
                0 <= i < rest.len() && line_kind(rest[i]) is Start && #[trigger] title_key(rest[i])
                    == k;
            assert(lines[i] == rest[i]);
        }
        if line_kind(line) is Start {
            assert(lines[lines.len() - 1] == line);
            assert(heading_with_key(lines, title_key(line)));
        }
    }
}

/// Each key under which a source text's texts are stored is the key of one
/// of its headings: its digits, a `'-'`, then the rest of that heading.
pub proof fn law_titled_keys(contents: Seq<char>)
    ensures
        forall|k: Seq<char>| #[trigger]
            titled_texts(contents).contains_key(k) ==> heading_with_key(lines_of(contents), k),
{
    lemma_parse_keys(lines_of(contents));
}

/// The texts of a source text (a collection of poems or of lesson texts),
/// by key.
pub fn parse_titled_texts(contents: &str) -> (t: Table<String>)
    ensures
        t.wf(),
        texts_of_map(t@) == titled_texts(contents@),
{
    let lines = split_lines(contents);
    let ghost ls = string_texts(lines@);
    let n = lines.len();
    let mut texts: Table<String> = Table::new();
    let mut reading = false;
    let mut key = String::new();
    let mut content = String::new();
    proof {
        assert(ls.subrange(0, 0) =~= Seq::<Seq<char>>::empty());
        assert(texts_of_map(texts@) =~= Map::<Seq<char>, Seq<char>>::empty());
    }
    for i in 0..n
        invariant
            n == lines@.len(),
            ls == string_texts(lines@),
            ls == lines_of(contents@),
            texts.wf(),
            parse_lines(ls.subrange(0, i as int)) == (texts_of_map(texts@), reading, key@, content@),
    {
        proof {
            let pre = ls.subrange(0, i + 1);
            assert(pre.drop_last() =~= ls.subrange(0, i as int));
            assert(pre.last() == lines@[i as int]@);
        }
        let line = lines[i].as_str();
        match line_type(line) {
            LineType::Start => {
                if reading {
                    let ghost before = texts@;
                    texts.insert(key.clone(), content.clone());
                    proof {
                        assert(texts_of_map(texts@) =~= texts_of_map(before).insert(key@, content@));
                    }
                }
                key = title_key_of(line);
                content = String::new();
                reading = true;
            },
            LineType::Normal => {
                if reading {
                    content.append(line);
                }
            },
            LineType::Blank => {
                if reading {
                    reading = false;
                    let ghost before = texts@;
                    texts.insert(key.clone(), content.clone());
                    proof {
                        assert(texts_of_map(texts@) =~= texts_of_map(before).insert(key@, content@));
                    }
                }
            },
        }
    }
    proof {
        assert(ls.subrange(0, n as int) =~= ls);
    }
    texts
}

// ------------------------------------------------------------- archives

/// The poem archive of a source text: the bincode record of its texts by
/// key, each key once (in some order, as a map is written).
pub fn poem_archive(contents: &str) -> (bytes: Vec<u8>)
    ensures
        exists|e: Seq<(Seq<char>, Seq<char>)>|
            #[trigger] bincode_of_text_pairs(e) == bytes@ && assoc_distinct(e) && text_map(e)
                == titled_texts(contents@),
{
    let t = parse_titled_texts(contents);
    let pairs = t.to_pairs();
    let bytes = encode_text_pairs(&pairs);
    proof {
        lemma_text_pairs_distinct(pairs@);
        assert(bincode_of_text_pairs(text_pairs(pairs@)) == bytes@);
    }
    bytes
}

/// The lesson-text archive of a source text: the bincode record of its
/// texts by key, each key once, compressed at the best bzip2 level.
pub fn article_archive(contents: &str) -> (bytes: Vec<u8>)
    ensures
        exists|e: Seq<(Seq<char>, Seq<char>)>|
            #[trigger] bzip2_compressed(bincode_of_text_pairs(e), 9) == bytes@ && assoc_distinct(e)
                && text_map(e) == titled_texts(contents@),
{
    let t = parse_titled_texts(contents);
    let pairs = t.to_pairs();
    let raw = encode_text_pairs(&pairs);
    let bytes = bzip2_compress(&raw, 9);
    proof {
        lemma_text_pairs_distinct(pairs@);
        assert(bzip2_compressed(bincode_of_text_pairs(text_pairs(pairs@)), 9) == bytes@);
    }
    bytes
}

/// Data compressed at the best bzip2 level, as the stroke templates and the
/// font are before they are turned into text.
pub fn compress_best(raw: &[u8]) -> (packed: Vec<u8>)
    ensures
        packed@ == bzip2_compressed(raw@, 9),
{
    bzip2_compress(raw, 9)
}

/// The text the stroke templates ship in: their bincode record compressed
/// at the best bzip2 level, then base64.  The length bound keeps the
/// compressed stream within what the base64 encoder takes.
pub fn pack_strokes(raw: &[u8]) -> (text: Option<String>)
    ensures
        match text {
            Some(t) => t@ == packed_text(raw@),
            None => bzip2_compressed(raw@, 9).len() > usize::MAX / 2,
        },
{
    let packed = compress_best(raw);
    if packed.len() > usize::MAX / 2 {
        return None;
    }
    Some(base64_encode(&packed))
}

/// Where the packed font text is cut in two: after six sevenths of it,
/// counted in whole sevenths.
pub open spec fn font_cut(len: nat) -> nat {
    (len / 7) * 6
}

/// The font shipped as text in two parts: packed as the stroke templates
/// are, then cut after six sevenths.  `None` where the compressed stream
/// is too long for the base64 encoder.
pub fn pack_font(raw: &[u8]) -> (parts: Option<(String, String)>)
    ensures
        match parts {
            Some((first, second)) => {
                &&& first@ + second@ == packed_text(raw@)
                &&& first@.len() == font_cut(packed_text(raw@).len())
            },
            None => bzip2_compressed(raw@, 9).len() > usize::MAX / 2,
        },
{
    let text = match pack_strokes(raw) {
        Some(t) => t,
        None => {
            return None;
        },
    };
    let n = text.as_str().unicode_len();
    let cut = n / 7 * 6;
    let first = String::from_str(text.as_str().substring_char(0, cut));
    let second = String::from_str(text.as_str().substring_char(cut, n));
    proof {
        assert(first@ + second@ =~= text@);
    }
    Some((first, second))
}

} // verus!
