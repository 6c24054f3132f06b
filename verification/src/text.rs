//! Character-level text machinery: splitting and joining around separators,
//! substring search, ordinal comparison, whitespace tests and decimal
//! parsing, each verified against a direct specification on `Seq<char>`.

use vstd::prelude::*;

verus! {

/// Three-way comparison outcome.
#[derive(Clone, Copy, PartialEq, Eq, Structural, Debug)]
pub enum Rel {
    Lt,
    Eq,
    Gt,
}

/// Reverses a comparison outcome.
pub open spec fn flip(r: Rel) -> Rel {
    match r {
        Rel::Lt => Rel::Gt,
        Rel::Eq => Rel::Eq,
        Rel::Gt => Rel::Lt,
    }
}

/// The views of a sequence of owned strings.
pub open spec fn strs(v: Seq<String>) -> Seq<Seq<char>> {
    v.map_values(|s: String| s@)
}

/// The parts joined with the separator between consecutive parts.
pub open spec fn join_with(parts: Seq<Seq<char>>, sep: Seq<char>) -> Seq<char>
    decreases parts.len(),
{
    if parts.len() == 0 {
        Seq::empty()
    } else if parts.len() == 1 {
        parts[0]
    } else {
        parts[0] + sep + join_with(parts.skip(1), sep)
    }
}

/// The text contains no occurrence of the character.
pub open spec fn free_of(s: Seq<char>, c: char) -> bool {
    forall|i: int| 0 <= i < s.len() ==> s[i] != c
}

/// The text split at every occurrence of the separator: one more part than
/// separators, parts in order, separators dropped. An empty text yields one
/// empty part.
pub open spec fn split_char(s: Seq<char>, sep: char) -> Seq<Seq<char>>
    decreases s.len(),
{
    if s.len() == 0 {
        seq![Seq::<char>::empty()]
    } else if s[0] == sep {
        seq![Seq::<char>::empty()] + split_char(s.skip(1), sep)
    } else {
        let r = split_char(s.skip(1), sep);
        seq![seq![s[0]] + r[0]] + r.skip(1)
    }
}

pub proof fn lemma_split_char_len(s: Seq<char>, sep: char)
    ensures
        split_char(s, sep).len() >= 1,
    decreases s.len(),
{
    if s.len() == 0 {
    } else if s[0] == sep {
        lemma_split_char_len(s.skip(1), sep);
    } else {
        lemma_split_char_len(s.skip(1), sep);
    }
}

/// A separator-free text splits into itself alone.
pub proof fn lemma_split_char_whole(s: Seq<char>, sep: char)
    requires
        free_of(s, sep),
    ensures
        split_char(s, sep) =~= seq![s],
    decreases s.len(),
{
    if s.len() == 0 {
        assert(s =~= Seq::<char>::empty());
    } else {
        assert(free_of(s.skip(1), sep)) by {
            assert(forall|i: int| 0 <= i < s.skip(1).len() ==> s.skip(1)[i] == s[i + 1]);
        }
        lemma_split_char_whole(s.skip(1), sep);
        assert(seq![s[0]] + s.skip(1) =~= s);
    }
}

/// Splitting a text of the form `a sep b`, with `a` separator-free, yields
/// `a` followed by the split of `b`.
pub proof fn lemma_split_char_step(a: Seq<char>, b: Seq<char>, sep: char)
    requires
        free_of(a, sep),
    ensures
        split_char(a + seq![sep] + b, sep) =~= seq![a] + split_char(b, sep),
    decreases a.len(),
{
    let s = a + seq![sep] + b;
    if a.len() == 0 {
        assert(s =~= seq![sep] + b);
        assert(s[0] == sep);
        assert(s.skip(1) =~= b);
        assert(split_char(s, sep) =~= seq![Seq::<char>::empty()] + split_char(b, sep));
        assert(Seq::<char>::empty() =~= a);
        assert(seq![Seq::<char>::empty()] + split_char(b, sep) =~= seq![a] + split_char(b, sep));
    } else {
        assert(s[0] == a[0]);
        assert(s[0] != sep);
        let a1 = a.skip(1);
        assert(free_of(a1, sep)) by {
            assert(forall|i: int| 0 <= i < a1.len() ==> a1[i] == a[i + 1]);
        }
        lemma_split_char_step(a1, b, sep);
        assert(s.skip(1) =~= a1 + seq![sep] + b);
        let r = split_char(s.skip(1), sep);
        assert(r =~= seq![a1] + split_char(b, sep));
        lemma_split_char_len(b, sep);
        assert(r[0] == a1);
        assert(seq![s[0]] + r[0] =~= a);
        assert(r.skip(1) =~= split_char(b, sep));
        assert(split_char(s, sep) =~= seq![a] + split_char(b, sep));
    }
}

/// Appending one more part to a join appends one separator and the part.
pub proof fn lemma_join_push(parts: Seq<Seq<char>>, q: Seq<char>, sep: Seq<char>)
    ensures
        parts.len() == 0 ==> join_with(parts.push(q), sep) =~= q,
        parts.len() > 0 ==> join_with(parts.push(q), sep) =~= join_with(parts, sep) + sep + q,
    decreases parts.len(),
{
    if parts.len() == 0 {
        assert(parts.push(q).len() == 1);
        assert(join_with(parts.push(q), sep) == parts.push(q)[0]);
    } else if parts.len() == 1 {
        let p = parts.push(q);
        assert(p.len() == 2);
        assert(p.skip(1) =~= seq![q]);
        assert(join_with(p, sep) == p[0] + sep + join_with(p.skip(1), sep));
        assert(join_with(seq![q], sep) == q);
        assert(join_with(parts, sep) == parts[0]);
        assert(p[0] == parts[0]);
    } else {
        let p = parts.push(q);
        assert(p.skip(1) =~= parts.skip(1).push(q));
        lemma_join_push(parts.skip(1), q, sep);
        assert(join_with(p, sep) == p[0] + sep + join_with(parts.skip(1).push(q), sep));
        assert(join_with(parts.skip(1).push(q), sep) =~= join_with(parts.skip(1), sep) + sep + q);
        assert(join_with(parts, sep) == parts[0] + sep + join_with(parts.skip(1), sep));
        assert(join_with(p, sep) =~= join_with(parts, sep) + sep + q);
    }
}

/// A join of separator-free parts splits back into exactly those parts.
pub proof fn lemma_split_of_join(parts: Seq<Seq<char>>, sep: char)
    requires
        parts.len() >= 1,
        forall|k: int| 0 <= k < parts.len() ==> free_of(#[trigger] parts[k], sep),
    ensures
        split_char(join_with(parts, seq![sep]), sep) =~= parts,
    decreases parts.len(),
{
    if parts.len() == 1 {
        assert(join_with(parts, seq![sep]) == parts[0]);
        lemma_split_char_whole(parts[0], sep);
        assert(seq![parts[0]] =~= parts);
    } else {
        let rest = parts.skip(1);
        assert(forall|k: int| 0 <= k < rest.len() ==> free_of(#[trigger] rest[k], sep)) by {
            assert(forall|k: int| 0 <= k < rest.len() ==> rest[k] == parts[k + 1]);
        }
        lemma_split_of_join(rest, sep);
        assert(join_with(parts, seq![sep]) == parts[0] + seq![sep] + join_with(rest, seq![sep]));
        lemma_split_char_step(parts[0], join_with(rest, seq![sep]), sep);
        assert(split_char(join_with(parts, seq![sep]), sep) =~= seq![parts[0]] + rest);
        assert(seq![parts[0]] + rest =~= parts);
    }
}

/// Splits a string at every occurrence of the separator character.
pub fn split_str(s: &str, sep: char) -> (r: Vec<String>)
    ensures
        strs(r@) =~= split_char(s@, sep),
{
    let n = s.unicode_len();
    let mut parts: Vec<String> = Vec::new();
    let mut start: usize = 0;
    let mut i: usize = 0;
    while i < n
        invariant
            n == s@.len(),
            0 <= start <= i <= n,
            forall|k: int| 0 <= k < strs(parts@).len() ==> free_of(#[trigger] strs(parts@)[k], sep),
            free_of(s@.subrange(start as int, i as int), sep),
            join_with(strs(parts@).push(s@.subrange(start as int, i as int)), seq![sep]) =~= s@.take(
                i as int,
            ),
        decreases n - i,
    {
        let ghost prev_parts = strs(parts@);
        let ghost cur = s@.subrange(start as int, i as int);
        if s.get_char(i) == sep {
            let part = String::from_str(s.substring_char(start, i));
            parts.push(part);
            assert(strs(parts@) =~= prev_parts.push(cur));
            proof {
                lemma_join_push(prev_parts, cur, seq![sep]);
                lemma_join_push(prev_parts.push(cur), s@.subrange(i as int + 1, i as int + 1), seq![sep]);
                if prev_parts.len() == 0 {
                    assert(join_with(prev_parts.push(cur), seq![sep]) =~= cur);
                } else {
                    assert(join_with(prev_parts.push(cur), seq![sep]) =~= join_with(
                        prev_parts,
                        seq![sep],
                    ) + seq![sep] + cur);
                }
                assert(join_with(
                    prev_parts.push(cur).push(s@.subrange(i as int + 1, i as int + 1)),
                    seq![sep],
                ) =~= s@.take(i as int + 1));
            }
            start = i + 1;
        } else {
            proof {
                let cur2 = s@.subrange(start as int, i as int + 1);
                assert(cur2 =~= cur.push(s@[i as int]));
                lemma_join_push(prev_parts, cur, seq![sep]);
                lemma_join_push(prev_parts, cur2, seq![sep]);
                assert(join_with(prev_parts.push(cur2), seq![sep]) =~= s@.take(i as int + 1));
            }
        }
        i += 1;
    }
    let last = String::from_str(s.substring_char(start, n));
    let ghost prev_parts = strs(parts@);
    let ghost cur = s@.subrange(start as int, n as int);
    parts.push(last);
    assert(strs(parts@) =~= prev_parts.push(cur));
    proof {
        assert(s@.take(n as int) =~= s@);
        assert(join_with(strs(parts@), seq![sep]) =~= s@);
        lemma_split_of_join(strs(parts@), sep);
    }
    parts
}

/// The result of `str::to_lowercase`: a function of the characters alone.
pub uninterp spec fn lower_of(s: Seq<char>) -> Seq<char>;

/// Relies on `str::to_lowercase`: the result depends on the characters of the
/// input alone.
#[verifier::external_body]
pub(crate) fn to_lower(s: &str) -> (r: String)
    ensures
        r@ == lower_of(s@),
{
    s.to_lowercase()
}

/// The pattern occurs at position `i` of `s`.
pub open spec fn is_substring_at(s: Seq<char>, i: int, pat: Seq<char>) -> bool {
    0 <= i && i + pat.len() <= s.len() && s.subrange(i, i + pat.len()) == pat
}

/// The pattern occurs somewhere in `s`.
pub open spec fn contains_seq(s: Seq<char>, pat: Seq<char>) -> bool {
    exists|i: int| is_substring_at(s, i, pat)
}

/// Whether the pattern occurs at the given position.
fn match_at(hay: &str, needle: &str, i: usize, hlen: usize, nlen: usize) -> (r: bool)
    requires
        hlen == hay@.len(),
        nlen == needle@.len(),
        i + nlen <= hlen,
    ensures
        r == is_substring_at(hay@, i as int, needle@),
{
    let mut k: usize = 0;
    while k < nlen
        invariant
            hlen == hay@.len(),
            nlen == needle@.len(),
            i + nlen <= hlen,
            0 <= k <= nlen,
            forall|j: int| 0 <= j < k ==> hay@[i + j] == needle@[j],
        decreases nlen - k,
    {
        if hay.get_char(i + k) != needle.get_char(k) {
            assert(hay@.subrange(i as int, i + nlen) != needle@) by {
                assert(hay@.subrange(i as int, i + nlen)[k as int] == hay@[i + k]);
            }
            return false;
        }
        k += 1;
    }
    assert(hay@.subrange(i as int, i + nlen) =~= needle@);
    true
}

/// Whether the needle occurs as a substring of the haystack.
pub fn str_contains(hay: &str, needle: &str) -> (r: bool)
    ensures
        r == contains_seq(hay@, needle@),
{
    let hlen = hay.unicode_len();
    let nlen = needle.unicode_len();
    if nlen > hlen {
        assert(!contains_seq(hay@, needle@));
        return false;
    }
    if nlen == 0 {
        assert(is_substring_at(hay@, 0, needle@)) by {
            assert(hay@.subrange(0, 0) =~= needle@);
        }
        return true;
    }
    let mut i: usize = 0;
    while i <= hlen - nlen
        invariant
            hlen == hay@.len(),
            nlen == needle@.len(),
            1 <= nlen <= hlen,
            0 <= i <= hlen - nlen + 1,
            forall|j: int| 0 <= j < i ==> !is_substring_at(hay@, j, needle@),
        decreases hlen - nlen - i + 1,
    {
        if match_at(hay, needle, i, hlen, nlen) {
            return true;
        }
        i += 1;
    }
    assert(forall|j: int| is_substring_at(hay@, j, needle@) ==> 0 <= j <= hlen - nlen);
    false
}

/// Whether the haystack begins with the needle.
pub fn str_starts_with(hay: &str, needle: &str) -> (r: bool)
    ensures
        r == (needle@.len() <= hay@.len() && hay@.subrange(0, needle@.len() as int) == needle@),
{
    let hlen = hay.unicode_len();
    let nlen = needle.unicode_len();
    if nlen > hlen {
        return false;
    }
    match_at(hay, needle, 0, hlen, nlen)
}

/// Whether the haystack ends with the needle.
pub fn str_ends_with(hay: &str, needle: &str) -> (r: bool)
    ensures
        r == (needle@.len() <= hay@.len() && hay@.subrange(
            hay@.len() - needle@.len(),
            hay@.len() as int,
        ) == needle@),
{
    let hlen = hay.unicode_len();
    let nlen = needle.unicode_len();
    if nlen > hlen {
        return false;
    }
    match_at(hay, needle, hlen - nlen, hlen, nlen)
}

/// Character-by-character equality of two string slices.
pub fn str_eq(a: &str, b: &str) -> (r: bool)
    ensures
        r == (a@ == b@),
{
    let alen = a.unicode_len();
    let blen = b.unicode_len();
    if alen != blen {
        assert(a@ != b@);
        return false;
    }
    let mut i: usize = 0;
    while i < alen
        invariant
            alen == a@.len(),
            alen == b@.len(),
            0 <= i <= alen,
            forall|j: int| 0 <= j < i ==> a@[j] == b@[j],
        decreases alen - i,
    {
        if a.get_char(i) != b.get_char(i) {
            return false;
        }
        i += 1;
    }
    assert(a@ =~= b@);
    true
}

/// The Unicode whitespace characters, as `char::is_whitespace` lists them.
pub open spec fn is_space(c: char) -> bool {
    ||| c == ' '
    ||| c == '\t'
    ||| c == '\n'
    ||| c == '\r'
    ||| c == '\u{0b}'
    ||| c == '\u{0c}'
    ||| c == '\u{85}'
    ||| c == '\u{a0}'
    ||| c == '\u{1680}'
    ||| ('\u{2000}' <= c && c <= '\u{200a}')
    ||| c == '\u{2028}'
    ||| c == '\u{2029}'
    ||| c == '\u{202f}'
    ||| c == '\u{205f}'
    ||| c == '\u{3000}'
}

/// Every character of the text is whitespace (so trimming leaves it empty).
pub open spec fn all_space(s: Seq<char>) -> bool {
    forall|i: int| 0 <= i < s.len() ==> is_space(#[trigger] s[i])
}

/// Whether the string is empty after trimming whitespace.
pub fn str_is_blank(s: &str) -> (r: bool)
    ensures
        r == all_space(s@),
{
    let n = s.unicode_len();
    let mut i: usize = 0;
    while i < n
        invariant
            n == s@.len(),
            0 <= i <= n,
            forall|j: int| 0 <= j < i ==> is_space(#[trigger] s@[j]),
        decreases n - i,
    {
        let c = s.get_char(i);
        let space = c == ' ' || c == '\t' || c == '\n' || c == '\r' || c == '\u{0b}' || c
            == '\u{0c}' || c == '\u{85}' || c == '\u{a0}' || c == '\u{1680}' || ('\u{2000}' <= c
            && c <= '\u{200a}') || c == '\u{2028}' || c == '\u{2029}' || c == '\u{202f}' || c
            == '\u{205f}' || c == '\u{3000}';
        if !space {
            return false;
        }
        i += 1;
    }
    true
}

/// A decimal digit.
pub open spec fn is_digit(c: char) -> bool {
    '0' <= c && c <= '9'
}

/// The value of a decimal digit.
pub open spec fn digit_val(c: char) -> int {
    c as int - '0' as int
}

/// Every character is a decimal digit.
pub open spec fn all_digits(s: Seq<char>) -> bool {
    forall|i: int| 0 <= i < s.len() ==> is_digit(#[trigger] s[i])
}

/// The value of a digit string read in base ten.
pub open spec fn digits_val(s: Seq<char>) -> int
    decreases s.len(),
{
    if s.len() == 0 {
        0
    } else {
        digits_val(s.drop_last()) * 10 + digit_val(s.last())
    }
}

pub proof fn lemma_digits_val_bounds(s: Seq<char>)
    requires
        all_digits(s),
    ensures
        digits_val(s) >= 0,
        s.len() > 0 ==> digits_val(s) >= digits_val(s.drop_last()),
    decreases s.len(),
{
    if s.len() > 0 {
        assert(all_digits(s.drop_last()));
        lemma_digits_val_bounds(s.drop_last());
        let v = digits_val(s.drop_last());
        assert(v * 10 >= v) by (nonlinear_arith)
            requires v >= 0;
        assert(digit_val(s.last()) >= 0);
    }
}

/// How `usize::from_str` reads a string: an optional leading `+`, then at
/// least one digit, rejected if the value exceeds `usize::MAX`.
pub open spec fn parse_usize_spec(s: Seq<char>) -> Option<int> {
    let body = if s.len() > 0 && s[0] == '+' {
        s.skip(1)
    } else {
        s
    };
    if body.len() > 0 && all_digits(body) && digits_val(body) <= usize::MAX as int {
        Some(digits_val(body))
    } else {
        None
    }
}

/// Reads a string as an unsigned decimal number, as `usize::from_str` does.
pub fn parse_usize(s: &str) -> (r: Option<usize>)
    ensures
        match parse_usize_spec(s@) {
            Some(v) => 0 <= v <= usize::MAX as int && r == Some(v as usize),
            None => r is None,
        },
{
    let n = s.unicode_len();
    let mut i: usize = 0;
    if n > 0 && s.get_char(0) == '+' {
        i = 1;
    }
    let ghost body = if s@.len() > 0 && s@[0] == '+' {
        s@.skip(1)
    } else {
        s@
    };
    let ghost off = i as int;
    if i >= n {
        assert(body.len() == 0);
        return None;
    }
    assert(body =~= s@.subrange(off, n as int));
    let mut acc: usize = 0;
    while i < n
        invariant
            n == s@.len(),
            off <= i <= n,
            0 <= off <= 1,
            body == (if s@.len() > 0 && s@[0] == '+' {
                s@.skip(1)
            } else {
                s@
            }),
            body =~= s@.subrange(off, n as int),
            all_digits(s@.subrange(off, i as int)),
            acc == digits_val(s@.subrange(off, i as int)),
            digits_val(s@.subrange(off, i as int)) <= usize::MAX as int,
        decreases n - i,
    {
        let c = s.get_char(i);
        if !(c >= '0' && c <= '9') {
            assert(!all_digits(body)) by {
                assert(body[i - off] == s@[i as int]);
            }
            return None;
        }
        let d = (c as u32 - '0' as u32) as usize;
        assert(d == digit_val(c) && d <= 9);
        let ghost pre = s@.subrange(off, i as int);
        let ghost ext = s@.subrange(off, i as int + 1);
        assert(ext =~= pre.push(s@[i as int]));
        assert(ext.drop_last() =~= pre);
        assert(digits_val(ext) == acc * 10 + d);
        if acc > (usize::MAX - d) / 10 {
            proof {
                assert(digits_val(ext) > usize::MAX as int) by (nonlinear_arith)
                    requires
                        digits_val(ext) == acc * 10 + d,
                        acc > (usize::MAX - d) / 10,
                        0 <= d <= 9,
                        d <= usize::MAX,
                        acc >= 0,
                ;
                assert(all_digits(ext));
                if all_digits(body) {
                    lemma_digits_prefix_le(body, (i as int + 1 - off));
                    assert(body.take(i as int + 1 - off) =~= ext);
                }
            }
            return None;
        }
        proof {
            assert(acc * 10 + d <= usize::MAX) by (nonlinear_arith)
                requires
                    acc <= (usize::MAX - d) / 10,
                    0 <= d <= 9,
                    d <= usize::MAX,
                    acc >= 0,
            ;
        }
        acc = acc * 10 + d;
        i += 1;
    }
    assert(s@.subrange(off, n as int) =~= body);
    Some(acc)
}

/// A digit string's value is at least the value of any of its prefixes.
pub proof fn lemma_digits_prefix_le(s: Seq<char>, k: int)
    requires
        0 <= k <= s.len(),
        all_digits(s),
    ensures
        digits_val(s.take(k)) <= digits_val(s),
    decreases s.len() - k,
{
    if k == s.len() {
        assert(s.take(k) =~= s);
    } else {
        lemma_digits_prefix_le(s, k + 1);
        let t = s.take(k + 1);
        assert(all_digits(t));
        assert(t.drop_last() =~= s.take(k));
        lemma_digits_val_bounds(t);
    }
}

/// Ordinal (code-point) comparison of two texts.
pub open spec fn lex_cmp(a: Seq<char>, b: Seq<char>) -> Rel
    decreases a.len() + b.len(),
{
    if a.len() == 0 && b.len() == 0 {
        Rel::Eq
    } else if a.len() == 0 {
        Rel::Lt
    } else if b.len() == 0 {
        Rel::Gt
    } else if a[0] < b[0] {
        Rel::Lt
    } else if b[0] < a[0] {
        Rel::Gt
    } else {
        lex_cmp(a.skip(1), b.skip(1))
    }
}

/// Swapping the arguments of an ordinal comparison reverses its outcome.
pub proof fn lemma_lex_cmp_flip(a: Seq<char>, b: Seq<char>)
    ensures
        lex_cmp(b, a) == flip(lex_cmp(a, b)),
    decreases a.len() + b.len(),
{
    if a.len() == 0 && b.len() == 0 {
    } else if a.len() == 0 || b.len() == 0 {
    } else if a[0] < b[0] || b[0] < a[0] {
    } else {
        lemma_lex_cmp_flip(a.skip(1), b.skip(1));
    }
}

/// Compares two strings by code points, as byte-wise comparison of their
/// UTF-8 forms orders them.
pub fn str_cmp(a: &str, b: &str) -> (r: Rel)
    ensures
        r == lex_cmp(a@, b@),
{
    let alen = a.unicode_len();
    let blen = b.unicode_len();
    let mut i: usize = 0;
    assert(a@.skip(0) =~= a@);
    assert(b@.skip(0) =~= b@);
    while i < alen && i < blen
        invariant
            alen == a@.len(),
            blen == b@.len(),
            0 <= i <= alen,
            i <= blen,
            lex_cmp(a@, b@) == lex_cmp(a@.skip(i as int), b@.skip(i as int)),
        decreases alen - i,
    {
        let ca = a.get_char(i);
        let cb = b.get_char(i);
        let ghost sa = a@.skip(i as int);
        let ghost sb = b@.skip(i as int);
        assert(sa[0] == ca && sb[0] == cb);
        if ca < cb {
            return Rel::Lt;
        }
        if cb < ca {
            return Rel::Gt;
        }
        assert(sa.skip(1) =~= a@.skip(i as int + 1));
        assert(sb.skip(1) =~= b@.skip(i as int + 1));
        i += 1;
    }
    let ghost sa = a@.skip(i as int);
    let ghost sb = b@.skip(i as int);
    if i == alen && i == blen {
        assert(sa.len() == 0 && sb.len() == 0);
        Rel::Eq
    } else if i == alen {
        assert(sa.len() == 0 && sb.len() > 0);
        Rel::Lt
    } else {
        assert(sb.len() == 0 && sa.len() > 0);
        Rel::Gt
    }
}

} // verus!
