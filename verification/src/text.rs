//! Text as sequences of characters: trimming, searching, splitting, and numerals.

use vstd::prelude::*;
use vstd::slice::slice_subrange;
use vstd::string::StringExecFns;
use vstd::utf8::*;

verus! {

/// `String::push` appends one character at the end.
pub assume_specification[ String::push ](s: &mut String, c: char)
    ensures
        final(s)@ == old(s)@.push(c),
;

/// The position of the first `a` in `s`.
pub open spec fn find<A>(s: Seq<A>, a: A) -> Option<int>
    decreases s.len(),
{
    if s.len() == 0 {
        None
    } else if s[0] == a {
        Some(0)
    } else {
        match find(s.drop_first(), a) {
            Some(i) => Some(i + 1),
            None => None,
        }
    }
}

/// The position of the last `a` in `s`.
pub open spec fn rfind<A>(s: Seq<A>, a: A) -> Option<int>
    decreases s.len(),
{
    if s.len() == 0 {
        None
    } else if s.last() == a {
        Some(s.len() - 1)
    } else {
        rfind(s.drop_last(), a)
    }
}

/// What `find` gives, told by the elements.
pub proof fn lemma_find<A>(s: Seq<A>, a: A)
    ensures
        match find(s, a) {
            Some(i) => 0 <= i < s.len() && s[i] == a && forall|j: int|
                0 <= j < i ==> s[j] != a,
            None => forall|j: int| 0 <= j < s.len() ==> s[j] != a,
        },
    decreases s.len(),
{
    if s.len() > 0 && s[0] != a {
        lemma_find(s.drop_first(), a);
        let t = s.drop_first();
        assert forall|j: int| 0 < j < s.len() implies s[j] == t[j - 1] by {}
    }
}

/// `find` is the one position with these properties.
pub proof fn lemma_find_is<A>(s: Seq<A>, a: A, i: int)
    requires
        0 <= i < s.len(),
        s[i] == a,
        forall|j: int| 0 <= j < i ==> s[j] != a,
    ensures
        find(s, a) == Some(i),
{
    lemma_find(s, a);
}

/// What `rfind` gives, told by the elements.
pub proof fn lemma_rfind<A>(s: Seq<A>, a: A)
    ensures
        match rfind(s, a) {
            Some(i) => 0 <= i < s.len() && s[i] == a && forall|j: int|
                i < j < s.len() ==> s[j] != a,
            None => forall|j: int| 0 <= j < s.len() ==> s[j] != a,
        },
    decreases s.len(),
{
    if s.len() > 0 && s.last() != a {
        lemma_rfind(s.drop_last(), a);
        let t = s.drop_last();
        assert forall|j: int| 0 <= j < t.len() implies s[j] == t[j] by {}
    }
}

/// The pieces of `s` between the occurrences of `a`; one more than there are occurrences.
pub open spec fn split<A>(s: Seq<A>, a: A) -> Seq<Seq<A>>
    decreases s.len(),
{
    proof {
        lemma_find(s, a);
    }
    match find(s, a) {
        Some(i) => seq![s.take(i)] + split(s.skip(i + 1), a),
        None => seq![s],
    }
}

/// The pieces put together again, with `sep` between neighbours.
pub open spec fn join<A>(parts: Seq<Seq<A>>, sep: Seq<A>) -> Seq<A>
    decreases parts.len(),
{
    if parts.len() == 0 {
        Seq::empty()
    } else if parts.len() == 1 {
        parts[0]
    } else {
        join(parts.drop_last(), sep) + sep + parts.last()
    }
}

/// The characters that Unicode gives the property White_Space.
pub open spec fn is_white_space(c: char) -> bool {
    ||| '\u{9}' <= c <= '\u{d}'
    ||| c == ' '
    ||| c == '\u{85}'
    ||| c == '\u{a0}'
    ||| c == '\u{1680}'
    ||| '\u{2000}' <= c <= '\u{200a}'
    ||| c == '\u{2028}'
    ||| c == '\u{2029}'
    ||| c == '\u{202f}'
    ||| c == '\u{205f}'
    ||| c == '\u{3000}'
}

pub fn white_space(c: char) -> (r: bool)
    ensures
        r == is_white_space(c),
{
    ('\u{9}' <= c && c <= '\u{d}') || c == ' ' || c == '\u{85}' || c == '\u{a0}' || c == '\u{1680}'
        || ('\u{2000}' <= c && c <= '\u{200a}') || c == '\u{2028}' || c == '\u{2029}' || c
        == '\u{202f}' || c == '\u{205f}' || c == '\u{3000}'
}

/// `s` without the white space at its start.
pub open spec fn trim_start(s: Seq<char>) -> Seq<char>
    decreases s.len(),
{
    if s.len() > 0 && is_white_space(s[0]) {
        trim_start(s.drop_first())
    } else {
        s
    }
}

/// `s` without the white space at its end.
pub open spec fn trim_end(s: Seq<char>) -> Seq<char>
    decreases s.len(),
{
    if s.len() > 0 && is_white_space(s.last()) {
        trim_end(s.drop_last())
    } else {
        s
    }
}

/// `s` without the white space at either end.
pub open spec fn trimmed(s: Seq<char>) -> Seq<char> {
    trim_end(trim_start(s))
}

/// `s` without the run of `c` at its end.
pub open spec fn strip_trailing(s: Seq<char>, c: char) -> Seq<char>
    decreases s.len(),
{
    if s.len() > 0 && s.last() == c {
        strip_trailing(s.drop_last(), c)
    } else {
        s
    }
}

pub fn trim<'a>(s: &'a [char]) -> (r: &'a [char])
    ensures
        r@ == trimmed(s@),
{
    let mut start: usize = 0;
    assert(s@.skip(0) =~= s@);
    while start < s.len() && white_space(s[start])
        invariant
            start <= s@.len(),
            trim_start(s@) == trim_start(s@.skip(start as int)),
        decreases s@.len() - start,
    {
        assert(s@.skip(start as int).drop_first() =~= s@.skip(start + 1));
        start += 1;
    }
    assert(trim_start(s@) == s@.skip(start as int));
    let mut end: usize = s.len();
    assert(s@.subrange(start as int, end as int) =~= s@.skip(start as int));
    while start < end && white_space(s[end - 1])
        invariant
            start <= end <= s@.len(),
            trimmed(s@) == trim_end(s@.subrange(start as int, end as int)),
        decreases end,
    {
        assert(s@.subrange(start as int, end as int).drop_last() =~= s@.subrange(
            start as int,
            end - 1,
        ));
        end -= 1;
    }
    slice_subrange(s, start, end)
}

pub fn strip_end<'a>(s: &'a [char], c: char) -> (r: &'a [char])
    ensures
        r@ == strip_trailing(s@, c),
{
    let mut end: usize = s.len();
    assert(s@.take(end as int) =~= s@);
    while 0 < end && s[end - 1] == c
        invariant
            end <= s@.len(),
            strip_trailing(s@, c) == strip_trailing(s@.take(end as int), c),
        decreases end,
    {
        assert(s@.take(end as int).drop_last() =~= s@.take(end - 1));
        end -= 1;
    }
    assert(s@.subrange(0, end as int) =~= s@.take(end as int));
    slice_subrange(s, 0, end)
}

pub open spec fn starts_with(s: Seq<char>, prefix: Seq<char>) -> bool {
    prefix.len() <= s.len() && s.take(prefix.len() as int) == prefix
}

/// What follows `prefix`, if `s` starts with it.
pub fn after_prefix<'a>(s: &'a [char], prefix: &str) -> (r: Option<&'a [char]>)
    ensures
        match r {
            Some(rest) => starts_with(s@, prefix@) && rest@ == s@.skip(prefix@.len() as int),
            None => !starts_with(s@, prefix@),
        },
{
    let start = chars_of(prefix);
    let n: usize = start.len();
    let len: usize = s.len();
    if len < n {
        return None;
    }
    let head = slice_subrange(s, 0, n);
    assert(head@ =~= s@.take(n as int));
    if is_text(head, prefix) {
        let rest = slice_subrange(s, n, len);
        assert(rest@ =~= s@.skip(n as int));
        Some(rest)
    } else {
        None
    }
}

/// The characters of a string.
pub fn chars_of(s: &str) -> (r: Vec<char>)
    ensures
        r@ == s@,
{
    let mut r: Vec<char> = Vec::new();
    for c in it: s.chars()
        invariant
            it.seq() == s@,
            r@ == s@.take(it.index() as int),
    {
        r.push(c);
    }
    assert(s@.take(s@.len() as int) =~= s@);
    r
}

/// The string of some characters.
pub fn string_of(chars: &[char]) -> (r: String)
    ensures
        r@ == chars@,
{
    let mut r = String::new();
    let mut i: usize = 0;
    while i < chars.len()
        invariant
            i <= chars@.len(),
            r@ == chars@.take(i as int),
        decreases chars@.len() - i,
    {
        r.push(chars[i]);
        i += 1;
        assert(chars@.take(i as int) =~= chars@.take(i - 1).push(chars@[i - 1]));
    }
    assert(chars@.take(i as int) =~= chars@);
    r
}

/// Whether the characters are those of `text`.
pub fn is_text(chars: &[char], text: &str) -> (r: bool)
    ensures
        r == (chars@ == text@),
{
    let other = chars_of(text);
    if chars.len() != other.len() {
        return false;
    }
    let mut i: usize = 0;
    while i < chars.len()
        invariant
            i <= chars@.len(),
            chars@.len() == other@.len(),
            other@ == text@,
            forall|j: int| 0 <= j < i ==> chars@[j] == other@[j],
        decreases chars@.len() - i,
    {
        if chars[i] != other[i] {
            return false;
        }
        i += 1;
    }
    assert(chars@ =~= other@);
    true
}

pub fn find_char(s: &[char], c: char) -> (r: Option<usize>)
    ensures
        match r {
            Some(i) => find(s@, c) == Some(i as int) && i < s@.len(),
            None => find(s@, c) is None,
        },
{
    proof {
        lemma_find(s@, c);
    }
    let mut i: usize = 0;
    while i < s.len()
        invariant
            i <= s@.len(),
            forall|j: int| 0 <= j < i ==> s@[j] != c,
        decreases s@.len() - i,
    {
        if s[i] == c {
            proof {
                lemma_find_is(s@, c, i as int);
            }
            return Some(i);
        }
        i += 1;
    }
    None
}

/// The pieces between the occurrences of `c`.
pub fn split_chars<'a>(s: &'a [char], c: char) -> (r: Vec<&'a [char]>)
    ensures
        r@.len() == split(s@, c).len(),
        forall|i: int| 0 <= i < r@.len() ==> (#[trigger] r@[i])@ == split(s@, c)[i],
{
    let mut r: Vec<&'a [char]> = Vec::new();
    let mut rest: &'a [char] = s;
    let ghost all = split(s@, c);
    proof {
        lemma_split_len(s@, c);
    }
    loop
        invariant
            all == split(s@, c),
            r@.len() + split(rest@, c).len() == all.len(),
            forall|i: int| 0 <= i < r@.len() ==> (#[trigger] r@[i])@ == all[i],
            split(rest@, c) == all.skip(r@.len() as int),
        decreases rest@.len(),
    {
        let ghost before = split(rest@, c);
        let len: usize = rest.len();
        match find_char(rest, c) {
            Some(i) => {
                let piece = slice_subrange(rest, 0, i);
                let next = slice_subrange(rest, i + 1, len);
                proof {
                    assert(piece@ =~= rest@.take(i as int));
                    assert(next@ =~= rest@.skip(i + 1));
                    assert(before == seq![piece@] + split(next@, c));
                    assert(before[0] == piece@);
                    assert(before[0] == all[r@.len() as int]);
                    assert(before.skip(1) =~= split(next@, c));
                    assert(all.skip(r@.len() as int).skip(1) =~= all.skip(r@.len() as int + 1));
                }
                r.push(piece);
                rest = next;
            },
            None => {
                proof {
                    assert(before == seq![rest@]);
                    assert(before[0] == all[r@.len() as int]);
                }
                r.push(rest);
                return r;
            },
        }
    }
}

/// There is always at least one piece.
pub proof fn lemma_split_len<A>(s: Seq<A>, a: A)
    ensures
        split(s, a).len() >= 1,
    decreases s.len(),
{
    lemma_find(s, a);
    if find(s, a) is Some {
        lemma_split_len(s.skip(find(s, a)->0 + 1), a);
    }
}

/// Joining can also start from the first piece.
pub proof fn lemma_join_front<A>(first: Seq<A>, rest: Seq<Seq<A>>, sep: Seq<A>)
    requires
        rest.len() >= 1,
    ensures
        join(seq![first] + rest, sep) == first + sep + join(rest, sep),
    decreases rest.len(),
{
    let all = seq![first] + rest;
    assert(all.drop_last() =~= seq![first] + rest.drop_last());
    if rest.len() > 1 {
        lemma_join_front(first, rest.drop_last(), sep);
        assert(join(all, sep) =~= first + sep + join(rest, sep));
    } else {
        assert(rest.drop_last() =~= Seq::empty());
        assert(all.drop_last() =~= seq![first]);
        assert(join(all.drop_last(), sep) == first);
        assert(join(all, sep) == join(all.drop_last(), sep) + sep + all.last());
        assert(join(all, sep) =~= first + sep + join(rest, sep));
    }
}

/// Splitting loses nothing: the pieces joined again are the text.
pub proof fn lemma_join_split<A>(s: Seq<A>, a: A)
    ensures
        join(split(s, a), seq![a]) == s,
    decreases s.len(),
{
    lemma_find(s, a);
    match find(s, a) {
        Some(i) => {
            let rest = s.skip(i + 1);
            lemma_join_split(rest, a);
            lemma_split_len(rest, a);
            lemma_join_front(s.take(i), split(rest, a), seq![a]);
            assert(s.take(i) + seq![a] + rest =~= s);
        },
        None => {},
    }
}

/// The UTF-8 form of two texts put together.
pub proof fn lemma_encode_concat(a: Seq<char>, b: Seq<char>)
    ensures
        encode_utf8(a + b) == encode_utf8(a) + encode_utf8(b),
    decreases a.len(),
{
    if a.len() == 0 {
        assert(a + b =~= b);
        assert(encode_utf8(a) + encode_utf8(b) =~= encode_utf8(b));
    } else {
        assert((a + b).drop_first() =~= a.drop_first() + b);
        lemma_encode_concat(a.drop_first(), b);
        assert(encode_utf8(a + b) =~= encode_utf8(a) + encode_utf8(b));
    }
}

/// ASCII upper case to lower case; every other character stays.
pub open spec fn lower_char(c: char) -> char {
    if 'A' <= c <= 'Z' {
        ((c as u8 + 32) as u8) as char
    } else {
        c
    }
}

pub open spec fn lowered(s: Seq<char>) -> Seq<char> {
    s.map_values(|c: char| lower_char(c))
}

pub fn to_lower_char(c: char) -> (r: char)
    ensures
        r == lower_char(c),
{
    if 'A' <= c && c <= 'Z' {
        ((c as u8) + 32) as char
    } else {
        c
    }
}

pub fn to_lower(s: &[char]) -> (r: Vec<char>)
    ensures
        r@ == lowered(s@),
{
    let mut r: Vec<char> = Vec::new();
    let mut i: usize = 0;
    while i < s.len()
        invariant
            i <= s@.len(),
            r@ == lowered(s@.take(i as int)),
        decreases s@.len() - i,
    {
        r.push(to_lower_char(s[i]));
        i += 1;
        assert(r@ =~= lowered(s@.take(i as int)));
    }
    assert(s@.take(i as int) =~= s@);
    r
}

/// Two texts put together.
pub fn concat2(a: &str, b: &str) -> (r: String)
    ensures
        r@ == a@ + b@,
{
    let mut r = a.to_owned();
    r.append(b);
    r
}

/// How many bytes the UTF-8 form of a character has.
pub fn utf8_width(c: char) -> (r: usize)
    ensures
        r == encode_scalar(c as u32).len(),
        1 <= r <= 4,
{
    if c <= '\u{7f}' {
        1
    } else if c <= '\u{7ff}' {
        2
    } else if c <= '\u{ffff}' {
        3
    } else {
        4
    }
}

pub open spec fn is_digit(c: char) -> bool {
    '0' <= c <= '9'
}

pub open spec fn is_ascii_alnum(c: char) -> bool {
    ||| '0' <= c <= '9'
    ||| 'A' <= c <= 'Z'
    ||| 'a' <= c <= 'z'
}

pub fn ascii_alnum(c: char) -> (r: bool)
    ensures
        r == is_ascii_alnum(c),
{
    ('0' <= c && c <= '9') || ('A' <= c && c <= 'Z') || ('a' <= c && c <= 'z')
}

pub open spec fn digit_char(d: nat) -> char {
    ((48 + d) as u8) as char
}

/// The decimal numeral of `n`, without leading zeros.
pub open spec fn decimal(n: nat) -> Seq<char>
    decreases n,
{
    if n < 10 {
        seq![digit_char(n)]
    } else {
        decimal(n / 10).push(digit_char(n % 10))
    }
}

/// The decimal numeral of `n`.
pub fn decimal_of(n: u64) -> (r: String)
    ensures
        r@ == decimal(n as nat),
    decreases n,
{
    let digit = (48 + (n % 10) as u8) as char;
    if n < 10 {
        let mut r = String::new();
        r.push(digit);
        assert(r@ =~= seq![digit_char(n as nat)]);
        r
    } else {
        let mut r = decimal_of(n / 10);
        r.push(digit);
        r
    }
}

// What holds of text.

/// Lower case changes the 26 ASCII capitals, by 32, and nothing else. A text keeps its length.
pub proof fn law_lower_case_changes_capitals_alone(s: Seq<char>)
    ensures
        lowered(s).len() == s.len(),
        forall|i: int|
            0 <= i < s.len() ==> if 'A' <= s[i] <= 'Z' {
                (#[trigger] lowered(s)[i]) as u8 == s[i] as u8 + 32
            } else {
                lowered(s)[i] == s[i]
            },
{
}

/// A decimal numeral ends in the last digit of the number, before which stands the numeral of the
/// tenth part, if the number has more digits.
pub proof fn law_decimals_are_made_of_digits(n: nat)
    ensures
        decimal(n).len() > 0,
        decimal(n).last() as u8 == 0x30 + n % 10,
        n < 10 ==> decimal(n).len() == 1,
        n >= 10 ==> decimal(n).drop_last() == decimal(n / 10),
{
    if n >= 10 {
        assert(decimal(n).drop_last() =~= decimal(n / 10));
    }
}

/// White space is what Unicode says it is.
pub proof fn law_white_space_is_that_of_unicode(c: char)
    ensures
        is_white_space(c) <==> (c == '\t' || c == '\n' || c == '\u{b}' || c == '\u{c}' || c == '\r'
            || c == ' ' || c == '\u{85}' || c == '\u{a0}' || c == '\u{1680}' || '\u{2000}' <= c
            <= '\u{200a}' || c == '\u{2028}' || c == '\u{2029}' || c == '\u{202f}' || c
            == '\u{205f}' || c == '\u{3000}'),
{
}

/// Trimming takes off white space at the ends and nothing else: what is left starts and ends with
/// other characters, and stands between white space.
pub proof fn law_trimming_takes_white_space_alone(s: Seq<char>)
    ensures
        ({
            let r = trimmed(s);
            &&& r.len() > 0 ==> !is_white_space(r[0]) && !is_white_space(r.last())
            &&& exists|i: int, j: int|
                {
                    &&& 0 <= i <= j <= s.len()
                    &&& r == #[trigger] s.subrange(i, j)
                    &&& forall|k: int|
                        (0 <= k < i || j <= k < s.len()) ==> is_white_space(#[trigger] s[k])
                }
        }),
{
    let t = trim_start(s);
    let i = lemma_trim_start(s);
    let n = lemma_trim_end(t);
    let r = trimmed(s);
    assert(r =~= s.subrange(i, i + n));
    assert forall|k: int| (0 <= k < i || i + n <= k < s.len()) implies is_white_space(
        #[trigger] s[k],
    ) by {
        if k >= i {
            assert(t[k - i] == s[k]);
        }
    }
}

proof fn lemma_trim_start(s: Seq<char>) -> (i: int)
    ensures
        0 <= i <= s.len(),
        trim_start(s) == s.skip(i),
        forall|k: int| 0 <= k < i ==> is_white_space(#[trigger] s[k]),
        trim_start(s).len() > 0 ==> !is_white_space(trim_start(s)[0]),
    decreases s.len(),
{
    if s.len() > 0 && is_white_space(s[0]) {
        let rest = s.drop_first();
        let k = lemma_trim_start(rest);
        assert(rest.skip(k) =~= s.skip(k + 1));
        assert forall|m: int| 0 <= m < k + 1 implies is_white_space(#[trigger] s[m]) by {
            if m > 0 {
                assert(rest[m - 1] == s[m]);
            }
        }
        k + 1
    } else {
        assert(s.skip(0) =~= s);
        0
    }
}

proof fn lemma_trim_end(s: Seq<char>) -> (n: int)
    ensures
        0 <= n <= s.len(),
        trim_end(s) == s.take(n),
        forall|k: int| n <= k < s.len() ==> is_white_space(#[trigger] s[k]),
        trim_end(s).len() > 0 ==> !is_white_space(trim_end(s).last()),
        s.len() > 0 && !is_white_space(s[0]) ==> n > 0,
    decreases s.len(),
{
    if s.len() > 0 && is_white_space(s.last()) {
        let front = s.drop_last();
        let n = lemma_trim_end(front);
        assert(front.take(n) =~= s.take(n));
        assert forall|k: int| n <= k < s.len() implies is_white_space(#[trigger] s[k]) by {
            if k < front.len() {
                assert(front[k] == s[k]);
            }
        }
        n
    } else {
        assert(s.take(s.len() as int) =~= s);
        s.len() as int
    }
}

/// The pieces of a text hold no separator, and put together with it they are the text.
pub proof fn law_splitting_loses_nothing<A>(s: Seq<A>, a: A)
    ensures
        join(split(s, a), seq![a]) == s,
        forall|i: int| 0 <= i < split(s, a).len() ==> !(#[trigger] split(s, a)[i]).contains(a),
    decreases s.len(),
{
    lemma_join_split(s, a);
    lemma_find(s, a);
    match find(s, a) {
        Some(k) => {
            let rest = s.skip(k + 1);
            law_splitting_loses_nothing(rest, a);
            assert forall|i: int| 0 <= i < split(s, a).len() implies !(#[trigger] split(
                s,
                a,
            )[i]).contains(a) by {
                if i > 0 {
                    assert(split(s, a)[i] == split(rest, a)[i - 1]);
                } else {
                    assert(split(s, a)[0] == s.take(k));
                }
            }
        },
        None => {},
    }
}

/// A text that starts with a piece and the separator is split there.
pub proof fn lemma_split_first<A>(piece: Seq<A>, a: A, rest: Seq<A>)
    requires
        !piece.contains(a),
    ensures
        split(piece, a) == seq![piece],
        split(piece + seq![a] + rest, a) == seq![piece] + split(rest, a),
{
    let all = piece + seq![a] + rest;
    lemma_find(piece, a);
    if find(piece, a) is Some {
        assert(piece.contains(piece[find(piece, a)->0]));
    }
    assert forall|j: int| 0 <= j < piece.len() implies all[j] != a by {
        assert(all[j] == piece[j]);
        assert(piece.contains(piece[j]));
    }
    lemma_find_is(all, a, piece.len() as int);
    assert(all.take(piece.len() as int) =~= piece);
    assert(all.skip(piece.len() as int + 1) =~= rest);
}

/// Pieces that hold no separator are found again in what they are joined to.
pub proof fn lemma_split_join<A>(pieces: Seq<Seq<A>>, a: A)
    requires
        pieces.len() > 0,
        forall|i: int| 0 <= i < pieces.len() ==> !(#[trigger] pieces[i]).contains(a),
    ensures
        split(join(pieces, seq![a]), a) == pieces,
    decreases pieces.len(),
{
    let first = pieces[0];
    let rest = pieces.skip(1);
    if pieces.len() == 1 {
        lemma_split_first(first, a, Seq::empty());
        assert(pieces =~= seq![first]);
    } else {
        assert forall|i: int| 0 <= i < rest.len() implies !(#[trigger] rest[i]).contains(a) by {
            assert(rest[i] == pieces[i + 1]);
        }
        lemma_split_join(rest, a);
        lemma_join_front(first, rest, seq![a]);
        assert(seq![first] + rest =~= pieces);
        lemma_split_first(first, a, join(rest, seq![a]));
    }
}

/// A text that neither starts nor ends with white space is not trimmed.
pub proof fn lemma_trimmed(s: Seq<char>)
    requires
        s.len() > 0,
        !is_white_space(s[0]),
        !is_white_space(s.last()),
    ensures
        trimmed(s) == s,
{
}

/// White space round a text is trimmed.
pub proof fn lemma_trim_round(a: Seq<char>, s: Seq<char>, b: Seq<char>)
    requires
        s.len() > 0,
        !is_white_space(s[0]),
        !is_white_space(s.last()),
        forall|i: int| 0 <= i < a.len() ==> is_white_space(#[trigger] a[i]),
        forall|i: int| 0 <= i < b.len() ==> is_white_space(#[trigger] b[i]),
    ensures
        trimmed(a + s + b) == s,
    decreases a.len() + b.len(),
{
    let all = a + s + b;
    if a.len() > 0 {
        lemma_trim_round(a.drop_first(), s, b);
        assert(all.drop_first() =~= a.drop_first() + s + b);
        assert(all[0] == a[0]);
    } else if b.len() > 0 {
        lemma_trim_round(a, s, b.drop_last());
        assert(all[0] == s[0]);
        assert(all.drop_last() =~= a + s + b.drop_last());
        assert(all.last() == b[b.len() - 1]);
        assert((a + s + b.drop_last())[0] == s[0]);
    } else {
        assert(all =~= s);
    }
}


} // verus!
