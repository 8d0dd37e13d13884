//! Header fields and their relaxed canonicalization.

use vstd::prelude::*;
use vstd::slice::slice_to_vec;

use crate::body::{CR, LF, SP, TAB};
use crate::body::crlf;

verus! {

pub const COLON: u8 = 0x3a;

/// The longest header name that is taken.
pub const MAX_NAME: usize = 998;

pub open spec fn lower_byte(b: u8) -> u8 {
    if 0x41 <= b <= 0x5a {
        (b + 0x20) as u8
    } else {
        b
    }
}

/// The bytes with ASCII upper case turned to lower case.
pub open spec fn lower_bytes(s: Seq<u8>) -> Seq<u8> {
    s.map_values(|b: u8| lower_byte(b))
}

pub fn to_lower_byte(b: u8) -> (r: u8)
    ensures
        r == lower_byte(b),
{
    if 0x41 <= b && b <= 0x5a {
        b + 0x20
    } else {
        b
    }
}

/// A byte that a header name can hold: an ASCII letter or digit, or a hyphen.
pub open spec fn is_name_byte(b: u8) -> bool {
    ||| 0x30 <= b <= 0x39
    ||| 0x41 <= b <= 0x5a
    ||| 0x61 <= b <= 0x7a
    ||| b == 0x2d
}

pub fn name_byte(b: u8) -> (r: bool)
    ensures
        r == is_name_byte(b),
{
    (0x30 <= b && b <= 0x39) || (0x41 <= b && b <= 0x5a) || (0x61 <= b && b <= 0x7a) || b == 0x2d
}

/// The header fields that can be signed.
pub open spec fn is_header(name: Seq<u8>, value: Seq<u8>) -> bool {
    &&& 0 < name.len() <= MAX_NAME
    &&& forall|i: int| 0 <= i < name.len() ==> is_name_byte(#[trigger] name[i])
    &&& !value.contains(0)
}

pub struct HeaderView {
    pub name: Seq<u8>,
    pub value: Seq<u8>,
}

impl HeaderView {
    /// Whether the field has this name; the case of ASCII letters does not matter.
    pub open spec fn named(self, name: Seq<char>) -> bool {
        lower_bytes(self.name) == lower_bytes(vstd::utf8::encode_utf8(name))
    }
}

#[derive(Debug)]
pub struct Header {
    pub name: Vec<u8>,
    pub value: Vec<u8>,
}

impl View for Header {
    type V = HeaderView;

    open spec fn view(&self) -> HeaderView {
        HeaderView { name: self.name@, value: self.value@ }
    }
}

/// The names and values of header fields.
pub open spec fn fields(headers: Seq<Header>) -> Seq<HeaderView> {
    Seq::new(headers.len(), |i: int| headers[i]@)
}

impl Header {

    /// Takes a name and a value as the MTA sent them.
    pub fn new(name: &[u8], value: &[u8]) -> (r: Result<Self, String>)
        ensures
            match r {
                Ok(h) => is_header(name@, value@) && h@ == (HeaderView {
                    name: name@,
                    value: value@,
                }),
                Err(e) => !is_header(name@, value@) && e@ == "invalid header supplied by MTA"@,
            },
    {
        let good = name.len() != 0 && name.len() <= MAX_NAME && all_name_bytes(name) && !contains_nul(
            value,
        );
        if good {
            Ok(Header { name: slice_to_vec(name), value: slice_to_vec(value) })
        } else {
            Err("invalid header supplied by MTA".to_owned())
        }
    }

    /// Whether the field has this name; the case of ASCII letters does not matter.
    pub fn is(&self, name: &str) -> (r: bool)
        ensures
            r == self@.named(name@),
    {
        same_ignoring_case(self.name.as_slice(), name.as_bytes())
    }
}

impl Clone for Header {
    fn clone(&self) -> (r: Self)
        ensures
            r@ == self@,
    {
        Header {
            name: slice_to_vec(self.name.as_slice()),
            value: slice_to_vec(self.value.as_slice()),
        }
    }
}

fn all_name_bytes(s: &[u8]) -> (r: bool)
    ensures
        r == (forall|i: int| 0 <= i < s@.len() ==> is_name_byte(#[trigger] s@[i])),
{
    let mut i: usize = 0;
    while i < s.len()
        invariant
            i <= s@.len(),
            forall|j: int| 0 <= j < i ==> is_name_byte(#[trigger] s@[j]),
        decreases s@.len() - i,
    {
        if !name_byte(s[i]) {
            return false;
        }
        i += 1;
    }
    true
}

pub fn contains_nul(s: &[u8]) -> (r: bool)
    ensures
        r == s@.contains(0),
{
    let mut i: usize = 0;
    while i < s.len()
        invariant
            i <= s@.len(),
            forall|j: int| 0 <= j < i ==> s@[j] != 0,
        decreases s@.len() - i,
    {
        if s[i] == 0 {
            return true;
        }
        i += 1;
    }
    false
}

/// Compares bytes without regard to the case of ASCII letters.
pub fn same_ignoring_case(a: &[u8], b: &[u8]) -> (r: bool)
    ensures
        r == (lower_bytes(a@) == lower_bytes(b@)),
{
    assert(lower_bytes(a@).len() == a@.len() && lower_bytes(b@).len() == b@.len());
    if a.len() != b.len() {
        return false;
    }
    let mut i: usize = 0;
    while i < a.len()
        invariant
            i <= a@.len(),
            a@.len() == b@.len(),
            forall|j: int| 0 <= j < i ==> lower_byte(a@[j]) == lower_byte(b@[j]),
        decreases a@.len() - i,
    {
        if to_lower_byte(a[i]) != to_lower_byte(b[i]) {
            assert(lower_bytes(a@)[i as int] != lower_bytes(b@)[i as int]);
            return false;
        }
        i += 1;
    }
    assert(lower_bytes(a@) =~= lower_bytes(b@));
    true
}

/// White space inside a header value: spaces, tabs, and the line ends of folded lines.
pub open spec fn is_fws(b: u8) -> bool {
    b == SP || b == TAB || b == CR || b == LF
}

/// A header value unfolded, with each run of white space reduced to one space, and none at
/// either end.
pub open spec fn relaxed_value(value: Seq<u8>) -> Seq<u8>
    decreases value.len(),
{
    if value.len() == 0 {
        Seq::empty()
    } else if is_fws(value.last()) {
        relaxed_value(value.drop_last())
    } else {
        let before = value.drop_last();
        if before.len() > 0 && is_fws(before.last()) && relaxed_value(before).len() > 0 {
            relaxed_value(before).push(SP).push(value.last())
        } else {
            relaxed_value(before).push(value.last())
        }
    }
}

/// The relaxed form of a header field.
pub open spec fn relaxed_header(name: Seq<u8>, value: Seq<u8>) -> Seq<u8> {
    lower_bytes(name).push(COLON) + relaxed_value(value) + crlf()
}

/// The relaxed form of a header field, ended by CRLF.
pub fn canonicalize_header(name: &[u8], value: &[u8]) -> (r: Vec<u8>)
    ensures
        r@ == relaxed_header(name@, value@),
{
    let mut out: Vec<u8> = Vec::new();
    let mut i: usize = 0;
    while i < name.len()
        invariant
            i <= name@.len(),
            out@ == lower_bytes(name@.take(i as int)),
        decreases name@.len() - i,
    {
        out.push(to_lower_byte(name[i]));
        i += 1;
        assert(out@ =~= lower_bytes(name@.take(i as int)));
    }
    assert(name@.take(i as int) =~= name@);
    out.push(COLON);
    let ghost start = out@;
    let mut pending_wsp: bool = false;
    let mut has_text: bool = false;
    let mut index: usize = 0;
    assert(start + relaxed_value(value@.take(0)) =~= start);
    while index < value.len()
        invariant
            index <= value@.len(),
            pending_wsp == (index > 0 && is_fws(value@[index - 1])),
            has_text == (relaxed_value(value@.take(index as int)).len() > 0),
            out@ == start + relaxed_value(value@.take(index as int)),
        decreases value@.len() - index,
    {
        let byte = value[index];
        let ghost before = value@.take(index as int);
        assert(value@.take(index + 1).drop_last() =~= before);
        if byte == SP || byte == TAB || byte == CR || byte == LF {
            pending_wsp = true;
        } else {
            if pending_wsp && has_text {
                out.push(SP);
            }
            pending_wsp = false;
            has_text = true;
            out.push(byte);
        }
        index += 1;
        assert(out@ =~= start + relaxed_value(value@.take(index as int)));
    }
    assert(value@.take(index as int) =~= value@);
    out.push(CR);
    out.push(LF);
    assert(out@ =~= relaxed_header(name@, value@));
    out
}

/// A relaxed value has no white space at either end, and none in it but single spaces.
pub proof fn law_relaxed_values_are_relaxed(value: Seq<u8>)
    ensures
        ({
            let r = relaxed_value(value);
            &&& r.len() > 0 ==> !is_fws(r.first()) && !is_fws(r.last())
            &&& forall|i: int|
                0 <= i < r.len() && is_fws(#[trigger] r[i]) ==> r[i] == SP && i + 1 < r.len()
                    && !is_fws(r[i + 1])
        }),
    decreases value.len(),
{
    if value.len() > 0 {
        let before = value.drop_last();
        law_relaxed_values_are_relaxed(before);
        let inner = relaxed_value(before);
        let r = relaxed_value(value);
        if !is_fws(value.last()) {
            assert forall|i: int| 0 <= i < r.len() && is_fws(#[trigger] r[i]) implies r[i] == SP
                && i + 1 < r.len() && !is_fws(r[i + 1]) by {
                if i < inner.len() {
                    assert(r[i] == inner[i]);
                    assert(r[i + 1] == inner[i + 1]);
                }
            }
            if inner.len() > 0 {
                assert(r.first() == inner.first());
            }
        }
    }
}

proof fn lemma_relaxed_stays(r: Seq<u8>, n: int)
    requires
        0 <= n <= r.len(),
        r.len() > 0 ==> !is_fws(r.first()),
        forall|i: int|
            0 <= i < r.len() && is_fws(#[trigger] r[i]) ==> r[i] == SP && i + 1 < r.len()
                && !is_fws(r[i + 1]),
    ensures
        relaxed_value(r.take(n)) == if n > 0 && is_fws(r[n - 1]) {
            r.take(n - 1)
        } else {
            r.take(n)
        },
    decreases n,
{
    if n > 0 {
        let here = r.take(n);
        assert(here.drop_last() =~= r.take(n - 1));
        lemma_relaxed_stays(r, n - 1);
        if !is_fws(r[n - 1]) {
            assert(relaxed_value(here) =~= here);
        }
    }
}

/// Relaxing a value again changes nothing.
pub proof fn law_relaxing_a_value_again_changes_nothing(value: Seq<u8>)
    ensures
        relaxed_value(relaxed_value(value)) == relaxed_value(value),
{
    law_relaxed_values_are_relaxed(value);
    let r = relaxed_value(value);
    lemma_relaxed_stays(r, r.len() as int);
    assert(r.take(r.len() as int) =~= r);
}

// What a relaxed header keeps.

/// The bytes that are neither space, tab, CR nor LF, in their order.
pub open spec fn visible(s: Seq<u8>) -> Seq<u8> {
    s.filter(|b: u8| b != 0x20 && b != 0x09 && b != 0x0d && b != 0x0a)
}

/// Whether all bytes are spaces, tabs, CR or LF.
pub open spec fn is_blank(s: Seq<u8>) -> bool {
    forall|i: int|
        0 <= i < s.len() ==> #[trigger] s[i] == 0x20 || s[i] == 0x09 || s[i] == 0x0d || s[i] == 0x0a
}

/// Whether no byte is a space, tab, CR or LF.
pub open spec fn is_solid(s: Seq<u8>) -> bool {
    forall|i: int|
        0 <= i < s.len() ==> #[trigger] s[i] != 0x20 && s[i] != 0x09 && s[i] != 0x0d && s[i] != 0x0a
}

pub proof fn lemma_visible_push(s: Seq<u8>, b: u8)
    ensures
        visible(s.push(b)) == if b != 0x20 && b != 0x09 && b != 0x0d && b != 0x0a {
            visible(s).push(b)
        } else {
            visible(s)
        },
        visible(Seq::empty()) == Seq::<u8>::empty(),
{
    reveal(Seq::filter);
    assert(s.push(b).drop_last() =~= s);
}

pub proof fn lemma_visible_add(a: Seq<u8>, b: Seq<u8>)
    ensures
        visible(a + b) == visible(a) + visible(b),
{
    Seq::filter_distributes_over_add(
        a,
        b,
        |b: u8| b != 0x20 && b != 0x09 && b != 0x0d && b != 0x0a,
    );
}

/// Relaxing a value keeps every byte that is not white space, and their order. Only space, tab, CR
/// and LF are white space.
pub proof fn law_relaxed_values_keep_their_text(value: Seq<u8>)
    ensures
        visible(relaxed_value(value)) == visible(value),
    decreases value.len(),
{
    if value.len() == 0 {
        assert(value =~= Seq::empty());
    } else {
        let before = value.drop_last();
        let inner = relaxed_value(before);
        law_relaxed_values_keep_their_text(before);
        assert(before.push(value.last()) =~= value);
        lemma_visible_push(before, value.last());
        lemma_visible_push(inner, 0x20);
        lemma_visible_push(inner, value.last());
        lemma_visible_push(inner.push(0x20), value.last());
    }
}

/// A value without white space is its own relaxed form. White space at the end is dropped.
/// Between two words, or any text and a word, white space of any kind and length becomes one
/// space; before the first word it is dropped.
pub proof fn law_words_of_values_are_parted_by_one_space(
    value: Seq<u8>,
    space: Seq<u8>,
    word: Seq<u8>,
)
    requires
        is_blank(space),
        space.len() > 0,
        is_solid(word),
        word.len() > 0,
    ensures
        relaxed_value(word) == word,
        relaxed_value(value + space) == relaxed_value(value),
        relaxed_value(value + space + word) == if relaxed_value(value).len() == 0 {
            word
        } else {
            relaxed_value(value) + seq![0x20u8] + word
        },
{
    lemma_blank_end(value, space);
    lemma_solid_start(word);
    lemma_solid_end(value, space, word);
}

proof fn lemma_blank_end(value: Seq<u8>, space: Seq<u8>)
    requires
        is_blank(space),
    ensures
        relaxed_value(value + space) == relaxed_value(value),
    decreases space.len(),
{
    if space.len() == 0 {
        assert(value + space =~= value);
    } else {
        lemma_blank_end(value, space.drop_last());
        assert((value + space).drop_last() =~= value + space.drop_last());
        assert((value + space).last() == space.last());
    }
}

proof fn lemma_solid_start(word: Seq<u8>)
    requires
        is_solid(word),
    ensures
        relaxed_value(word) == word,
    decreases word.len(),
{
    if word.len() > 0 {
        lemma_solid_start(word.drop_last());
        if word.len() > 1 {
            assert(word.drop_last().last() == word[word.len() - 2]);
        }
        assert(word.drop_last().push(word.last()) =~= word);
    }
}

proof fn lemma_solid_end(value: Seq<u8>, space: Seq<u8>, word: Seq<u8>)
    requires
        is_blank(space),
        space.len() > 0,
        is_solid(word),
        word.len() > 0,
    ensures
        relaxed_value(value + space + word) == if relaxed_value(value).len() == 0 {
            word
        } else {
            relaxed_value(value) + seq![0x20u8] + word
        },
    decreases word.len(),
{
    let all = value + space + word;
    lemma_blank_end(value, space);
    if word.len() == 1 {
        assert(all.drop_last() =~= value + space);
        assert((value + space).last() == space.last());
        assert(all.last() == word[0]);
        if relaxed_value(value).len() == 0 {
            assert(relaxed_value(all) =~= word);
        } else {
            assert(relaxed_value(all) =~= relaxed_value(value) + seq![0x20u8] + word);
        }
    } else {
        let front = word.drop_last();
        lemma_solid_end(value, space, front);
        assert(all.drop_last() =~= value + space + front);
        assert(all.last() == word.last());
        assert((value + space + front).last() == word[word.len() - 2]);
        if relaxed_value(value).len() == 0 {
            assert(relaxed_value(all) =~= word);
        } else {
            assert(relaxed_value(all) =~= relaxed_value(value) + seq![0x20u8] + word);
        }
    }
}

/// A relaxed header is the name with its ASCII letters in lower case and all else as it is, a
/// colon, the relaxed value, CR and LF.
pub proof fn law_relaxed_headers_have_four_parts(name: Seq<u8>, value: Seq<u8>)
    ensures
        ({
            let r = relaxed_header(name, value);
            let n = name.len() as int;
            &&& r.len() == n + 1 + relaxed_value(value).len() + 2
            &&& forall|i: int|
                0 <= i < n ==> #[trigger] r[i] == if 0x41 <= name[i] <= 0x5a {
                    name[i] + 0x20
                } else {
                    name[i] as int
                }
            &&& r[n] == 0x3a
            &&& r.subrange(n + 1, r.len() - 2) == relaxed_value(value)
            &&& r[r.len() - 2] == 0x0d && r[r.len() - 1] == 0x0a
        }),
{
    let r = relaxed_header(name, value);
    assert(r.subrange(name.len() as int + 1, r.len() - 2) =~= relaxed_value(value));
}

/// Names are compared without regard to the case of ASCII letters, and with regard to all else.
pub proof fn law_names_are_compared_without_case(field: HeaderView, name: Seq<char>)
    ensures
        ({
            let other = vstd::utf8::encode_utf8(name);
            field.named(name) <==> field.name.len() == other.len() && forall|i: int|
                0 <= i < other.len() ==> {
                    ||| #[trigger] field.name[i] == other[i]
                    ||| 0x41 <= field.name[i] <= 0x5a && other[i] == field.name[i] + 0x20
                    ||| 0x41 <= other[i] <= 0x5a && field.name[i] == other[i] + 0x20
                }
        }),
{
    let other = vstd::utf8::encode_utf8(name);
    let a = lower_bytes(field.name);
    let b = lower_bytes(other);
    if field.named(name) {
        assert(a.len() == b.len());
        assert forall|i: int| 0 <= i < other.len() implies {
            ||| #[trigger] field.name[i] == other[i]
            ||| 0x41 <= field.name[i] <= 0x5a && other[i] == field.name[i] + 0x20
            ||| 0x41 <= other[i] <= 0x5a && field.name[i] == other[i] + 0x20
        } by {
            assert(a[i] == b[i]);
        }
    }
    if field.name.len() == other.len() && forall|i: int|
        0 <= i < other.len() ==> {
            ||| #[trigger] field.name[i] == other[i]
            ||| 0x41 <= field.name[i] <= 0x5a && other[i] == field.name[i] + 0x20
            ||| 0x41 <= other[i] <= 0x5a && field.name[i] == other[i] + 0x20
        } {
        assert forall|i: int| 0 <= i < a.len() implies a[i] == b[i] by {
            assert(field.name[i] == field.name[i]);
        }
        assert(a =~= b);
    }
}

/// A field is taken if and only if its name has 1 to 998 ASCII letters, digits and hyphens and its
/// value has no zero byte.
pub proof fn law_good_fields_are_taken(name: Seq<u8>, value: Seq<u8>)
    ensures
        is_header(name, value) <==> {
            &&& 1 <= name.len() <= 998
            &&& forall|i: int|
                0 <= i < name.len() ==> (0x30 <= #[trigger] name[i] <= 0x39 || 0x41 <= name[i]
                    <= 0x5a || 0x61 <= name[i] <= 0x7a || name[i] == 0x2d)
            &&& forall|i: int| 0 <= i < value.len() ==> #[trigger] value[i] != 0
        },
{
    if is_header(name, value) {
        assert forall|i: int| 0 <= i < name.len() implies (0x30 <= #[trigger] name[i] <= 0x39
            || 0x41 <= name[i] <= 0x5a || 0x61 <= name[i] <= 0x7a || name[i] == 0x2d) by {
            assert(is_name_byte(name[i]));
        }
        assert forall|i: int| 0 <= i < value.len() implies #[trigger] value[i] != 0 by {
            if value[i] == 0 {
                assert(value.contains(0));
            }
        }
    }
}

} // verus!
