//! Folding of long header values.

use vstd::prelude::*;
use vstd::utf8::*;

use crate::header::{is_fws, relaxed_value};
use crate::text::{
    chars_of, find, join, lemma_encode_concat, lemma_find, lemma_find_is, lemma_join_split,
    lemma_rfind, lemma_split_len, rfind, split, split_chars, string_of, utf8_width,
};

verus! {

/// The widest line, in bytes, that another word is put on.
pub const LINE_LIMIT: u128 = 72;

/// The words laid out so far, and the width of the line they end on.
pub open spec fn folded(words: Seq<Seq<char>>) -> (Seq<char>, nat)
    decreases words.len(),
{
    if words.len() == 0 {
        (Seq::empty(), 0)
    } else {
        let (out, column) = folded(words.drop_last());
        let word = words.last();
        let width = encode_utf8(word).len();
        (
            out + gap(column, width) + word,
            if column == 0 {
                width
            } else if column + width + 1 > LINE_LIMIT {
                width + 1
            } else {
                column + width + 1
            },
        )
    }
}

/// What parts a word of this width from a line that is `column` wide.
pub open spec fn gap(column: nat, width: nat) -> Seq<char> {
    if column == 0 {
        Seq::empty()
    } else if column + width + 1 > LINE_LIMIT {
        seq!['\r', '\n', '\t']
    } else {
        seq![' ']
    }
}

/// The value with its spaces turned into line folds where a line would grow too wide.
pub open spec fn folded_text(value: Seq<char>) -> Seq<char> {
    folded(split(value, ' ')).0
}

fn word_width(word: &[char]) -> (r: u128)
    ensures
        r == encode_utf8(word@).len(),
        r <= 4 * word@.len(),
{
    let mut width: u128 = 0;
    let mut i: usize = word.len();
    assert(word@.skip(i as int) =~= Seq::empty());
    while 0 < i
        invariant
            i <= word@.len(),
            word@.len() <= usize::MAX,
            width == encode_utf8(word@.skip(i as int)).len(),
            width <= 4 * (word@.len() - i),
        decreases i,
    {
        i -= 1;
        assert(word@.skip(i as int).drop_first() =~= word@.skip(i + 1));
        width += utf8_width(word[i]) as u128;
    }
    assert(word@.skip(0) =~= word@);
    width
}

/// Folds a header value at its spaces.
pub fn fold_signature(value: &str) -> (r: String)
    ensures
        r@ == folded_text(value@),
{
    let chars = chars_of(value);
    let words = split_chars(chars.as_slice(), ' ');
    let ghost all = split(value@, ' ');
    let mut out: Vec<char> = Vec::new();
    let mut column: u128 = 0;
    let mut i: usize = 0;
    assert(all.take(0) =~= Seq::empty());
    while i < words.len()
        invariant
            i <= words@.len(),
            words@.len() == all.len(),
            forall|j: int| 0 <= j < words@.len() ==> (#[trigger] words@[j])@ == all[j],
            out@ == folded(all.take(i as int)).0,
            column == folded(all.take(i as int)).1,
            column <= 4 * (usize::MAX as int) + LINE_LIMIT,
        decreases words@.len() - i,
    {
        let word = words[i];
        assert(all.take(i + 1).drop_last() =~= all.take(i as int));
        assert(all.take(i + 1).last() == word@);
        let width = word_width(word);
        assert(width <= 4 * (usize::MAX as int)) by {
            assert(word@.len() <= usize::MAX) by {
                let n = word.len();
            }
        }
        let ghost done = out@;
        if column == 0 {
            column = width;
        } else {
            if column + width + 1 > LINE_LIMIT {
                out.push('\r');
                out.push('\n');
                out.push('\t');
                column = width + 1;
            } else {
                out.push(' ');
                column = column + width + 1;
            }
        }
        let mut k: usize = 0;
        let ghost lead = out@;
        while k < word.len()
            invariant
                k <= word@.len(),
                out@ == lead + word@.take(k as int),
            decreases word@.len() - k,
        {
            out.push(word[k]);
            k += 1;
        }
        assert(word@.take(k as int) =~= word@);
        i += 1;
    }
    assert(all.take(i as int) =~= all);
    string_of(out.as_slice())
}

spec fn ends_in_space(x: Seq<u8>) -> bool {
    x.len() > 0 && is_fws(x.last())
}

/// Nothing that is appended to both can tell the relaxed forms of `x` and `y` apart.
spec fn alike(x: Seq<u8>, y: Seq<u8>) -> bool {
    &&& relaxed_value(x) == relaxed_value(y)
    &&& relaxed_value(x).len() > 0 ==> ends_in_space(x) == ends_in_space(y)
}

proof fn lemma_alike_append(x: Seq<u8>, y: Seq<u8>, t: Seq<u8>)
    requires
        alike(x, y),
    ensures
        alike(x + t, y + t),
    decreases t.len(),
{
    if t.len() == 0 {
        assert(x + t =~= x && y + t =~= y);
    } else {
        let s = t.drop_last();
        lemma_alike_append(x, y, s);
        assert((x + t).drop_last() =~= x + s);
        assert((y + t).drop_last() =~= y + s);
        assert((x + t).last() == t.last() && (y + t).last() == t.last());
    }
}

proof fn lemma_space_append(x: Seq<u8>, w: Seq<u8>)
    requires
        forall|i: int| 0 <= i < w.len() ==> is_fws(#[trigger] w[i]),
    ensures
        relaxed_value(x + w) == relaxed_value(x),
        w.len() > 0 ==> ends_in_space(x + w),
    decreases w.len(),
{
    if w.len() == 0 {
        assert(x + w =~= x);
    } else {
        assert((x + w).drop_last() =~= x + w.drop_last());
        assert((x + w).last() == w.last());
        lemma_space_append(x, w.drop_last());
    }
}

proof fn lemma_space_bytes()
    ensures
        encode_utf8(seq![' ']) == seq![0x20u8],
        encode_utf8(seq!['\r', '\n', '\t']) == seq![0x0du8, 0x0a, 0x09],
{
    assert(is_ascii_chars(seq![' ']));
    assert(is_ascii_chars(seq!['\r', '\n', '\t']));
    is_ascii_chars_encode_utf8(seq![' ']);
    is_ascii_chars_encode_utf8(seq!['\r', '\n', '\t']);
    let a = seq![' '];
    let b = seq!['\r', '\n', '\t'];
    assert(a[0] as u8 == 0x20 && b[0] as u8 == 0x0d && b[1] as u8 == 0x0a && b[2] as u8 == 0x09);
    assert(encode_utf8(a) =~= seq![0x20u8]);
    assert(encode_utf8(b) =~= seq![0x0du8, 0x0a, 0x09]);
}

/// What stands before the last of several words.
spec fn lead(before: Seq<Seq<char>>) -> Seq<char> {
    if before.len() == 0 {
        Seq::empty()
    } else {
        join(before, seq![' ']) + seq![' ']
    }
}

proof fn lemma_folded_step(before: Seq<Seq<char>>, width: nat, t: Seq<char>)
    requires
        alike(encode_utf8(folded(before).0), encode_utf8(join(before, seq![' ']))),
        folded(before).1 == 0 ==> folded(before).0.len() == 0,
    ensures
        alike(
            encode_utf8(folded(before).0 + gap(folded(before).1, width) + t),
            encode_utf8(lead(before) + t),
        ),
{
    lemma_space_bytes();
    let (out, column) = folded(before);
    let between = gap(column, width);
    let x = encode_utf8(out);
    let y = encode_utf8(join(before, seq![' ']));
    lemma_encode_concat(out + between, t);
    lemma_encode_concat(out, between);
    lemma_encode_concat(lead(before), t);
    lemma_encode_concat(join(before, seq![' ']), seq![' ']);
    if before.len() == 0 {
        assert(out + between =~= lead(before));
    } else if column == 0 {
        assert(out + between =~= Seq::empty());
        lemma_space_append(y, encode_utf8(seq![' ']));
    } else {
        lemma_space_append(x, encode_utf8(between));
        lemma_space_append(y, encode_utf8(seq![' ']));
    }
    lemma_alike_append(encode_utf8(out + between), encode_utf8(lead(before)), encode_utf8(t));
}

proof fn lemma_folded(words: Seq<Seq<char>>)
    ensures
        alike(encode_utf8(folded(words).0), encode_utf8(join(words, seq![' ']))),
        folded(words).1 == 0 ==> folded(words).0.len() == 0,
    decreases words.len(),
{
    if words.len() > 0 {
        let before = words.drop_last();
        let word = words.last();
        let width = encode_utf8(word).len();
        lemma_folded(before);
        lemma_folded_step(before, width, word);
        if width == 0 && word.len() > 0 {
            encode_utf8_first_scalar(word);
        }
        assert(lead(before) + word =~= join(words, seq![' ']));
    }
}

proof fn lemma_split_append(s: Seq<char>, t: Seq<char>)
    requires
        !t.contains(' '),
    ensures
        split(s + t, ' ') == split(s, ' ').drop_last().push(split(s, ' ').last() + t),
    decreases s.len(),
{
    lemma_find(s, ' ');
    lemma_find(s + t, ' ');
    lemma_split_len(s, ' ');
    match find(s, ' ') {
        Some(i) => {
            let rest = s.skip(i + 1);
            lemma_find_is(s + t, ' ', i);
            assert((s + t).take(i) =~= s.take(i));
            assert((s + t).skip(i + 1) =~= rest + t);
            lemma_split_append(rest, t);
            lemma_split_len(rest, ' ');
            assert(split(s + t, ' ') =~= split(s, ' ').drop_last().push(
                split(s, ' ').last() + t,
            ));
        },
        None => {
            if find(s + t, ' ') is Some {
                let i = find(s + t, ' ')->0;
                assert((s + t)[i] == t[i - s.len()]);
            }
            assert(split(s + t, ' ') =~= split(s, ' ').drop_last().push(
                split(s, ' ').last() + t,
            ));
        },
    }
}

/// Folding a value does not change its relaxed form.
pub proof fn law_folding_keeps_relaxed_value(value: Seq<char>)
    ensures
        relaxed_value(encode_utf8(folded_text(value))) == relaxed_value(encode_utf8(value)),
{
    lemma_folded(split(value, ' '));
    lemma_join_split(value, ' ');
}

/// A word appended to a value is found whole at the end of the folded text, and what stands
/// before it has the relaxed form of the value.
pub proof fn law_folding_keeps_last_word(value: Seq<char>, word: Seq<char>)
    requires
        !word.contains(' '),
    ensures
        exists|start: Seq<char>|
            folded_text(value + word) == #[trigger] (start + word) && relaxed_value(
                encode_utf8(start),
            ) == relaxed_value(encode_utf8(value)),
{
    let words = split(value, ' ');
    let all = split(value + word, ' ');
    lemma_split_append(value, word);
    lemma_split_len(value, ' ');
    lemma_join_split(value, ' ');
    let before = words.drop_last();
    let last = words.last();
    let width = encode_utf8(last + word).len();
    lemma_folded(before);
    lemma_folded_step(before, width, last);
    assert(lead(before) + last =~= value);
    assert(all.drop_last() =~= before);
    let start = folded(before).0 + gap(folded(before).1, width) + last;
    assert(folded_text(value + word) =~= start + word);
}

/// What stands after the last line feed.
pub open spec fn last_line(text: Seq<char>) -> Seq<char> {
    match rfind(text, '\n') {
        Some(i) => text.skip(i + 1),
        None => text,
    }
}

proof fn lemma_last_line(s: Seq<char>, t: Seq<char>)
    requires
        !t.contains('\n'),
    ensures
        last_line(s + t) == last_line(s) + t,
    decreases t.len(),
{
    if t.len() == 0 {
        assert(s + t =~= s);
        assert(last_line(s) + t =~= last_line(s));
    } else {
        let front = t.drop_last();
        assert forall|i: int| 0 <= i < front.len() implies front[i] != '\n' by {
            assert(t.contains(t[i]));
        }
        assert(t.contains(t.last()));
        lemma_last_line(s, front);
        assert((s + t).drop_last() =~= s + front);
        assert((s + t).last() == t.last());
        assert(rfind(s + t, '\n') == rfind(s + front, '\n'));
        lemma_rfind(s + front, '\n');
        assert(last_line(s + t) =~= last_line(s + front).push(t.last()));
        assert((last_line(s) + front).push(t.last()) =~= last_line(s) + t);
    }
}

proof fn lemma_one_byte()
    ensures
        encode_utf8(seq!['\t']).len() == 1,
        encode_utf8(seq![' ']).len() == 1,
{
    assert(is_ascii_chars(seq!['\t']));
    is_ascii_chars_encode_utf8(seq!['\t']);
    lemma_space_bytes();
}

/// A folded line is no wider than the limit, unless a single word, perhaps after the tab of the
/// fold, is all that stands on it. Every line ends where some of the words end, so this tells
/// all lines.
pub proof fn law_folded_lines_are_short(words: Seq<Seq<char>>)
    requires
        forall|i: int| 0 <= i < words.len() ==> !(#[trigger] words[i]).contains('\n'),
    ensures
        ({
            let line = last_line(folded(words).0);
            &&& encode_utf8(line).len() == folded(words).1
            &&& encode_utf8(line).len() <= 72 || line == words.last() || line == seq!['\t']
                + words.last()
        }),
    decreases words.len(),
{
    if words.len() > 0 {
        let before = words.drop_last();
        let word = words.last();
        let (out, column) = folded(before);
        let width = encode_utf8(word).len();
        let between = gap(column, width);
        assert(word == words[words.len() - 1]);
        assert forall|i: int| 0 <= i < before.len() implies !(#[trigger] before[i]).contains(
            '\n',
        ) by {
            assert(before[i] == words[i]);
        }
        law_folded_lines_are_short(before);
        lemma_folded(before);
        lemma_one_byte();
        if column == 0 {
            assert(out + between + word =~= word);
            lemma_last_line(Seq::empty(), word);
            assert(Seq::<char>::empty() + word =~= word);
            assert(last_line(Seq::empty()) + word =~= word);
        } else if column + width + 1 > LINE_LIMIT {
            let head = out + seq!['\r', '\n'];
            let tail = seq!['\t'] + word;
            assert(out + between + word =~= head + tail);
            assert(!tail.contains('\n')) by {
                if tail.contains('\n') {
                    let k = choose|k: int| 0 <= k < tail.len() && tail[k] == '\n';
                    assert(word[k - 1] == '\n');
                }
            }
            lemma_last_line(head, tail);
            assert(last_line(head) =~= Seq::empty());
            assert(last_line(head) + tail =~= tail);
            lemma_encode_concat(seq!['\t'], word);
        } else {
            let tail = seq![' '] + word;
            assert(out + between + word =~= out + tail);
            assert(!tail.contains('\n')) by {
                if tail.contains('\n') {
                    let k = choose|k: int| 0 <= k < tail.len() && tail[k] == '\n';
                    assert(word[k - 1] == '\n');
                }
            }
            lemma_last_line(out, tail);
            lemma_encode_concat(last_line(out), tail);
            lemma_encode_concat(seq![' '], word);
        }
    }
}

/// A text in which each fold, CR LF and a tab, is read as a space.
pub open spec fn unfolded(text: Seq<char>) -> Seq<char>
    decreases text.len(),
{
    let n = text.len();
    if n == 0 {
        Seq::empty()
    } else if n >= 3 && text[n - 3] == '\r' && text[n - 2] == '\n' && text[n - 1] == '\t' {
        unfolded(text.take(n - 3)).push(' ')
    } else {
        unfolded(text.drop_last()).push(text.last())
    }
}

/// Whether a text is all on one line.
pub open spec fn is_unbroken(text: Seq<char>) -> bool {
    forall|i: int| 0 <= i < text.len() ==> #[trigger] text[i] != '\r' && text[i] != '\n'
}

proof fn lemma_unfolded_append(s: Seq<char>, t: Seq<char>)
    requires
        s.len() == 0 || s.last() != '\n',
        is_unbroken(t),
    ensures
        unfolded(s + t) == unfolded(s) + t,
    decreases t.len(),
{
    let all = s + t;
    if t.len() == 0 {
        assert(all =~= s);
        assert(unfolded(s) + t =~= unfolded(s));
    } else {
        lemma_unfolded_append(s, t.drop_last());
        assert(all.drop_last() =~= s + t.drop_last());
        if all.len() >= 2 {
            assert(all[all.len() - 2] != '\n') by {
                if t.len() >= 2 {
                    assert(all[all.len() - 2] == t[t.len() - 2]);
                } else {
                    assert(all[all.len() - 2] == s.last());
                }
            }
        }
        assert((unfolded(s) + t.drop_last()).push(t.last()) =~= unfolded(s) + t);
    }
}

proof fn lemma_unfolded_words(words: Seq<Seq<char>>)
    requires
        words.len() <= 1 || words[0].len() > 0,
        forall|i: int| 0 <= i < words.len() ==> is_unbroken(#[trigger] words[i]),
    ensures
        unfolded(folded(words).0) == join(words, seq![' ']),
        folded(words).0.len() == 0 || folded(words).0.last() != '\n',
        words.len() > 0 && words[0].len() > 0 ==> folded(words).1 > 0,
    decreases words.len(),
{
    if words.len() > 0 {
        let before = words.drop_last();
        let word = words.last();
        let (out, column) = folded(before);
        let width = encode_utf8(word).len();
        let between = gap(column, width);
        let lead = out + between;
        assert(word == words[words.len() - 1]);
        assert forall|i: int| 0 <= i < before.len() implies is_unbroken(#[trigger] before[i]) by {
            assert(before[i] == words[i]);
        }
        lemma_unfolded_words(before);
        if before.len() == 0 {
            assert(out + between =~= Seq::empty());
            if word.len() > 0 {
                encode_utf8_first_scalar(word);
            }
            assert(unfolded(lead) =~= Seq::empty());
            lemma_unfolded_append(lead, word);
            assert(unfolded(lead) + word =~= word);
        } else {
            assert(before[0] == words[0]);
            assert(column > 0);
            assert(lead.last() == between.last());
            if between.len() == 3 {
                assert(lead.take(lead.len() - 3) =~= out);
                assert(lead[lead.len() - 3] == '\r' && lead[lead.len() - 2] == '\n');
            } else {
                assert(lead.drop_last() =~= out);
            }
            assert(unfolded(lead) == unfolded(out).push(' '));
            lemma_unfolded_append(lead, word);
            assert(unfolded(out).push(' ') + word =~= join(before, seq![' ']) + seq![' '] + word);
        }
        assert(folded(words).0 == lead + word);
        if word.len() > 0 {
            assert((lead + word).last() == word[word.len() - 1]);
        } else {
            assert(lead + word =~= lead);
        }
    }
}

proof fn lemma_split_is_unbroken(s: Seq<char>)
    requires
        is_unbroken(s),
    ensures
        forall|i: int| 0 <= i < split(s, ' ').len() ==> is_unbroken(#[trigger] split(s, ' ')[i]),
    decreases s.len(),
{
    lemma_find(s, ' ');
    if let Some(k) = find(s, ' ') {
        let rest = s.skip(k + 1);
        assert(is_unbroken(rest));
        lemma_split_is_unbroken(rest);
        assert(is_unbroken(s.take(k)));
        assert forall|i: int| 0 <= i < split(s, ' ').len() implies is_unbroken(
            #[trigger] split(s, ' ')[i],
        ) by {
            if i > 0 {
                assert(split(s, ' ')[i] == split(rest, ' ')[i - 1]);
            }
        }
    }
}

/// Folding loses nothing: with each fold read as a space, a value of one line that does not start
/// with a space is as it was.
pub proof fn law_unfolding_gives_the_value_back(value: Seq<char>)
    requires
        value.len() == 0 || value[0] != ' ',
        is_unbroken(value),
    ensures
        unfolded(folded_text(value)) == value,
{
    let words = split(value, ' ');
    lemma_find(value, ' ');
    lemma_split_is_unbroken(value);
    lemma_join_split(value, ' ');
    lemma_unfolded_words(words);
}

/// A word is put on the line if with a space before it the line has at most 72 bytes, else on a
/// new line after a tab. At the very start nothing comes before it.
pub proof fn law_words_are_put_where_they_fit(before: Seq<Seq<char>>, word: Seq<char>)
    requires
        forall|i: int| 0 <= i < before.len() ==> !(#[trigger] before[i]).contains('\n'),
    ensures
        ({
            let out = folded(before).0;
            let line = encode_utf8(last_line(out)).len();
            let width = encode_utf8(word).len();
            folded(before.push(word)).0 == if line == 0 {
                out + word
            } else if line + 1 + width <= 72 {
                out + seq![' '] + word
            } else {
                out + seq!['\r', '\n', '\t'] + word
            }
        }),
{
    law_folded_lines_are_short(before);
    assert(before.push(word).drop_last() =~= before);
    let out = folded(before).0;
    assert(out + Seq::<char>::empty() + word =~= out + word);
}

/// A value of at most 72 bytes is not folded.
pub proof fn law_short_values_are_not_folded(value: Seq<char>)
    requires
        value.len() == 0 || value[0] != ' ',
        encode_utf8(value).len() <= 72,
    ensures
        folded_text(value) == value,
{
    let words = split(value, ' ');
    lemma_find(value, ' ');
    lemma_join_split(value, ' ');
    lemma_short_words(words);
}

proof fn lemma_short_words(words: Seq<Seq<char>>)
    requires
        words.len() <= 1 || words[0].len() > 0,
        encode_utf8(join(words, seq![' '])).len() <= 72,
    ensures
        folded(words).0 == join(words, seq![' ']),
        folded(words).1 == encode_utf8(join(words, seq![' '])).len(),
    decreases words.len(),
{
    if words.len() == 0 {
        assert(join(words, seq![' ']) =~= Seq::empty());
        assert(encode_utf8(Seq::<char>::empty()).len() == 0);
    } else {
        let before = words.drop_last();
        let word = words.last();
        if before.len() == 0 {
            let nothing = Seq::<char>::empty();
            assert(folded(before) == (nothing, 0nat));
            assert(join(words, seq![' ']) == word);
            assert(nothing + gap(0, encode_utf8(word).len()) + word =~= word);
        } else {
            let start = join(before, seq![' ']);
            assert(join(words, seq![' ']) == start + seq![' '] + word);
            lemma_encode_concat(start + seq![' '], word);
            lemma_encode_concat(start, seq![' ']);
            lemma_one_byte();
            lemma_short_words(before);
            assert(before[0] == words[0]);
            lemma_not_empty(before);
        }
    }
}

proof fn lemma_not_empty(words: Seq<Seq<char>>)
    requires
        words.len() > 0,
        words[0].len() > 0,
    ensures
        encode_utf8(join(words, seq![' '])).len() > 0,
{
    let text = join(words, seq![' ']);
    lemma_join_grows(words);
    encode_utf8_first_scalar(text);
}

proof fn lemma_join_grows(words: Seq<Seq<char>>)
    requires
        words.len() > 0,
    ensures
        join(words, seq![' ']).len() >= words[0].len(),
    decreases words.len(),
{
    if words.len() > 1 {
        lemma_join_grows(words.drop_last());
    }
}

} // verus!
