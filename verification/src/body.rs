//! Relaxed canonicalization of message bodies, hashed as the bytes arrive.

use openssl::sha::Sha256;
use vstd::prelude::*;

use crate::crypto::{hasher_input, sha256};
use crate::header::{is_blank, lemma_visible_add, lemma_visible_push, visible};

verus! {

pub const CR: u8 = 0x0d;

pub const LF: u8 = 0x0a;

pub const SP: u8 = 0x20;

pub const TAB: u8 = 0x09;

pub open spec fn crlf() -> Seq<u8> {
    seq![CR, LF]
}

/// Space and horizontal tab, the white space that stays within a line.
pub open spec fn is_wsp(b: u8) -> bool {
    b == SP || b == TAB
}

/// The lines of a body. CRLF, a bare CR and a bare LF each end one; the last entry is what
/// follows the last line end.
pub open spec fn lines(s: Seq<u8>) -> Seq<Seq<u8>>
    decreases s.len(),
{
    if s.len() == 0 {
        seq![Seq::empty()]
    } else {
        let before = lines(s.drop_last());
        if s.last() == LF && s.len() >= 2 && s[s.len() - 2] == CR {
            before
        } else if s.last() == CR || s.last() == LF {
            before.push(Seq::empty())
        } else {
            before.drop_last().push(before.last().push(s.last()))
        }
    }
}

/// A line with each run of white space reduced to one space, and none at its end.
pub open spec fn relaxed_line(line: Seq<u8>) -> Seq<u8>
    decreases line.len(),
{
    if line.len() == 0 {
        Seq::empty()
    } else if is_wsp(line.last()) {
        relaxed_line(line.drop_last())
    } else {
        let before = line.drop_last();
        if before.len() > 0 && is_wsp(before.last()) {
            relaxed_line(before).push(SP).push(line.last())
        } else {
            relaxed_line(before).push(line.last())
        }
    }
}

pub open spec fn relaxed_lines(s: Seq<u8>) -> Seq<Seq<u8>> {
    lines(s).map_values(|line: Seq<u8>| relaxed_line(line))
}

/// How many lines at the end are empty.
pub open spec fn trailing_blank(ls: Seq<Seq<u8>>) -> nat
    decreases ls.len(),
{
    if ls.len() > 0 && ls.last().len() == 0 {
        trailing_blank(ls.drop_last()) + 1
    } else {
        0
    }
}

/// `n` empty lines; a run is counted up to `usize::MAX`.
pub open spec fn blank_lines(n: nat) -> Seq<u8>
    decreases n,
{
    if n == 0 {
        Seq::empty()
    } else if n > usize::MAX {
        blank_lines((n - 1) as nat)
    } else {
        blank_lines((n - 1) as nat) + crlf()
    }
}

/// The lines up to the last that is not empty, each ended by CRLF.
pub open spec fn text_lines(ls: Seq<Seq<u8>>) -> Seq<u8>
    decreases ls.len(),
{
    if ls.len() == 0 {
        Seq::empty()
    } else if ls.last().len() == 0 {
        text_lines(ls.drop_last())
    } else {
        text_lines(ls.drop_last()) + blank_lines(trailing_blank(ls.drop_last())) + ls.last()
            + crlf()
    }
}

/// The relaxed form of a body: its relaxed lines without the empty ones at the end, and a single
/// CRLF if nothing is left.
pub open spec fn relaxed_body(s: Seq<u8>) -> Seq<u8> {
    let text = text_lines(relaxed_lines(s));
    if text.len() == 0 {
        crlf()
    } else {
        text
    }
}

/// Hashes the relaxed form of a body that arrives in pieces. The view is the body so far.
pub struct BodyCanonicalizer {
    hasher: Sha256,
    pending_wsp: bool,
    pending_empty_lines: usize,
    line_has_content: bool,
    emitted_content: bool,
    saw_cr: bool,
    input: Ghost<Seq<u8>>,
}

impl View for BodyCanonicalizer {
    type V = Seq<u8>;

    closed spec fn view(&self) -> Seq<u8> {
        self.input@
    }
}

impl BodyCanonicalizer {
    /// The state that goes with the lines of `done`, all of which has been looked at.
    spec fn tracks(self, done: Seq<u8>) -> bool {
        let raw = lines(done);
        let ls = relaxed_lines(done);
        let before = ls.drop_last();
        let last = ls.last();
        &&& raw.len() >= 1
        &&& self.line_has_content == (last.len() > 0)
        &&& self.pending_wsp == (raw.last().len() > 0 && is_wsp(raw.last().last()))
        &&& self.emitted_content == (text_lines(ls).len() > 0)
        &&& if last.len() > 0 {
            &&& self.pending_empty_lines == 0
            &&& hasher_input(self.hasher) == text_lines(before) + blank_lines(
                trailing_blank(before),
            ) + last
        } else {
            &&& self.pending_empty_lines == if trailing_blank(before) > usize::MAX {
                usize::MAX as nat
            } else {
                trailing_blank(before)
            }
            &&& hasher_input(self.hasher) == text_lines(before)
        }
    }

    /// A CR that may still turn out to be half of a CRLF is held back.
    pub closed spec fn wf(self) -> bool {
        &&& self.saw_cr == (self.input@.len() > 0 && self.input@.last() == CR)
        &&& self.tracks(
            if self.saw_cr {
                self.input@.drop_last()
            } else {
                self.input@
            },
        )
    }

    fn end_line(&mut self, Ghost(done): Ghost<Seq<u8>>, Ghost(next): Ghost<Seq<u8>>)
        requires
            old(self).tracks(done),
            lines(next) == lines(done).push(Seq::empty()),
        ensures
            final(self).tracks(next),
            final(self).saw_cr == old(self).saw_cr,
            final(self).input == old(self).input,
    {
        proof {
            lemma_end_line(done, next);
        }
        self.pending_wsp = false;
        if self.line_has_content {
            let end: [u8; 2] = [CR, LF];
            self.hasher.update(&end);
            assert(end@ =~= crlf());
            self.line_has_content = false;
        } else {
            self.pending_empty_lines = self.pending_empty_lines.saturating_add(1);
        }
    }

    /// Takes a byte that does not end a line.
    fn take_byte(&mut self, byte: u8, Ghost(done): Ghost<Seq<u8>>)
        requires
            old(self).tracks(done),
            byte != CR,
            byte != LF,
        ensures
            final(self).tracks(done.push(byte)),
            final(self).saw_cr == old(self).saw_cr,
            final(self).input == old(self).input,
    {
        proof {
            lemma_take_byte(done, byte);
        }
        if byte == SP || byte == TAB {
            self.pending_wsp = true;
            return;
        }
        let ghost before = relaxed_lines(done).drop_last();
        if !self.line_has_content && self.pending_empty_lines > 0 {
            let end: [u8; 2] = [CR, LF];
            assert(end@ =~= crlf());
            let ghost kept = text_lines(before);
            let mut written: usize = 0;
            assert(hasher_input(self.hasher) =~= kept + blank_lines(0));
            while written < self.pending_empty_lines
                invariant
                    end@ == crlf(),
                    written <= self.pending_empty_lines,
                    hasher_input(self.hasher) == kept + blank_lines(written as nat),
                    self.pending_wsp == old(self).pending_wsp,
                    self.pending_empty_lines == old(self).pending_empty_lines,
                    self.line_has_content == old(self).line_has_content,
                    self.emitted_content == old(self).emitted_content,
                    self.saw_cr == old(self).saw_cr,
                    self.input == old(self).input,
                decreases self.pending_empty_lines - written,
            {
                self.hasher.update(&end);
                written += 1;
                assert(kept + blank_lines(written as nat) =~= kept + blank_lines(
                    (written - 1) as nat,
                ) + crlf());
            }
            proof {
                lemma_blank_lines_cap(trailing_blank(before));
            }
            self.pending_empty_lines = 0;
        }
        assert(hasher_input(self.hasher) =~= text_lines(before) + blank_lines(
            trailing_blank(before),
        ) + relaxed_lines(done).last());
        if self.pending_wsp {
            let space: [u8; 1] = [SP];
            assert(space@ =~= seq![SP]);
            self.hasher.update(&space);
            self.pending_wsp = false;
        }
        let content: [u8; 1] = [byte];
        assert(content@ =~= seq![byte]);
        self.hasher.update(&content);
        self.line_has_content = true;
        self.emitted_content = true;
        assert(hasher_input(self.hasher) =~= text_lines(before) + blank_lines(
            trailing_blank(before),
        ) + relaxed_lines(done.push(byte)).last());
    }

    /// Takes the next piece of the body.
    pub fn update(&mut self, data: &[u8])
        requires
            old(self).wf(),
        ensures
            final(self).wf(),
            final(self)@ == old(self)@ + data@,
    {
        let mut index: usize = 0;
        assert(data@.take(0) =~= Seq::empty());
        assert(old(self)@ + data@.take(0) =~= old(self)@);
        while index < data.len()
            invariant
                index <= data@.len(),
                self.wf(),
                self@ == old(self)@ + data@.take(index as int),
            decreases data@.len() - index,
        {
            let byte = data[index];
            let ghost before = self.input@;
            let ghost after = before.push(byte);
            proof {
                assert(data@.take(index + 1) =~= data@.take(index as int).push(byte));
                assert(old(self)@ + data@.take(index + 1) =~= after);
                assert(after.drop_last() =~= before);
            }
            index += 1;
            let mut taken: bool = false;
            if self.saw_cr {
                self.saw_cr = false;
                self.end_line(Ghost(before.drop_last()), Ghost(before));
                if byte == LF {
                    taken = true;
                }
            }
            if !taken {
                if byte == CR {
                    self.saw_cr = true;
                } else if byte == LF {
                    self.end_line(Ghost(before), Ghost(after));
                } else {
                    self.take_byte(byte, Ghost(before));
                }
            }
            self.input = Ghost(after);
        }
        assert(data@.take(index as int) =~= data@);
    }

    /// The SHA-256 hash of the relaxed form of the whole body.
    pub fn finish(self) -> (r: [u8; 32])
        requires
            self.wf(),
        ensures
            r@ == sha256(relaxed_body(self@)),
    {
        let mut last = self;
        let end: [u8; 2] = [CR, LF];
        assert(end@ =~= crlf());
        let ghost input = self.input@;
        let ghost ls = relaxed_lines(input);
        if last.saw_cr {
            last.end_line(Ghost(input.drop_last()), Ghost(input));
        } else if last.line_has_content {
            last.hasher.update(&end);
        }
        assert(hasher_input(last.hasher) =~= text_lines(ls));
        if !last.emitted_content {
            last.hasher.update(&end);
        }
        assert(hasher_input(last.hasher) =~= relaxed_body(input));
        last.hasher.finish()
    }
}

impl Default for BodyCanonicalizer {
    /// An empty body.
    fn default() -> (r: Self)
        ensures
            r.wf(),
            r@ == Seq::<u8>::empty(),
    {
        let r = BodyCanonicalizer {
            hasher: Sha256::new(),
            pending_wsp: false,
            pending_empty_lines: 0,
            line_has_content: false,
            emitted_content: false,
            saw_cr: false,
            input: Ghost(Seq::empty()),
        };
        assert(relaxed_lines(Seq::<u8>::empty()) =~= seq![Seq::<u8>::empty()]);
        assert(relaxed_lines(Seq::<u8>::empty()).drop_last() =~= Seq::<Seq<u8>>::empty());
        assert(text_lines(Seq::<Seq<u8>>::empty()) == Seq::<u8>::empty());
        r
    }
}

proof fn lemma_lines_len(s: Seq<u8>)
    ensures
        lines(s).len() >= 1,
    decreases s.len(),
{
    if s.len() > 0 {
        lemma_lines_len(s.drop_last());
    }
}

proof fn lemma_end_line(done: Seq<u8>, next: Seq<u8>)
    requires
        lines(next) == lines(done).push(Seq::empty()),
    ensures
        relaxed_lines(next) == relaxed_lines(done).push(Seq::empty()),
        relaxed_lines(next).drop_last() == relaxed_lines(done),
        relaxed_lines(done).len() >= 1,
{
    lemma_lines_len(done);
    assert(relaxed_lines(next) =~= relaxed_lines(done).push(Seq::empty()));
    assert(relaxed_lines(next).drop_last() =~= relaxed_lines(done));
}

proof fn lemma_take_byte(done: Seq<u8>, byte: u8)
    requires
        byte != CR,
        byte != LF,
    ensures
        ({
            let ls = relaxed_lines(done);
            let next = relaxed_lines(done.push(byte));
            let raw = lines(done).last();
            &&& lines(done).len() >= 1
            &&& lines(done.push(byte)).len() >= 1
            &&& lines(done.push(byte)).last() == raw.push(byte)
            &&& next.drop_last() == ls.drop_last()
            &&& next.last() == if is_wsp(byte) {
                ls.last()
            } else if raw.len() > 0 && is_wsp(raw.last()) {
                ls.last().push(SP).push(byte)
            } else {
                ls.last().push(byte)
            }
            &&& is_wsp(byte) ==> next == ls
        }),
{
    lemma_lines_len(done);
    let raw = lines(done);
    assert(done.push(byte).drop_last() =~= done);
    assert(lines(done.push(byte)) == raw.drop_last().push(raw.last().push(byte)));
    assert(relaxed_lines(done.push(byte)).drop_last() =~= relaxed_lines(done).drop_last());
    assert(raw.last().push(byte).drop_last() =~= raw.last());
    if is_wsp(byte) {
        assert(relaxed_lines(done.push(byte)) =~= relaxed_lines(done));
    }
}

/// A longer run of empty lines counts as `usize::MAX` of them.
proof fn lemma_blank_lines_cap(n: nat)
    ensures
        n > usize::MAX ==> blank_lines(n) == blank_lines(usize::MAX as nat),
    decreases n,
{
    if n > usize::MAX {
        lemma_blank_lines_cap((n - 1) as nat);
    }
}

// What holds of the relaxed form.

/// Lines, each ended by CRLF.
pub open spec fn ended(ls: Seq<Seq<u8>>) -> Seq<u8>
    decreases ls.len(),
{
    if ls.len() == 0 {
        Seq::empty()
    } else {
        ended(ls.drop_last()) + ls.last() + crlf()
    }
}

/// The lines up to the last that is not empty.
pub open spec fn without_blank(ls: Seq<Seq<u8>>) -> Seq<Seq<u8>>
    decreases ls.len(),
{
    if ls.len() > 0 && ls.last().len() == 0 {
        without_blank(ls.drop_last())
    } else {
        ls
    }
}

proof fn lemma_ended_blank(ls: Seq<Seq<u8>>)
    requires
        ls.len() <= usize::MAX,
    ensures
        trailing_blank(ls) <= ls.len(),
        ended(ls) == ended(without_blank(ls)) + blank_lines(trailing_blank(ls)),
    decreases ls.len(),
{
    if ls.len() > 0 && ls.last().len() == 0 {
        let front = ls.drop_last();
        lemma_ended_blank(front);
        assert(ls.last() =~= Seq::empty());
        assert(ended(ls) =~= ended(without_blank(front)) + (blank_lines(trailing_blank(front))
            + crlf()));
    } else {
        assert(ended(ls) + Seq::<u8>::empty() =~= ended(ls));
    }
}

proof fn lemma_text_lines(ls: Seq<Seq<u8>>)
    requires
        ls.len() <= usize::MAX,
    ensures
        text_lines(ls) == ended(without_blank(ls)),
    decreases ls.len(),
{
    if ls.len() > 0 {
        lemma_text_lines(ls.drop_last());
        lemma_ended_blank(ls.drop_last());
    }
}

proof fn lemma_lines_count(s: Seq<u8>)
    ensures
        lines(s).len() <= s.len() + 1,
    decreases s.len(),
{
    if s.len() > 0 {
        lemma_lines_count(s.drop_last());
        lemma_lines_len(s.drop_last());
    }
}

/// The relaxed form of a body that fits in memory is its relaxed lines up to the last that is not
/// empty, each ended by CRLF; where there is none, it is a single CRLF.
pub proof fn law_relaxed_bodies_are_lines(s: Seq<u8>)
    requires
        s.len() < usize::MAX,
    ensures
        ({
            let kept = without_blank(relaxed_lines(s));
            relaxed_body(s) == if kept.len() == 0 {
                crlf()
            } else {
                ended(kept)
            }
        }),
{
    lemma_lines_count(s);
    lemma_text_lines(relaxed_lines(s));
}

/// Line ends after the last line make no difference, so a body whose last line has none counts as
/// if it had one.
pub proof fn law_final_line_ends_do_not_matter(s: Seq<u8>)
    ensures
        relaxed_body(s + crlf()) == relaxed_body(s),
{
    let first = s.push(CR);
    let all = s + crlf();
    assert(first.drop_last() =~= s);
    assert(all.drop_last() =~= first);
    assert(lines(first) == lines(s).push(Seq::empty()));
    assert(all.last() == LF && all[all.len() - 2] == CR);
    lemma_end_line(s, all);
}

/// A relaxed line has no white space at its end, and no white space in it but single spaces.
pub proof fn law_relaxed_lines_are_relaxed(line: Seq<u8>)
    ensures
        ({
            let r = relaxed_line(line);
            &&& r.len() > 0 ==> !is_wsp(r.last())
            &&& forall|i: int|
                0 <= i < r.len() && is_wsp(#[trigger] r[i]) ==> r[i] == SP && i + 1 < r.len()
                    && !is_wsp(r[i + 1])
        }),
    decreases line.len(),
{
    if line.len() > 0 {
        let before = line.drop_last();
        law_relaxed_lines_are_relaxed(before);
        let inner = relaxed_line(before);
        let r = relaxed_line(line);
        if !is_wsp(line.last()) {
            assert forall|i: int| 0 <= i < r.len() && is_wsp(#[trigger] r[i]) implies r[i] == SP
                && i + 1 < r.len() && !is_wsp(r[i + 1]) by {
                if i < inner.len() {
                    assert(r[i] == inner[i]);
                    assert(r[i + 1] == inner[i + 1]);
                }
            }
        }
    }
}

/// Relaxing a line again changes nothing.
pub proof fn law_relaxing_a_line_again_changes_nothing(line: Seq<u8>)
    ensures
        relaxed_line(relaxed_line(line)) == relaxed_line(line),
{
    law_relaxed_lines_are_relaxed(line);
    let r = relaxed_line(line);
    lemma_relaxed_stays(r, r.len() as int);
    assert(r.take(r.len() as int) =~= r);
}

proof fn lemma_relaxed_stays(r: Seq<u8>, n: int)
    requires
        0 <= n <= r.len(),
        forall|i: int|
            0 <= i < r.len() && is_wsp(#[trigger] r[i]) ==> r[i] == SP && i + 1 < r.len()
                && !is_wsp(r[i + 1]),
    ensures
        relaxed_line(r.take(n)) == if n > 0 && is_wsp(r[n - 1]) {
            r.take(n - 1)
        } else {
            r.take(n)
        },
    decreases n,
{
    if n > 0 {
        let here = r.take(n);
        assert(here.drop_last() =~= r.take(n - 1));
        lemma_relaxed_stays(r, n - 1);
        if !is_wsp(r[n - 1]) {
            assert(relaxed_line(here) =~= here);
        }
    }
}

/// Whether bytes are all on one line.
pub open spec fn is_one_line(s: Seq<u8>) -> bool {
    forall|i: int| 0 <= i < s.len() ==> #[trigger] s[i] != CR && s[i] != LF
}

proof fn lemma_lines_are_single(s: Seq<u8>)
    ensures
        lines(s).len() >= 1,
        forall|i: int| 0 <= i < lines(s).len() ==> is_one_line(#[trigger] lines(s)[i]),
    decreases s.len(),
{
    if s.len() > 0 {
        let before = lines(s.drop_last());
        lemma_lines_are_single(s.drop_last());
        assert forall|i: int| 0 <= i < lines(s).len() implies is_one_line(#[trigger] lines(s)[i]) by {
            if i < before.len() - 1 {
                assert(lines(s)[i] == before[i]);
            } else {
                assert(is_one_line(before.last()));
            }
        }
    }
}

proof fn lemma_relaxed_line_is_single(line: Seq<u8>)
    requires
        is_one_line(line),
    ensures
        is_one_line(relaxed_line(line)),
    decreases line.len(),
{
    if line.len() > 0 {
        lemma_relaxed_line_is_single(line.drop_last());
    }
}

proof fn lemma_lines_of_text(before: Seq<u8>, line: Seq<u8>)
    requires
        is_one_line(line),
    ensures
        lines(before + line) == lines(before).drop_last().push(lines(before).last() + line),
    decreases line.len(),
{
    lemma_lines_len(before);
    if line.len() == 0 {
        assert(before + line =~= before);
        assert(lines(before).last() + line =~= lines(before).last());
        assert(lines(before).drop_last().push(lines(before).last()) =~= lines(before));
    } else {
        lemma_lines_of_text(before, line.drop_last());
        assert((before + line).drop_last() =~= before + line.drop_last());
        assert(lines(before).last() + line =~= (lines(before).last() + line.drop_last()).push(
            line.last(),
        ));
        assert(lines(before + line) =~= lines(before).drop_last().push(
            lines(before).last() + line,
        ));
    }
}

proof fn lemma_lines_of_ended(ls: Seq<Seq<u8>>)
    requires
        forall|i: int| 0 <= i < ls.len() ==> is_one_line(#[trigger] ls[i]),
    ensures
        lines(ended(ls)) == ls.push(Seq::empty()),
    decreases ls.len(),
{
    if ls.len() == 0 {
        assert(lines(ended(ls)) =~= ls.push(Seq::empty()));
    } else {
        let front = ls.drop_last();
        let text = ended(front) + ls.last();
        let first = text.push(CR);
        lemma_lines_of_ended(front);
        lemma_lines_of_text(ended(front), ls.last());
        assert(front.push(Seq::empty()).drop_last() =~= front);
        assert(Seq::<u8>::empty() + ls.last() =~= ls.last());
        assert(front.push(ls.last()) =~= ls);
        assert(lines(text) == ls);
        assert(first.drop_last() =~= text);
        assert(lines(first) == ls.push(Seq::empty()));
        assert(ended(ls) =~= first.push(LF));
        assert(ended(ls).drop_last() =~= first);
    }
}

proof fn lemma_without_blank(ls: Seq<Seq<u8>>)
    ensures
        without_blank(ls).len() <= ls.len(),
        without_blank(ls) == ls.take(without_blank(ls).len() as int),
        without_blank(ls).len() > 0 ==> without_blank(ls).last().len() > 0,
    decreases ls.len(),
{
    if ls.len() > 0 && ls.last().len() == 0 {
        lemma_without_blank(ls.drop_last());
        let n = without_blank(ls).len() as int;
        assert(ls.drop_last().take(n) =~= ls.take(n));
    } else {
        assert(ls.take(ls.len() as int) =~= ls);
    }
}

/// Relaxing a body again changes nothing.
pub proof fn law_relaxing_a_body_again_changes_nothing(s: Seq<u8>)
    requires
        s.len() < usize::MAX,
        relaxed_body(s).len() < usize::MAX,
    ensures
        relaxed_body(relaxed_body(s)) == relaxed_body(s),
{
    let all = relaxed_lines(s);
    let kept = without_blank(all);
    let body = relaxed_body(s);
    law_relaxed_bodies_are_lines(s);
    law_relaxed_bodies_are_lines(body);
    lemma_without_blank(all);
    lemma_lines_are_single(s);
    assert forall|i: int| 0 <= i < kept.len() implies is_one_line(#[trigger] kept[i])
        && relaxed_line(kept[i]) == kept[i] by {
        assert(kept[i] == relaxed_line(lines(s)[i]));
        lemma_relaxed_line_is_single(lines(s)[i]);
        law_relaxing_a_line_again_changes_nothing(lines(s)[i]);
    }
    let blank = Seq::<u8>::empty();
    if kept.len() == 0 {
        lemma_lines_of_ended(seq![blank]);
        assert(seq![blank].drop_last() =~= Seq::empty());
        assert(ended(Seq::<Seq<u8>>::empty()) == blank);
        assert(ended(seq![blank]) =~= crlf());
        let two = seq![blank].push(blank);
        assert(relaxed_lines(body) =~= two);
        assert(two.drop_last() =~= seq![blank]);
        assert(without_blank(seq![blank]) == without_blank(seq![blank].drop_last()));
        assert(without_blank(two).len() == 0);
    } else {
        lemma_lines_of_ended(kept);
        assert(relaxed_lines(body) =~= kept.push(blank));
        assert(kept.push(blank).drop_last() =~= kept);
        assert(without_blank(kept) == kept);
        assert(kept.push(blank).last().len() == 0);
    }
}

// What a relaxed body keeps.

/// The text of all lines, without white space.
spec fn visible_lines(ls: Seq<Seq<u8>>) -> Seq<u8>
    decreases ls.len(),
{
    if ls.len() == 0 {
        Seq::empty()
    } else {
        visible_lines(ls.drop_last()) + visible(ls.last())
    }
}

proof fn lemma_visible_nothing()
    ensures
        visible(crlf()) == Seq::<u8>::empty(),
        visible(Seq::empty()) == Seq::<u8>::empty(),
{
    lemma_visible_push(Seq::empty(), CR);
    lemma_visible_push(Seq::empty().push(CR), LF);
    assert(Seq::empty().push(CR).push(LF) =~= crlf());
}

proof fn lemma_visible_blank_lines(n: nat)
    ensures
        visible(blank_lines(n)) == Seq::<u8>::empty(),
    decreases n,
{
    lemma_visible_nothing();
    if n > 0 {
        lemma_visible_blank_lines((n - 1) as nat);
        lemma_visible_add(blank_lines((n - 1) as nat), crlf());
    }
}

proof fn lemma_visible_text_lines(ls: Seq<Seq<u8>>)
    ensures
        visible(text_lines(ls)) == visible_lines(ls),
    decreases ls.len(),
{
    lemma_visible_nothing();
    if ls.len() > 0 {
        let front = ls.drop_last();
        lemma_visible_text_lines(front);
        if ls.last().len() == 0 {
            assert(ls.last() =~= Seq::empty());
            assert(visible_lines(front) + Seq::<u8>::empty() =~= visible_lines(front));
        } else {
            let blank = blank_lines(trailing_blank(front));
            lemma_visible_blank_lines(trailing_blank(front));
            lemma_visible_add(text_lines(front) + blank + ls.last(), crlf());
            lemma_visible_add(text_lines(front) + blank, ls.last());
            lemma_visible_add(text_lines(front), blank);
            assert(visible(text_lines(ls)) =~= visible_lines(ls));
        }
    }
}

proof fn lemma_visible_relaxed_lines(s: Seq<u8>)
    ensures
        visible_lines(relaxed_lines(s)) == visible(s),
    decreases s.len(),
{
    lemma_visible_nothing();
    if s.len() == 0 {
        assert(s =~= Seq::empty());
        assert(relaxed_lines(s) =~= seq![Seq::<u8>::empty()]);
        assert(relaxed_lines(s).drop_last() =~= Seq::empty());
        assert(visible_lines(Seq::<Seq<u8>>::empty()) == Seq::<u8>::empty());
    } else {
        let done = s.drop_last();
        let byte = s.last();
        assert(done.push(byte) =~= s);
        lemma_visible_relaxed_lines(done);
        lemma_visible_push(done, byte);
        if byte == LF && s.len() >= 2 && s[s.len() - 2] == CR {
            assert(lines(s) == lines(done));
        } else if byte == CR || byte == LF {
            lemma_end_line(done, s);
            assert(relaxed_lines(s).last() =~= Seq::empty());
            assert(visible_lines(relaxed_lines(done)) + Seq::<u8>::empty() =~= visible_lines(
                relaxed_lines(done),
            ));
        } else {
            lemma_take_byte(done, byte);
            let ls = relaxed_lines(done);
            let last = ls.last();
            lemma_visible_push(last, SP);
            lemma_visible_push(last, byte);
            lemma_visible_push(last.push(SP), byte);
            assert(visible_lines(relaxed_lines(s)) =~= visible(s));
        }
    }
}

/// Relaxing a body keeps every byte that is not white space, and their order. Only space, tab, CR
/// and LF are white space.
pub proof fn law_relaxed_bodies_keep_their_text(s: Seq<u8>)
    ensures
        visible(relaxed_body(s)) == visible(s),
{
    lemma_visible_nothing();
    lemma_visible_relaxed_lines(s);
    lemma_visible_text_lines(relaxed_lines(s));
    let text = text_lines(relaxed_lines(s));
    if text.len() == 0 {
        assert(text =~= Seq::empty());
    }
}

/// Whether all bytes are spaces or tabs.
pub open spec fn is_gap(s: Seq<u8>) -> bool {
    forall|i: int| 0 <= i < s.len() ==> #[trigger] s[i] == 0x20 || s[i] == 0x09
}

/// Whether no byte is a space or a tab.
pub open spec fn is_word(s: Seq<u8>) -> bool {
    forall|i: int| 0 <= i < s.len() ==> #[trigger] s[i] != 0x20 && s[i] != 0x09
}

/// A line without spaces and tabs is its own relaxed form. Those at the end are dropped. Before a
/// word, at the start of a line too, spaces and tabs of any number become one space.
pub proof fn law_words_of_lines_are_parted_by_one_space(
    line: Seq<u8>,
    space: Seq<u8>,
    word: Seq<u8>,
)
    requires
        is_gap(space),
        space.len() > 0,
        is_word(word),
        word.len() > 0,
    ensures
        relaxed_line(word) == word,
        relaxed_line(line + space) == relaxed_line(line),
        relaxed_line(line + space + word) == relaxed_line(line) + seq![0x20u8] + word,
{
    lemma_gap_end(line, space);
    lemma_word_start(word);
    lemma_word_end(line, space, word);
}

proof fn lemma_gap_end(line: Seq<u8>, space: Seq<u8>)
    requires
        is_gap(space),
    ensures
        relaxed_line(line + space) == relaxed_line(line),
    decreases space.len(),
{
    if space.len() == 0 {
        assert(line + space =~= line);
    } else {
        lemma_gap_end(line, space.drop_last());
        assert((line + space).drop_last() =~= line + space.drop_last());
        assert((line + space).last() == space.last());
    }
}

proof fn lemma_word_start(word: Seq<u8>)
    requires
        is_word(word),
    ensures
        relaxed_line(word) == word,
    decreases word.len(),
{
    if word.len() > 0 {
        lemma_word_start(word.drop_last());
        if word.len() > 1 {
            assert(word.drop_last().last() == word[word.len() - 2]);
        }
        assert(word.drop_last().push(word.last()) =~= word);
    }
}

proof fn lemma_word_end(line: Seq<u8>, space: Seq<u8>, word: Seq<u8>)
    requires
        is_gap(space),
        space.len() > 0,
        is_word(word),
        word.len() > 0,
    ensures
        relaxed_line(line + space + word) == relaxed_line(line) + seq![0x20u8] + word,
    decreases word.len(),
{
    let all = line + space + word;
    lemma_gap_end(line, space);
    assert(all.last() == word.last());
    if word.len() == 1 {
        assert(all.drop_last() =~= line + space);
        assert((line + space).last() == space.last());
    } else {
        let front = word.drop_last();
        lemma_word_end(line, space, front);
        assert(all.drop_last() =~= line + space + front);
        assert((line + space + front).last() == word[word.len() - 2]);
    }
    assert(relaxed_line(all) =~= relaxed_line(line) + seq![0x20u8] + word);
}

proof fn lemma_same_end(a: Seq<u8>, b: Seq<u8>, rest: Seq<u8>)
    requires
        a.len() > 0,
        b.len() > 0,
        lines(a) == lines(b),
        a.last() == b.last() || rest.len() == 0 || rest[0] != LF,
    ensures
        lines(a + rest) == lines(b + rest),
    decreases rest.len(),
{
    if rest.len() == 0 {
        assert(a + rest =~= a);
        assert(b + rest =~= b);
    } else {
        let front = rest.drop_last();
        lemma_same_end(a, b, front);
        assert((a + rest).drop_last() =~= a + front);
        assert((b + rest).drop_last() =~= b + front);
        assert((a + rest).last() == rest.last() && (b + rest).last() == rest.last());
        if rest.len() == 1 {
            assert((a + rest)[(a + rest).len() - 2] == a.last());
            assert((b + rest)[(b + rest).len() - 2] == b.last());
        } else {
            assert((a + rest)[(a + rest).len() - 2] == rest[rest.len() - 2]);
            assert((b + rest)[(b + rest).len() - 2] == rest[rest.len() - 2]);
        }
    }
}

/// CR LF, LF alone and CR alone end a line in the same way.
pub proof fn law_line_ends_are_alike(before: Seq<u8>, after: Seq<u8>)
    ensures
        before.len() == 0 || before.last() != 0x0d ==> relaxed_body(
            before + seq![0x0au8] + after,
        ) == relaxed_body(before + seq![0x0du8, 0x0au8] + after),
        after.len() == 0 || after[0] != 0x0a ==> relaxed_body(before + seq![0x0du8] + after)
            == relaxed_body(before + seq![0x0du8, 0x0au8] + after),
{
    let both = before + seq![0x0du8, 0x0au8];
    let feed = before + seq![0x0au8];
    let ret = before + seq![0x0du8];
    assert(ret.drop_last() =~= before);
    assert(feed.drop_last() =~= before);
    assert(both.drop_last() =~= ret);
    assert(both[both.len() - 2] == CR);
    assert(lines(ret) == lines(before).push(Seq::empty()));
    assert(lines(both) == lines(ret));
    if before.len() == 0 || before.last() != 0x0d {
        if before.len() > 0 {
            assert(feed[feed.len() - 2] == before.last());
        }
        lemma_same_end(feed, both, after);
    }
    if after.len() == 0 || after[0] != 0x0a {
        lemma_same_end(ret, both, after);
    }
}

/// A body of lines, the last of which is not blank, is relaxed line by line.
pub proof fn law_bodies_are_relaxed_line_by_line(ls: Seq<Seq<u8>>)
    requires
        0 < ls.len() < usize::MAX,
        forall|i: int, j: int|
            0 <= i < ls.len() && 0 <= j < ls[i].len() ==> #[trigger] ls[i][j] != 0x0d && ls[i][j]
                != 0x0a,
        relaxed_line(ls.last()).len() > 0,
    ensures
        relaxed_body(ls.map_values(|l: Seq<u8>| l + seq![0x0du8, 0x0au8]).flatten())
            == ls.map_values(|l: Seq<u8>| relaxed_line(l) + seq![0x0du8, 0x0au8]).flatten(),
{
    let kept = ls.map_values(|l: Seq<u8>| relaxed_line(l));
    let body = ended(ls);
    lemma_ended_is_flat(ls);
    lemma_ended_is_flat(kept);
    assert(ls.map_values(|l: Seq<u8>| relaxed_line(l) + seq![0x0du8, 0x0au8])
        =~= kept.map_values(|l: Seq<u8>| l + seq![0x0du8, 0x0au8]));
    assert forall|i: int| 0 <= i < ls.len() implies is_one_line(#[trigger] ls[i]) by {}
    lemma_lines_of_ended(ls);
    let all = relaxed_lines(body);
    assert(all =~= kept.push(Seq::empty()));
    lemma_text_lines(all);
    assert(all.drop_last() =~= kept);
    assert(all.last().len() == 0);
    assert(kept.last().len() > 0);
    assert(without_blank(kept) == kept);
    assert(without_blank(all) == without_blank(all.drop_last()));
    assert(ended(kept) == ended(kept.drop_last()) + kept.last() + crlf());
}

proof fn lemma_ended_is_flat(ls: Seq<Seq<u8>>)
    ensures
        ended(ls) == ls.map_values(|l: Seq<u8>| l + seq![0x0du8, 0x0au8]).flatten(),
    decreases ls.len(),
{
    let f = |l: Seq<u8>| l + seq![0x0du8, 0x0au8];
    if ls.len() == 0 {
        assert(ls.map_values(f) =~= Seq::empty());
    } else {
        let front = ls.drop_last();
        lemma_ended_is_flat(front);
        front.map_values(f).lemma_flatten_push(f(ls.last()));
        assert(ls.map_values(f) =~= front.map_values(f).push(f(ls.last())));
        assert(ended(ls) =~= ended(front) + (ls.last() + seq![0x0du8, 0x0au8]));
    }
}

/// A body of white space alone, or of nothing, is relaxed to a single CR LF.
pub proof fn law_blank_bodies_are_one_line_end(s: Seq<u8>)
    requires
        is_blank(s),
    ensures
        relaxed_body(s) == seq![0x0du8, 0x0au8],
{
    lemma_blank_lines_relaxed(s);
    lemma_no_text(relaxed_lines(s));
}

/// Whether lines are all empty.
spec fn are_empty(ls: Seq<Seq<u8>>) -> bool {
    forall|i: int| 0 <= i < ls.len() ==> (#[trigger] ls[i]).len() == 0
}

proof fn lemma_blank_lines_relaxed(s: Seq<u8>)
    requires
        is_blank(s),
    ensures
        are_empty(relaxed_lines(s)),
    decreases s.len(),
{
    if s.len() == 0 {
        assert(relaxed_lines(s) =~= seq![Seq::<u8>::empty()]);
    } else {
        let done = s.drop_last();
        let byte = s.last();
        assert(byte == s[s.len() - 1]);
        assert forall|i: int| 0 <= i < done.len() implies #[trigger] done[i] == 0x20 || done[i]
            == 0x09 || done[i] == 0x0d || done[i] == 0x0a by {
            assert(done[i] == s[i]);
        }
        lemma_blank_lines_relaxed(done);
        assert(done.push(byte) =~= s);
        let ls = relaxed_lines(done);
        if byte == LF && s.len() >= 2 && s[s.len() - 2] == CR {
            assert(lines(s) == lines(done));
            assert(relaxed_lines(s) == ls);
        } else if byte == CR || byte == LF {
            assert(lines(s) == lines(done).push(Seq::empty()));
            lemma_end_line(done, s);
            let next = ls.push(Seq::empty());
            assert(relaxed_lines(s) == next);
            assert forall|i: int| 0 <= i < next.len() implies (#[trigger] next[i]).len() == 0 by {
                if i < ls.len() {
                    assert(next[i] == ls[i]);
                }
            }
        } else {
            lemma_take_byte(done, byte);
            assert(is_wsp(byte));
            assert(relaxed_lines(s) == ls);
        }
    }
}

proof fn lemma_no_text(ls: Seq<Seq<u8>>)
    requires
        are_empty(ls),
    ensures
        text_lines(ls).len() == 0,
    decreases ls.len(),
{
    if ls.len() > 0 {
        assert(ls.last() == ls[ls.len() - 1]);
        assert forall|i: int| 0 <= i < ls.drop_last().len() implies (#[trigger] ls.drop_last()[i]).len()
            == 0 by {
            assert(ls.drop_last()[i] == ls[i]);
        }
        lemma_no_text(ls.drop_last());
    }
}

} // verus!
