//! Patterns of bytes with wildcards.

use crate::text;
use vstd::prelude::*;

verus! {

/// Tells whether `hay` begins with bytes that a pattern allows; `None` allows any byte.
pub open spec fn begins_with(hay: Seq<u8>, pat: Seq<Option<u8>>) -> bool {
    &&& hay.len() >= pat.len()
    &&& forall|i: int|
        0 <= i < pat.len() ==> (#[trigger] pat[i] matches Some(b) ==> hay[i] == b)
}

/// Tells whether `hay` begins with bytes that the pattern allows.
pub fn matches_at(hay: &[u8], pat: &[Option<u8>]) -> (r: bool)
    ensures
        r == begins_with(hay@, pat@),
{
    if hay.len() < pat.len() {
        return false;
    }
    let mut i: usize = 0;
    while i < pat.len()
        invariant
            i <= pat.len() <= hay.len(),
            forall|k: int| 0 <= k < i ==> (#[trigger] pat@[k] matches Some(b) ==> hay@[k] == b),
        decreases pat.len() - i,
    {
        if let Some(b) = pat[i] {
            if b != hay[i] {
                assert(pat@[i as int] == Some(b));
                return false;
            }
        }
        i += 1;
    }
    true
}

/// What one word of a pattern stands for: a wildcard, or a byte in hexadecimal.
pub open spec fn word_meaning(w: Seq<char>) -> Option<Option<u8>> {
    if w == seq!['?', '?'] || w == seq!['?'] {
        Some(None)
    } else {
        match text::integer(w, 16, 0, 255) {
            Some(v) => Some(Some(v as u8)),
            None => None,
        }
    }
}

/// The pattern that words stand for, where each stands for something.
pub open spec fn pattern_of(ws: Seq<Seq<char>>) -> Option<Seq<Option<u8>>> {
    if forall|i: int| 0 <= i < ws.len() ==> word_meaning(#[trigger] ws[i]) is Some {
        Some(Seq::new(ws.len(), |i: int| word_meaning(ws[i])->0))
    } else {
        None
    }
}

/// The pattern that a text stands for, which is not empty.
pub open spec fn text_pattern(s: Seq<char>) -> Option<Seq<Option<u8>>> {
    if text::words(s).len() == 0 {
        None
    } else {
        pattern_of(text::words(s))
    }
}

fn word_value(w: &[char]) -> (r: Option<Option<u8>>)
    ensures
        r == word_meaning(w@),
{
    if (w.len() == 2 && w[0] == '?' && w[1] == '?') || (w.len() == 1 && w[0] == '?') {
        assert(w@ == seq!['?', '?'] || w@ == seq!['?']);
        return Some(None);
    }
    assert(w@ != seq!['?', '?'] && w@ != seq!['?']);
    match text::parse_integer(w, 16, 0, 255) {
        Some(v) => Some(Some(v as u8)),
        None => None,
    }
}

/// Reads a pattern such as `48 8B 05 ?? ?? 89`, in which `??` or `?` stands for any byte. `None`
/// where a word is neither a wildcard nor a byte, and where there is no word.
pub fn parse_aob(pattern: &str) -> (r: Option<Vec<Option<u8>>>)
    ensures
        match r {
            Some(v) => text_pattern(pattern@) == Some(v@),
            None => text_pattern(pattern@) is None,
        },
{
    let cs = text::chars_of(pattern);
    let ws = text::split_words(cs.as_slice());
    let ghost all = text::words(pattern@);
    let mut out: Vec<Option<u8>> = Vec::new();
    let mut i: usize = 0;
    while i < ws.len()
        invariant
            i <= ws.len(),
            ws.len() == all.len(),
            all == text::words(pattern@),
            forall|k: int| 0 <= k < ws.len() ==> (#[trigger] ws@[k])@ == all[k],
            out.len() == i,
            forall|k: int| 0 <= k < i ==> word_meaning(#[trigger] all[k]) == Some(out@[k]),
        decreases ws.len() - i,
    {
        assert(ws@[i as int]@ == all[i as int]);
        match word_value(ws[i].as_slice()) {
            Some(v) => {
                out.push(v);
            },
            None => {
                return None;
            },
        }
        i += 1;
    }
    if out.len() == 0 {
        None
    } else {
        assert(out@ =~= pattern_of(all)->0);
        Some(out)
    }
}

/// A pattern as it is written: each byte in two hexadecimal digits or `??`, with white space before
/// it.
pub open spec fn pattern_text(pat: Seq<Option<u8>>, upper: bool) -> Seq<char>
    decreases pat.len(),
{
    if pat.len() == 0 {
        Seq::empty()
    } else {
        seq![' '] + (match pat[0] {
            Some(b) => text::byte_text(b, upper),
            None => seq!['?', '?'],
        }) + pattern_text(pat.skip(1), upper)
    }
}

proof fn lemma_pattern_words(pat: Seq<Option<u8>>, upper: bool)
    ensures
        ({
            let ws = text::words(pattern_text(pat, upper));
            &&& ws.len() == pat.len()
            &&& forall|i: int| 0 <= i < ws.len() ==> word_meaning(#[trigger] ws[i]) == Some(pat[i])
        }),
    decreases pat.len(),
{
    let s = pattern_text(pat, upper);
    if pat.len() > 0 {
        let rest = pat.skip(1);
        lemma_pattern_words(rest, upper);
        let t = pattern_text(rest, upper);
        let w = match pat[0] {
            Some(b) => text::byte_text(b, upper),
            None => seq!['?', '?'],
        };
        if let Some(b) = pat[0] {
            text::law_byte_text_is_read(b, upper);
            assert(w != seq!['?', '?'] && w != seq!['?']) by {
                assert(w[0] != '?');
            }
        }
        assert(text::is_space(' '));
        assert(text::is_word(w));
        text::law_words_are_split(seq![' '], w, t);
        let ws = text::words(s);
        let later = text::words(t);
        assert(ws == seq![w] + later);
        assert forall|i: int| 0 <= i < ws.len() implies word_meaning(#[trigger] ws[i]) == Some(
            pat[i],
        ) by {
            if i > 0 {
                assert(ws[i] == later[i - 1]);
                assert(pat[i] == rest[i - 1]);
            }
        }
    } else {
        text::law_blank_has_no_words(s);
    }
}

/// A pattern that is written out, in either letter case, is read as the pattern.
pub proof fn law_written_pattern_is_read(pat: Seq<Option<u8>>, upper: bool)
    requires
        pat.len() > 0,
    ensures
        text_pattern(pattern_text(pat, upper)) == Some(pat),
{
    lemma_pattern_words(pat, upper);
    assert(pattern_of(text::words(pattern_text(pat, upper)))->0 =~= pat);
}

/// A text with a word that is neither a byte nor a wildcard is no pattern, and neither is one without
/// a word.
pub proof fn law_bad_words_make_no_pattern(s: Seq<char>, k: int)
    ensures
        text::blank(s) ==> text_pattern(s) is None,
        0 <= k < text::words(s).len() && text::words(s)[k] != seq!['?'] && text::words(s)[k] != seq![
            '?',
            '?',
        ] && text::integer(text::words(s)[k], 16, 0, 255) is None ==> text_pattern(s) is None,
{
    if text::blank(s) {
        text::law_blank_has_no_words(s);
    }
    if 0 <= k < text::words(s).len() && text::words(s)[k] != seq!['?'] && text::words(s)[k] != seq![
        '?',
        '?',
    ] && text::integer(text::words(s)[k], 16, 0, 255) is None {
        assert(word_meaning(text::words(s)[k]) is None);
    }
}

/// Bytes fit a pattern exactly where each that the pattern gives is there; what it leaves open may be
/// anything, and so may what follows.
pub proof fn law_wildcards_allow_any_byte(hay: Seq<u8>, pat: Seq<Option<u8>>, k: int, b: u8)
    requires
        begins_with(hay, pat),
        0 <= k < hay.len(),
    ensures
        k >= pat.len() || pat[k] is None ==> begins_with(hay.update(k, b), pat),
        k < pat.len() && pat[k] is Some ==> (begins_with(hay.update(k, b), pat) <==> b == hay[k]),
{
    let h = hay.update(k, b);
    if k >= pat.len() || pat[k] is None || b == hay[k] {
        assert forall|i: int| 0 <= i < pat.len() implies (#[trigger] pat[i] matches Some(x) ==> h[i]
            == x) by {}
        assert(begins_with(h, pat));
    } else {
        assert(pat[k] matches Some(x) ==> h[k] != x);
    }
}

} // verus!
