use vstd::prelude::*;
use vstd::string::StrSliceExecFns;

verus! {

/// Characters with the Unicode `White_Space` property, as `char::is_whitespace`
/// and `str::trim` treat them.
pub open spec fn is_space(c: char) -> bool {
    ('\u{9}' <= c && c <= '\u{d}') || c == ' ' || c == '\u{85}' || c == '\u{a0}'
        || c == '\u{1680}' || ('\u{2000}' <= c && c <= '\u{200a}') || c == '\u{2028}'
        || c == '\u{2029}' || c == '\u{202f}' || c == '\u{205f}' || c == '\u{3000}'
}

/// Whether nothing is left of `s` once surrounding whitespace is trimmed.
pub open spec fn is_blank(s: Seq<char>) -> bool {
    forall|i: int| 0 <= i < s.len() ==> is_space(#[trigger] s[i])
}

/// A name that is not blank and has at most `max` characters.
pub open spec fn valid_name(s: Seq<char>, max: nat) -> bool {
    !is_blank(s) && s.len() <= max
}

pub fn char_is_space(c: char) -> (r: bool)
    ensures
        r == is_space(c),
{
    ('\u{9}' <= c && c <= '\u{d}') || c == ' ' || c == '\u{85}' || c == '\u{a0}'
        || c == '\u{1680}' || ('\u{2000}' <= c && c <= '\u{200a}') || c == '\u{2028}'
        || c == '\u{2029}' || c == '\u{202f}' || c == '\u{205f}' || c == '\u{3000}'
}

/// Checks a name against `valid_name`, reading at most `max` characters.
pub fn check_name(s: &str, max: usize) -> (r: bool)
    ensures
        r == valid_name(s@, max as nat),
{
    let n = s.unicode_len();
    if n > max {
        return false;
    }
    let mut i: usize = 0;
    while i < n
        invariant
            n == s@.len(),
            n <= max,
            0 <= i <= n,
            forall|j: int| 0 <= j < i ==> is_space(#[trigger] s@[j]),
        decreases n - i,
    {
        let c = s.get_char(i);
        if !char_is_space(c) {
            assert(!is_space(s@[i as int]));
            return true;
        }
        i = i + 1;
    }
    false
}

/// A copy of an optional text.
pub fn copy_text(o: &Option<String>) -> (r: Option<String>)
    ensures
        r == *o,
{
    match o {
        Some(s) => Some(s.clone()),
        None => None,
    }
}

/// How many bytes UTF-8 spends on `c`.
pub open spec fn utf8_width(c: char) -> nat {
    if (c as u32) < 0x80 {
        1
    } else if (c as u32) < 0x800 {
        2
    } else if (c as u32) < 0x10000 {
        3
    } else {
        4
    }
}

/// The length of `s` in UTF-8 bytes.
pub open spec fn utf8_len(s: Seq<char>) -> nat
    decreases s.len(),
{
    if s.len() == 0 {
        0
    } else {
        utf8_len(s.drop_last()) + utf8_width(s.last())
    }
}

/// A name that is not blank and takes at most `max` bytes in UTF-8.
pub open spec fn valid_name_bytes(s: Seq<char>, max: nat) -> bool {
    !is_blank(s) && utf8_len(s) <= max
}

proof fn lemma_utf8_len_at_least_chars(s: Seq<char>)
    ensures
        utf8_len(s) >= s.len(),
    decreases s.len(),
{
    if s.len() > 0 {
        lemma_utf8_len_at_least_chars(s.drop_last());
    }
}

proof fn lemma_utf8_len_prefix(s: Seq<char>, i: int)
    requires
        0 <= i <= s.len(),
    ensures
        utf8_len(s.subrange(0, i)) <= utf8_len(s),
    decreases s.len(),
{
    if i < s.len() {
        assert(s.drop_last().subrange(0, i) =~= s.subrange(0, i));
        lemma_utf8_len_prefix(s.drop_last(), i);
    } else {
        assert(s.subrange(0, i) =~= s);
    }
}

fn char_width(c: char) -> (r: u64)
    ensures
        r == utf8_width(c),
{
    let v = c as u32;
    if v < 0x80 {
        1
    } else if v < 0x800 {
        2
    } else if v < 0x10000 {
        3
    } else {
        4
    }
}

/// Checks a name against `valid_name_bytes`.
pub fn check_name_bytes(s: &str, max: usize) -> (r: bool)
    ensures
        r == valid_name_bytes(s@, max as nat),
{
    let n = s.unicode_len();
    if n > max {
        proof {
            lemma_utf8_len_at_least_chars(s@);
        }
        return false;
    }
    let mut total: u64 = 0;
    let mut blank = true;
    let mut i: usize = 0;
    while i < n
        invariant
            n == s@.len(),
            n <= max,
            0 <= i <= n,
            total == utf8_len(s@.subrange(0, i as int)),
            total <= max,
            blank == is_blank(s@.subrange(0, i as int)),
        decreases n - i,
    {
        let c = s.get_char(i);
        proof {
            let next = s@.subrange(0, i + 1);
            assert(next.drop_last() =~= s@.subrange(0, i as int));
            if !blank {
                let j = choose|j: int| 0 <= j < i && !is_space(#[trigger] s@.subrange(0, i as int)[j]);
                assert(next[j] == s@.subrange(0, i as int)[j]);
            }
            if !is_space(c) {
                assert(next[i as int] == c);
            }
        }
        let w = char_width(c);
        if w > max as u64 - total {
            proof {
                lemma_utf8_len_prefix(s@, i + 1);
            }
            return false;
        }
        total = total + w;
        blank = blank && char_is_space(c);
        i = i + 1;
    }
    assert(s@.subrange(0, n as int) =~= s@);
    !blank
}

} // verus!
