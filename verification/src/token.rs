//! The command tokens: a fit mode and a target size.

use vstd::prelude::*;

verus! {

/// How a source image is brought to the target's aspect ratio.
#[derive(Clone, Copy, Debug, PartialEq, Eq, Structural)]
pub enum Mode {
    /// Scale until the whole image lies inside the target; pad the rest.
    Fit,
    /// Scale until the image covers the target; crop the rest.
    Fill,
}

/// The lower-case form of an ASCII capital; any other character unchanged.
pub open spec fn lower(c: char) -> char {
    if 'A' <= c && c <= 'Z' {
        ((c as u8) + 32) as char
    } else {
        c
    }
}

/// `s` with every ASCII capital in lower case.
pub open spec fn folded(s: Seq<char>) -> Seq<char> {
    Seq::new(s.len(), |i: int| lower(s[i]))
}

/// Whether `c` is one of the ten ASCII digits.
pub open spec fn is_digit(c: char) -> bool {
    '0' <= c && c <= '9'
}

/// Whether `s` holds ASCII digits only.
pub open spec fn all_digits(s: Seq<char>) -> bool {
    forall|i: int| 0 <= i < s.len() ==> is_digit(#[trigger] s[i])
}

/// The number that the digits of `s` spell in base ten.
pub open spec fn decimal(s: Seq<char>) -> nat
    decreases s.len(),
{
    if s.len() == 0 {
        0
    } else {
        (10 * decimal(s.drop_last()) + (s.last() as u8 - '0' as u8)) as nat
    }
}

/// The 32-bit number that `s` spells: one optional `+`, then at least one
/// digit, leading zeros allowed. `None` for any other text, and for a number
/// above `u32::MAX`.
pub open spec fn unsigned(s: Seq<char>) -> Option<u32> {
    let digits = if s.len() > 0 && s[0] == '+' {
        s.drop_first()
    } else {
        s
    };
    if digits.len() > 0 && all_digits(digits) && decimal(digits) <= u32::MAX {
        Some(decimal(digits) as u32)
    } else {
        None
    }
}

/// The target size that `s` names: `youtube` or `yt` in any mix of case for
/// 1280 by 720, else a width and a height, both positive, around the first
/// `x` of `s`.
pub open spec fn size_named(s: Seq<char>) -> Option<(u32, u32)> {
    if folded(s) == "youtube"@ || folded(s) == "yt"@ {
        Some((1280u32, 720u32))
    } else {
        match s.index_of_first('x') {
            None => None,
            Some(at) => match (unsigned(s.take(at)), unsigned(s.skip(at + 1))) {
                (Some(w), Some(h)) => if w == 0 || h == 0 {
                    None
                } else {
                    Some((w, h))
                },
                _ => None,
            },
        }
    }
}

impl Mode {
    /// The mode that `s` names in any mix of case: `fit`, `pad` and `contain`
    /// for [`Mode::Fit`]; `fill`, `crop` and `cover` for [`Mode::Fill`].
    pub open spec fn named(s: Seq<char>) -> Option<Mode> {
        let t = folded(s);
        if t == "fit"@ || t == "pad"@ || t == "contain"@ {
            Some(Mode::Fit)
        } else if t == "fill"@ || t == "crop"@ || t == "cover"@ {
            Some(Mode::Fill)
        } else {
            None
        }
    }

    /// Reads a mode from its name or one of its aliases.
    pub fn parse(s: &str) -> (r: Option<Mode>)
        ensures
            r == Mode::named(s@),
    {
        let t = chars_of(s);
        if is_word(&t, "fit") || is_word(&t, "pad") || is_word(&t, "contain") {
            Some(Mode::Fit)
        } else if is_word(&t, "fill") || is_word(&t, "crop") || is_word(&t, "cover") {
            Some(Mode::Fill)
        } else {
            None
        }
    }
}

/// Reads a target size: an alias, or `WxH` with both numbers positive.
pub fn parse_size(s: &str) -> (r: Option<(u32, u32)>)
    ensures
        r == size_named(s@),
        r matches Some(size) ==> size.0 > 0 && size.1 > 0,
{
    let t = chars_of(s);
    if is_word(&t, "youtube") || is_word(&t, "yt") {
        return Some((1280, 720));
    }
    let mut at: usize = 0;
    while at < t.len() && t[at] != 'x'
        invariant
            at <= t.len(),
            forall|j: int| 0 <= j < at ==> t[j] != 'x',
        decreases t.len() - at,
    {
        at += 1;
    }
    proof {
        s@.index_of_first_ensures('x');
    }
    if at == t.len() {
        return None;
    }
    assert(s@.contains('x'));
    assert(s@.index_of_first('x') == Some(at as int));
    assert(t@.subrange(0, at as int) == s@.take(at as int));
    assert(t@.subrange(at + 1, t.len() as int) == s@.skip(at + 1));
    let w = parse_unsigned(&t, 0, at);
    let h = parse_unsigned(&t, at + 1, t.len());
    match (w, h) {
        (Some(w), Some(h)) => if w == 0 || h == 0 {
            None
        } else {
            Some((w, h))
        },
        _ => None,
    }
}

fn to_lower(c: char) -> (r: char)
    ensures
        r == lower(c),
{
    if 'A' <= c && c <= 'Z' {
        ((c as u8) + 32) as char
    } else {
        c
    }
}

/// The characters of `s`, one by one.
fn chars_of(s: &str) -> (v: Vec<char>)
    ensures
        v@ == s@,
{
    let mut v: Vec<char> = Vec::new();
    for c in it: s.chars()
        invariant
            it.seq() == s@,
            v@ == s@.take(it.index()),
    {
        v.push(c);
        assert(v@ =~= s@.take(it.index() + 1));
    }
    assert(v@ =~= s@);
    v
}

/// Whether `t` is `word` once its capitals are folded.
fn is_word(t: &Vec<char>, word: &str) -> (r: bool)
    ensures
        r == (folded(t@) == word@),
{
    let w = chars_of(word);
    if t.len() != w.len() {
        return false;
    }
    let mut i: usize = 0;
    while i < t.len()
        invariant
            i <= t.len(),
            t.len() == w.len(),
            w@ == word@,
            forall|j: int| 0 <= j < i ==> lower(t[j]) == w[j],
        decreases t.len() - i,
    {
        if to_lower(t[i]) != w[i] {
            assert(folded(t@)[i as int] != word@[i as int]);
            return false;
        }
        i += 1;
    }
    assert(folded(t@) =~= word@);
    true
}

/// The number spelled by `t[from..to]`.
#[verifier::loop_isolation(false)]
fn parse_unsigned(t: &Vec<char>, from: usize, to: usize) -> (r: Option<u32>)
    requires
        from <= to <= t.len(),
    ensures
        r == unsigned(t@.subrange(from as int, to as int)),
{
    let ghost s = t@.subrange(from as int, to as int);
    let start: usize = if from < to && t[from] == '+' {
        from + 1
    } else {
        from
    };
    let ghost digits = t@.subrange(start as int, to as int);
    assert(digits == if s.len() > 0 && s[0] == '+' {
        s.drop_first()
    } else {
        s
    });
    if start == to {
        return None;
    }
    let mut value: u64 = 0;
    let mut fits = true;
    let mut i: usize = start;
    assert(digits.take(0) =~= Seq::<char>::empty());
    while i < to
        invariant
            start <= i <= to <= t.len(),
            digits == t@.subrange(start as int, to as int),
            all_digits(digits.take(i - start)),
            fits ==> value == decimal(digits.take(i - start)) && value <= u32::MAX,
            !fits ==> decimal(digits.take(i - start)) > u32::MAX,
        decreases to - i,
    {
        let c = t[i];
        let ghost before = digits.take(i - start);
        let ghost after = digits.take(i - start + 1);
        assert(after.drop_last() =~= before);
        assert(after.last() == c);
        if !('0' <= c && c <= '9') {
            assert(!is_digit(digits[i - start]));
            return None;
        }
        assert forall|j: int| 0 <= j < after.len() implies is_digit(#[trigger] after[j]) by {
            if j < before.len() {
                assert(after[j] == before[j]);
            }
        }
        if fits {
            value = value * 10 + (c as u8 - '0' as u8) as u64;
            if value > u32::MAX as u64 {
                fits = false;
            }
        }
        i += 1;
    }
    assert(digits.take(to - start) =~= digits);
    if fits {
        Some(value as u32)
    } else {
        None
    }
}

} // verus!
