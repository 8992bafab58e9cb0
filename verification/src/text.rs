//! Verified text exercises: capitalization, Pig Latin, palindromes and a
//! tiny editor with a clipboard.

use crate::strutil::{chars_of, string_of};
use vstd::prelude::*;

verus! {

/// Uppercases an ASCII lowercase letter and leaves every other character
/// unchanged.
pub open spec fn upper_char(c: char) -> char {
    if 'a' <= c && c <= 'z' {
        ((c as u32 - 32) as u8) as char
    } else {
        c
    }
}

/// Capitalizes the English letters of the input, leaving all other
/// characters intact.
pub fn capitalize(input: String) -> (r: String)
    ensures
        r@ == input@.map_values(|c: char| upper_char(c)),
{
    let cs = chars_of(input.as_str());
    let mut out: Vec<char> = Vec::new();
    let mut i: usize = 0;
    while i < cs.len()
        invariant
            cs@ == input@,
            i <= cs@.len(),
            out@.len() == i,
            forall|j: int| 0 <= j < i ==> out@[j] == upper_char(#[trigger] cs@[j]),
        decreases cs@.len() - i,
    {
        let c = cs[i];
        if c >= 'a' && c <= 'z' {
            out.push(((c as u32 - 32) as u8) as char);
        } else {
            out.push(c);
        }
        i = i + 1;
    }
    proof {
        assert(out@ =~= input@.map_values(|c: char| upper_char(c)));
    }
    string_of(&out)
}

/// Whether the character is one of the five lowercase vowels.
pub open spec fn is_vowel(c: char) -> bool {
    c == 'a' || c == 'e' || c == 'i' || c == 'o' || c == 'u'
}

/// The index of the first vowel of the sequence (its length if none).
pub open spec fn first_vowel(s: Seq<char>) -> int
    decreases s.len(),
{
    if s.len() == 0 {
        0
    } else if is_vowel(s[0]) {
        0
    } else {
        1 + first_vowel(s.drop_first())
    }
}

/// A position holding a vowel, with no vowel before it, is the first
/// vowel.
proof fn lemma_first_vowel(s: Seq<char>, k: int)
    requires
        0 <= k < s.len(),
        is_vowel(s[k]),
        forall|j: int| 0 <= j < k ==> !is_vowel(#[trigger] s[j]),
    ensures
        first_vowel(s) == k,
    decreases k,
{
    if k > 0 {
        lemma_first_vowel(s.drop_first(), k - 1);
    }
}

/// The Pig Latin rendering: a word that starts with a vowel gains "hay";
/// otherwise everything before the first vowel moves to the end, followed
/// by "ay".
pub open spec fn piglatin_spec(s: Seq<char>) -> Seq<char> {
    if s.len() > 0 && is_vowel(s[0]) {
        s + seq!['h', 'a', 'y']
    } else {
        s.subrange(first_vowel(s), s.len() as int) + s.subrange(0, first_vowel(s)) + seq!['a', 'y']
    }
}

/// Converts a word to Pig Latin.  The word must contain a vowel.
pub fn piglatin(input: String) -> (r: String)
    ensures
        r@ == piglatin_spec(input@),
{
    let cs = chars_of(input.as_str());
    let mut ind: usize = 0;
    let mut found = false;
    let mut i: usize = 0;
    while i < cs.len()
        invariant
            cs@ == input@,
            i <= cs@.len(),
            !found ==> forall|j: int| 0 <= j < i ==> !is_vowel(#[trigger] cs@[j]),
            found ==> ind < cs@.len() && is_vowel(cs@[ind as int]) && forall|j: int|
                0 <= j < ind ==> !is_vowel(#[trigger] cs@[j]),
        decreases cs@.len() - i,
    {
        let c = cs[i];
        if !found && (c == 'a' || c == 'e' || c == 'i' || c == 'o' || c == 'u') {
            found = true;
            ind = i;
        }
        i = i + 1;
    }
    if !found {
        let mut out: Vec<char> = Vec::new();
        let mut k: usize = 0;
        while k < cs.len()
            invariant
                cs@ == input@,
                k <= cs@.len(),
                out@ == cs@.subrange(0, k as int),
            decreases cs@.len() - k,
        {
            out.push(cs[k]);
            k = k + 1;
            proof {
                assert(out@ =~= cs@.subrange(0, k as int));
            }
        }
        out.push('a');
        out.push('y');
        proof {
            assert(cs@.subrange(0, cs@.len() as int) =~= cs@);
            assert(first_vowel(input@) == input@.len()) by {
                lemma_no_vowel(input@);
            }
            assert(input@.subrange(input@.len() as int, input@.len() as int) =~= Seq::<
                char,
            >::empty());
            assert(out@ =~= piglatin_spec(input@));
        }
        return string_of(&out);
    }
    proof {
        lemma_first_vowel(cs@, ind as int);
    }
    if ind == 0 {
        let mut out: Vec<char> = Vec::new();
        let mut k: usize = 0;
        while k < cs.len()
            invariant
                cs@ == input@,
                k <= cs@.len(),
                out@ == cs@.subrange(0, k as int),
            decreases cs@.len() - k,
        {
            out.push(cs[k]);
            k = k + 1;
            proof {
                assert(out@ =~= cs@.subrange(0, k as int));
            }
        }
        out.push('h');
        out.push('a');
        out.push('y');
        proof {
            assert(cs@.subrange(0, cs@.len() as int) =~= cs@);
            assert(out@ =~= piglatin_spec(input@));
        }
        string_of(&out)
    } else {
        let mut out: Vec<char> = Vec::new();
        let mut k: usize = ind;
        while k < cs.len()
            invariant
                cs@ == input@,
                ind <= k <= cs@.len(),
                out@ == cs@.subrange(ind as int, k as int),
            decreases cs@.len() - k,
        {
            out.push(cs[k]);
            k = k + 1;
            proof {
                assert(out@ =~= cs@.subrange(ind as int, k as int));
            }
        }
        let mut k2: usize = 0;
        while k2 < ind
            invariant
                cs@ == input@,
                ind <= cs@.len(),
                k2 <= ind,
                out@ == cs@.subrange(ind as int, cs@.len() as int) + cs@.subrange(0, k2 as int),
            decreases ind - k2,
        {
            out.push(cs[k2]);
            k2 = k2 + 1;
            proof {
                assert(out@ =~= cs@.subrange(ind as int, cs@.len() as int) + cs@.subrange(
                    0,
                    k2 as int,
                ));
            }
        }
        out.push('a');
        out.push('y');
        proof {
            assert(out@ =~= piglatin_spec(input@));
        }
        string_of(&out)
    }
}

/// A sequence without vowels has its first-vowel index at its length.
proof fn lemma_no_vowel(s: Seq<char>)
    requires
        forall|j: int| 0 <= j < s.len() ==> !is_vowel(#[trigger] s[j]),
    ensures
        first_vowel(s) == s.len(),
    decreases s.len(),
{
    if s.len() > 0 {
        lemma_no_vowel(s.drop_first());
    }
}

/// Returns whether the string reads the same backward as forward; the
/// empty string qualifies.
pub fn is_palindrome(s: String) -> (r: bool)
    ensures
        r <==> s@ == s@.reverse(),
{
    let cs = chars_of(s.as_str());
    let len = cs.len();
    let mut i: usize = 0;
    let mut j: usize = len;
    while i < j
        invariant
            cs@ == s@,
            len == cs@.len(),
            i <= len,
            j == len - i,
            forall|k: int| 0 <= k < i ==> #[trigger] cs@[k] == cs@[len - 1 - k],
        decreases j,
    {
        j = j - 1;
        if cs[i] != cs[j] {
            proof {
                assert(s@.reverse()[i as int] == s@[len - 1 - i]);
            }
            return false;
        }
        i = i + 1;
    }
    proof {
        assert forall|k: int| 0 <= k < len implies #[trigger] cs@[k] == cs@[len - 1 - k] by {
            if k >= i {
                assert(cs@[len - 1 - k] == cs@[len - 1 - (len - 1 - k)]);
            }
        }
        assert(s@ =~= s@.reverse());
    }
    true
}

/// Events in a text editor.
#[derive(Debug, Clone, Copy)]
pub enum TypeEvent {
    /// A character is typed.
    Type(char),
    /// The last character is removed.
    Backspace,
    /// The whole string is copied to the clipboard.
    Copy,
    /// The string in the clipboard is appended.
    Paste,
}

/// One editor step: the text and clipboard after handling one event.
pub open spec fn editor_step(text: Seq<char>, clip: Seq<char>, ev: TypeEvent) -> (Seq<char>, Seq<
    char,
>) {
    match ev {
        TypeEvent::Type(c) => (text.push(c), clip),
        TypeEvent::Backspace => (
            if text.len() > 0 {
                text.drop_last()
            } else {
                text
            },
            clip,
        ),
        TypeEvent::Copy => (text, text),
        TypeEvent::Paste => (text + clip, clip),
    }
}

/// The text and clipboard after handling a whole event sequence, starting
/// from an empty text and an empty clipboard.
pub open spec fn editor_run(events: Seq<TypeEvent>) -> (Seq<char>, Seq<char>)
    decreases events.len(),
{
    if events.len() == 0 {
        (Seq::<char>::empty(), Seq::<char>::empty())
    } else {
        let st = editor_run(events.drop_last());
        editor_step(st.0, st.1, events.last())
    }
}

/// Processes the given editor events in order, starting from an empty
/// string and an empty clipboard, and returns the resulting string.
pub fn use_editor(events: Vec<TypeEvent>) -> (r: String)
    ensures
        r@ == editor_run(events@).0,
{
    let mut text: Vec<char> = Vec::new();
    let mut clip: Vec<char> = Vec::new();
    let mut i: usize = 0;
    proof {
        assert(events@.subrange(0, 0) =~= Seq::<TypeEvent>::empty());
    }
    while i < events.len()
        invariant
            i <= events@.len(),
            text@ == editor_run(events@.subrange(0, i as int)).0,
            clip@ == editor_run(events@.subrange(0, i as int)).1,
        decreases events@.len() - i,
    {
        let ghost pre_text = text@;
        let ghost pre_clip = clip@;
        match events[i] {
            TypeEvent::Type(v) => {
                text.push(v);
            },
            TypeEvent::Backspace => {
                if text.len() > 0 {
                    let _ = text.pop();
                }
            },
            TypeEvent::Copy => {
                clip.clear();
                let mut k: usize = 0;
                while k < text.len()
                    invariant
                        k <= text@.len(),
                        text@ == pre_text,
                        clip@ == text@.subrange(0, k as int),
                    decreases text@.len() - k,
                {
                    clip.push(text[k]);
                    k = k + 1;
                    proof {
                        assert(clip@ =~= text@.subrange(0, k as int));
                    }
                }
                proof {
                    assert(text@.subrange(0, text@.len() as int) =~= text@);
                }
            },
            TypeEvent::Paste => {
                let mut k: usize = 0;
                while k < clip.len()
                    invariant
                        k <= clip@.len(),
                        clip@ == pre_clip,
                        text@ == pre_text + clip@.subrange(0, k as int),
                    decreases clip@.len() - k,
                {
                    text.push(clip[k]);
                    k = k + 1;
                    proof {
                        assert(text@ =~= pre_text + clip@.subrange(0, k as int));
                    }
                }
                proof {
                    assert(clip@.subrange(0, clip@.len() as int) =~= clip@);
                    assert(pre_text + clip@.subrange(0, 0) =~= pre_text);
                }
            },
        }
        i = i + 1;
        proof {
            assert(events@.subrange(0, i as int).drop_last() =~= events@.subrange(0, i - 1));
            assert(events@.subrange(0, i as int).last() == events@[i - 1]);
        }
    }
    proof {
        assert(events@.subrange(0, events@.len() as int) =~= events@);
    }
    string_of(&text)
}

} // verus!
