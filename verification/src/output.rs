//! What a package manager prints is untrusted text that gets drawn inside
//! tuiman's own screen: escape sequences, control characters and emoji go.

use vstd::prelude::*;

use crate::text::{chars_of, is_control, is_emoji, push_char, spec_is_control, spec_is_emoji};

verus! {

/// Where a CSI sequence whose parameters start at `i` ends: just after its
/// final character in `@`..=`~`, or at the end of the text.
pub open spec fn csi_end(s: Seq<char>, i: int) -> int
    decreases s.len() - i,
{
    if i >= s.len() {
        s.len() as int
    } else if '@' <= s[i] && s[i] <= '~' {
        i + 1
    } else {
        csi_end(s, i + 1)
    }
}

/// Where an OSC sequence whose text starts at `i` ends: just after a BEL, or
/// after the character that follows an ESC, or at the end of the text.
pub open spec fn osc_end(s: Seq<char>, i: int) -> int
    decreases s.len() - i,
{
    if i >= s.len() {
        s.len() as int
    } else if s[i] == '\x07' {
        i + 1
    } else if s[i] == '\x1b' {
        if i + 1 < s.len() {
            i + 2
        } else {
            s.len() as int
        }
    } else {
        osc_end(s, i + 1)
    }
}

pub proof fn lemma_csi_end(s: Seq<char>, i: int)
    requires
        0 <= i <= s.len(),
    ensures
        i <= csi_end(s, i) <= s.len(),
    decreases s.len() - i,
{
    if i < s.len() && !('@' <= s[i] && s[i] <= '~') {
        lemma_csi_end(s, i + 1);
    }
}

pub proof fn lemma_osc_end(s: Seq<char>, i: int)
    requires
        0 <= i <= s.len(),
    ensures
        i <= osc_end(s, i) <= s.len(),
    decreases s.len() - i,
{
    if i < s.len() && s[i] != '\x07' && s[i] != '\x1b' {
        lemma_osc_end(s, i + 1);
    }
}

/// The drawable text of `s` from position `i` on.
pub open spec fn printable_from(s: Seq<char>, i: int) -> Seq<char>
    decreases s.len() - i,
{
    if i < 0 || i >= s.len() {
        seq![]
    } else if s[i] == '\x1b' {
        if i + 1 >= s.len() {
            seq![]
        } else if s[i + 1] == '[' {
            proof {
                lemma_csi_end(s, i + 2);
            }
            printable_from(s, csi_end(s, i + 2))
        } else if s[i + 1] == ']' {
            proof {
                lemma_osc_end(s, i + 2);
            }
            printable_from(s, osc_end(s, i + 2))
        } else {
            printable_from(s, i + 2)
        }
    } else if s[i] == '\t' {
        seq![' ', ' ', ' ', ' '] + printable_from(s, i + 1)
    } else if spec_is_control(s[i]) || spec_is_emoji(s[i]) {
        printable_from(s, i + 1)
    } else {
        seq![s[i]] + printable_from(s, i + 1)
    }
}

fn skip_csi(cs: &Vec<char>, i: usize) -> (r: usize)
    requires
        i <= cs@.len(),
    ensures
        r == csi_end(cs@, i as int),
        i <= r <= cs@.len(),
{
    proof {
        lemma_csi_end(cs@, i as int);
    }
    let mut k = i;
    while k < cs.len()
        invariant
            i <= k <= cs@.len(),
            csi_end(cs@, i as int) == csi_end(cs@, k as int),
        decreases cs@.len() - k,
    {
        if '@' <= cs[k] && cs[k] <= '~' {
            return k + 1;
        }
        k += 1;
    }
    k
}

fn skip_osc(cs: &Vec<char>, i: usize) -> (r: usize)
    requires
        i <= cs@.len(),
    ensures
        r == osc_end(cs@, i as int),
        i <= r <= cs@.len(),
{
    proof {
        lemma_osc_end(cs@, i as int);
    }
    let mut k = i;
    while k < cs.len()
        invariant
            i <= k <= cs@.len(),
            osc_end(cs@, i as int) == osc_end(cs@, k as int),
        decreases cs@.len() - k,
    {
        if cs[k] == '\x07' {
            return k + 1;
        }
        if cs[k] == '\x1b' {
            if k + 1 < cs.len() {
                return k + 2;
            }
            return cs.len();
        }
        k += 1;
    }
    k
}

/// Strips escape sequences, control characters and emoji, and expands tabs:
/// job output is untrusted text that gets drawn inside our own screen.
pub fn printable(text: &str) -> (r: String)
    ensures
        r@ == printable_from(text@, 0),
{
    let cs = chars_of(text);
    let n = cs.len();
    let mut out = String::new();
    let mut i: usize = 0;
    while i < n
        invariant
            i <= n == cs@.len(),
            printable_from(cs@, 0) == out@ + printable_from(cs@, i as int),
        decreases n - i,
    {
        let c = cs[i];
        let ghost before = out@;
        if c == '\x1b' {
            if i + 1 >= n {
                i = n;
            } else if cs[i + 1] == '[' {
                i = skip_csi(&cs, i + 2);
            } else if cs[i + 1] == ']' {
                i = skip_osc(&cs, i + 2);
            } else {
                i = i + 2;
            }
        } else if c == '\t' {
            push_char(&mut out, ' ');
            push_char(&mut out, ' ');
            push_char(&mut out, ' ');
            push_char(&mut out, ' ');
            assert(out@ =~= before + seq![' ', ' ', ' ', ' ']);
            assert(before + (seq![' ', ' ', ' ', ' '] + printable_from(cs@, i + 1)) =~= out@
                + printable_from(cs@, i + 1));
            i += 1;
        } else if is_control(c) || is_emoji(c) {
            i += 1;
        } else {
            push_char(&mut out, c);
            assert(before + (seq![c] + printable_from(cs@, i + 1)) =~= out@ + printable_from(
                cs@,
                i + 1,
            ));
            i += 1;
        }
    }
    assert(out@ + seq![] =~= out@);
    out
}


/// What `printable` draws holds no control character and no emoji, whatever
/// a job printed.
pub proof fn law_printable_is_clean(s: Seq<char>, i: int)
    ensures
        forall|k: int|
            0 <= k < printable_from(s, i).len() ==> !spec_is_control(#[trigger] printable_from(s, i)[k])
                && !spec_is_emoji(printable_from(s, i)[k]),
    decreases s.len() - i,
{
    if 0 <= i < s.len() {
        if s[i] == '\x1b' {
            if i + 1 < s.len() {
                if s[i + 1] == '[' {
                    lemma_csi_end(s, i + 2);
                    law_printable_is_clean(s, csi_end(s, i + 2));
                    assert(printable_from(s, i) == printable_from(s, csi_end(s, i + 2)));
                } else if s[i + 1] == ']' {
                    lemma_osc_end(s, i + 2);
                    law_printable_is_clean(s, osc_end(s, i + 2));
                    assert(printable_from(s, i) == printable_from(s, osc_end(s, i + 2)));
                } else {
                    law_printable_is_clean(s, i + 2);
                    assert(printable_from(s, i) == printable_from(s, i + 2));
                }
            }
        } else {
            law_printable_is_clean(s, i + 1);
            let rest = printable_from(s, i + 1);
            if s[i] == '\t' {
                let sp = seq![' ', ' ', ' ', ' '];
                assert(printable_from(s, i) == sp + rest);
                assert forall|k: int| 0 <= k < printable_from(s, i).len() implies !spec_is_control(
                    #[trigger] printable_from(s, i)[k],
                ) && !spec_is_emoji(printable_from(s, i)[k]) by {
                    if k >= 4 {
                        assert(printable_from(s, i)[k] == rest[k - 4]);
                    } else {
                        assert(printable_from(s, i)[k] == ' ');
                    }
                }
            } else if !(spec_is_control(s[i]) || spec_is_emoji(s[i])) {
                assert(printable_from(s, i) == seq![s[i]] + rest);
                assert forall|k: int| 0 <= k < printable_from(s, i).len() implies !spec_is_control(
                    #[trigger] printable_from(s, i)[k],
                ) && !spec_is_emoji(printable_from(s, i)[k]) by {
                    if k >= 1 {
                        assert(printable_from(s, i)[k] == rest[k - 1]);
                    } else {
                        assert(printable_from(s, i)[k] == s[i]);
                    }
                }
            } else {
                assert(printable_from(s, i) == rest);
            }
        }
    }
}

} // verus!
