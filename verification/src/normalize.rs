//! Text normalization.
//!
//! Recognized text is noisy: casing varies, whitespace is dropped or
//! duplicated, and punctuation is unreliable.  Both the page corpus and
//! every query are therefore canonicalized with the same total, pure
//! function before any comparison: ASCII letters are folded to lower
//! case, ASCII letters and digits are kept, and every other character
//! acts as a separator; runs of separators collapse to a single space,
//! with no leading or trailing space.  Normalizing is idempotent.

use vstd::prelude::*;

verus! {

/// Case folding for one character: ASCII uppercase letters map to their
/// lowercase counterpart, every other character is unchanged.
pub open spec fn fold_char(c: char) -> char {
    match c {
        'A' => 'a',
        'B' => 'b',
        'C' => 'c',
        'D' => 'd',
        'E' => 'e',
        'F' => 'f',
        'G' => 'g',
        'H' => 'h',
        'I' => 'i',
        'J' => 'j',
        'K' => 'k',
        'L' => 'l',
        'M' => 'm',
        'N' => 'n',
        'O' => 'o',
        'P' => 'p',
        'Q' => 'q',
        'R' => 'r',
        'S' => 's',
        'T' => 't',
        'U' => 'u',
        'V' => 'v',
        'W' => 'w',
        'X' => 'x',
        'Y' => 'y',
        'Z' => 'z',
        _ => c,
    }
}

/// A character that survives normalization: a lowercase ASCII letter or
/// an ASCII digit.  Everything else is treated as a separator.
pub open spec fn keep_char(c: char) -> bool {
    match c {
        'a' | 'b' | 'c' | 'd' | 'e' | 'f' | 'g' | 'h' | 'i' | 'j' | 'k' | 'l' | 'm' | 'n' | 'o'
            | 'p' | 'q' | 'r' | 's' | 't' | 'u' | 'v' | 'w' | 'x' | 'y' | 'z' | '0' | '1' | '2'
            | '3' | '4' | '5' | '6' | '7' | '8' | '9' => true,
        _ => false,
    }
}

/// The canonical form of a text: folded kept characters, with each
/// maximal run of separators between two kept characters collapsed to a
/// single space, and separators at either end dropped.
pub open spec fn norm(s: Seq<char>) -> Seq<char>
    decreases s.len(), 1int,
{
    if s.len() == 0 {
        Seq::empty()
    } else if keep_char(fold_char(s[0])) {
        seq![fold_char(s[0])] + norm_tail(s.skip(1))
    } else {
        norm(s.skip(1))
    }
}

/// Continuation of `norm` directly after a kept character: a further
/// kept character extends the current token, while a separator yields a
/// single space if and only if another token follows.
pub open spec fn norm_tail(s: Seq<char>) -> Seq<char>
    decreases s.len(), 0int,
{
    if s.len() == 0 {
        Seq::empty()
    } else if keep_char(fold_char(s[0])) {
        seq![fold_char(s[0])] + norm_tail(s.skip(1))
    } else if norm(s.skip(1)).len() == 0 {
        Seq::empty()
    } else {
        seq![' '] + norm(s.skip(1))
    }
}

/// What a separator run contributes once something has been emitted: a
/// single space, but only if more text follows.
pub open spec fn space_join(t: Seq<char>) -> Seq<char> {
    if t.len() == 0 {
        t
    } else {
        seq![' '] + t
    }
}

/// Every character is kept or is a space followed by a kept character;
/// so there is no trailing space and no run of two spaces.
pub open spec fn canon_inner(t: Seq<char>) -> bool {
    forall|i: int|
        0 <= i < t.len() ==> (keep_char(#[trigger] t[i]) || (t[i] == ' ' && i + 1 < t.len()
            && keep_char(t[i + 1])))
}

/// A sequence already in canonical form: `canon_inner` and, if
/// nonempty, starting with a kept character.
pub open spec fn canonical(t: Seq<char>) -> bool {
    canon_inner(t) && (t.len() > 0 ==> keep_char(t[0]))
}

/// A kept character is a fixed point of case folding.
proof fn lemma_keep_fold(c: char)
    ensures
        keep_char(c) ==> fold_char(c) == c,
{
}

/// The output of normalization is canonical.
proof fn lemma_norm_canonical(s: Seq<char>)
    ensures
        canonical(norm(s)),
        canon_inner(norm_tail(s)),
    decreases s.len(),
{
    if s.len() == 0 {
    } else {
        lemma_norm_canonical(s.skip(1));
        let d = fold_char(s[0]);
        if keep_char(d) {
            lemma_keep_fold(d);
            let u = norm_tail(s.skip(1));
            assert forall|i: int| 0 <= i < norm(s).len() implies (keep_char(#[trigger] norm(s)[i]) || (
            norm(s)[i] == ' ' && i + 1 < norm(s).len() && keep_char(norm(s)[i + 1]))) by {
                if i > 0 {
                    assert(norm(s)[i] == u[i - 1]);
                    if u[i - 1] == ' ' && !keep_char(u[i - 1]) {
                        assert(keep_char(u[i]));
                    }
                }
            }
            assert(canonical(norm(s)));
            assert(canon_inner(norm_tail(s)));
        } else {
            // norm: the separator is skipped.
            assert(canonical(norm(s)));
            // norm_tail: either nothing, or a space before a canonical rest.
            let r = norm(s.skip(1));
            if r.len() == 0 {
                assert(canon_inner(norm_tail(s)));
            } else {
                let t = norm_tail(s);
                assert(t == seq![' '] + r);
                assert forall|i: int| 0 <= i < t.len() implies (keep_char(#[trigger] t[i]) || (t[i] == ' '
                    && i + 1 < t.len() && keep_char(t[i + 1]))) by {
                    if i == 0 {
                        assert(t[1] == r[0]);
                        assert(keep_char(r[0]));
                    } else {
                        assert(t[i] == r[i - 1]);
                        if r[i - 1] == ' ' && !keep_char(r[i - 1]) {
                            assert(keep_char(r[i]));
                        }
                    }
                }
            }
        }
    }
}

/// Normalization is the identity on canonical sequences.
proof fn lemma_norm_id(t: Seq<char>)
    requires
        canonical(t),
    ensures
        norm(t) == t,
    decreases t.len(), 1int,
{
    if t.len() == 0 {
        assert(norm(t) =~= t);
    } else {
        assert(keep_char(t[0]));
        lemma_keep_fold(t[0]);
        assert(canon_inner(t.skip(1))) by {
            assert forall|i: int| 0 <= i < t.skip(1).len() implies (keep_char(#[trigger] t.skip(1)[i]) || (
            t.skip(1)[i] == ' ' && i + 1 < t.skip(1).len() && keep_char(t.skip(1)[i + 1]))) by {
                assert(t.skip(1)[i] == t[i + 1]);
            }
        }
        lemma_norm_tail_id(t.skip(1));
        assert(norm(t) =~= t);
    }
}

/// The token-continuation of normalization is the identity on sequences
/// satisfying `canon_inner`.
proof fn lemma_norm_tail_id(t: Seq<char>)
    requires
        canon_inner(t),
    ensures
        norm_tail(t) == t,
    decreases t.len(), 0int,
{
    if t.len() == 0 {
        assert(norm_tail(t) =~= t);
    } else if keep_char(t[0]) {
        lemma_keep_fold(t[0]);
        assert(canon_inner(t.skip(1))) by {
            assert forall|i: int| 0 <= i < t.skip(1).len() implies (keep_char(#[trigger] t.skip(1)[i]) || (
            t.skip(1)[i] == ' ' && i + 1 < t.skip(1).len() && keep_char(t.skip(1)[i + 1]))) by {
                assert(t.skip(1)[i] == t[i + 1]);
            }
        }
        lemma_norm_tail_id(t.skip(1));
        assert(norm_tail(t) =~= t);
    } else {
        // An inner sequence that starts with a separator starts with a
        // space that a kept character follows.
        assert(t[0] == ' ' && 1 < t.len() && keep_char(t[1]));
        assert(canonical(t.skip(1))) by {
            assert forall|i: int| 0 <= i < t.skip(1).len() implies (keep_char(#[trigger] t.skip(1)[i]) || (
            t.skip(1)[i] == ' ' && i + 1 < t.skip(1).len() && keep_char(t.skip(1)[i + 1]))) by {
                assert(t.skip(1)[i] == t[i + 1]);
            }
            assert(t.skip(1)[0] == t[1]);
        }
        lemma_norm_id(t.skip(1));
        assert(norm(t.skip(1)).len() == t.len() - 1);
        assert(norm_tail(t) =~= t);
    }
}

/// Normalizing is idempotent: a second pass over an already normalized
/// text changes nothing.
pub proof fn lemma_normalize_idempotent(s: Seq<char>)
    ensures
        norm(norm(s)) == norm(s),
{
    lemma_norm_canonical(s);
    lemma_norm_id(norm(s));
}

/// Executable case folding; agrees with `fold_char`.
pub fn fold_char_x(c: char) -> (r: char)
    ensures
        r == fold_char(c),
{
    match c {
        'A' => 'a',
        'B' => 'b',
        'C' => 'c',
        'D' => 'd',
        'E' => 'e',
        'F' => 'f',
        'G' => 'g',
        'H' => 'h',
        'I' => 'i',
        'J' => 'j',
        'K' => 'k',
        'L' => 'l',
        'M' => 'm',
        'N' => 'n',
        'O' => 'o',
        'P' => 'p',
        'Q' => 'q',
        'R' => 'r',
        'S' => 's',
        'T' => 't',
        'U' => 'u',
        'V' => 'v',
        'W' => 'w',
        'X' => 'x',
        'Y' => 'y',
        'Z' => 'z',
        _ => c,
    }
}

/// Executable keep test; agrees with `keep_char`.
pub fn keep_char_x(c: char) -> (r: bool)
    ensures
        r == keep_char(c),
{
    match c {
        'a' | 'b' | 'c' | 'd' | 'e' | 'f' | 'g' | 'h' | 'i' | 'j' | 'k' | 'l' | 'm' | 'n' | 'o'
            | 'p' | 'q' | 'r' | 's' | 't' | 'u' | 'v' | 'w' | 'x' | 'y' | 'z' | '0' | '1' | '2'
            | '3' | '4' | '5' | '6' | '7' | '8' | '9' => true,
        _ => false,
    }
}

/// Normalizes a text given as characters.
pub fn normalize_chars(v: &Vec<char>) -> (r: Vec<char>)
    ensures
        r@ == norm(v@),
{
    let mut out: Vec<char> = Vec::new();
    let mut in_token: bool = false;
    let mut i: usize = 0;
    proof {
        assert(v@.skip(0) =~= v@);
    }
    while i < v.len()
        invariant
            0 <= i <= v.len(),
            in_token ==> out@.len() > 0,
            in_token ==> norm(v@) == out@ + norm_tail(v@.skip(i as int)),
            !in_token && out@.len() == 0 ==> norm(v@) == norm(v@.skip(i as int)),
            !in_token && out@.len() > 0 ==> norm(v@) == out@ + space_join(norm(v@.skip(i as int))),
        decreases v.len() - i,
    {
        let ghost rest = v@.skip(i as int);
        proof {
            assert(rest.skip(1) =~= v@.skip(i + 1));
            assert(rest[0] == v@[i as int]);
        }
        let d = fold_char_x(v[i]);
        if keep_char_x(d) {
            if !in_token && out.len() > 0 {
                out.push(' ');
            }
            out.push(d);
            in_token = true;
        } else {
            in_token = false;
        }
        i = i + 1;
    }
    proof {
        assert(v@.skip(i as int) =~= Seq::<char>::empty());
        assert(norm(v@.skip(i as int)) =~= Seq::<char>::empty());
        assert(norm_tail(v@.skip(i as int)) =~= Seq::<char>::empty());
        assert(out@ + Seq::<char>::empty() =~= out@);
    }
    out
}

/// Normalizes a text given as a string slice.
pub fn normalize(s: &str) -> (r: Vec<char>)
    ensures
        r@ == norm(s@),
{
    let n = s.unicode_len();
    let mut cs: Vec<char> = Vec::new();
    let mut i: usize = 0;
    while i < n
        invariant
            0 <= i <= n,
            n == s@.len(),
            cs@ == s@.take(i as int),
        decreases n - i,
    {
        let c = s.get_char(i);
        cs.push(c);
        proof {
            assert(cs@ =~= s@.take(i + 1));
        }
        i = i + 1;
    }
    proof {
        assert(cs@ =~= s@);
    }
    normalize_chars(&cs)
}

} // verus!
