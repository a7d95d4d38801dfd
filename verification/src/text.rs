//! Wrapping long lines of text.
use vstd::prelude::*;
use vstd::string::{StrSliceExecFns, StringExecFns};

verus! {

/// The characters at which a line may be broken.
pub open spec fn breakable(c: char) -> bool {
    c == ' ' || c == '\t' || c == '\r'
}

/// Where the wrapping stands: the position of the last break opportunity,
/// the position of the last line start, and the text so far.
pub struct WrapState {
    /// Position of the last whitespace (or line break) seen.
    pub last_whitespace: int,
    /// Position of the last line break.
    pub last_newline: int,
    /// The text with the line breaks made so far.
    pub text: Seq<char>,
}

/// One step of wrapping, at position `i` holding `c` in the text as given.
/// A line break resets the line. Past `length` characters on the line, a
/// whitespace character at `i` becomes a line break; otherwise, once the line
/// overshoots `length` by more than `tolerance`, the last whitespace becomes a
/// line break.
pub open spec fn wrap_step(st: WrapState, i: int, c: char, length: int, tolerance: int) -> WrapState {
    let overshoot = (i - st.last_newline) - length;
    if c == '\n' {
        WrapState { last_whitespace: i, last_newline: i, text: st.text }
    } else {
        let lw = if breakable(c) {
            i
        } else {
            st.last_whitespace
        };
        if i - st.last_newline > length {
            if lw == i {
                WrapState { last_whitespace: lw, last_newline: i, text: st.text.update(i, '\n') }
            } else if overshoot > tolerance {
                WrapState { last_whitespace: lw, last_newline: lw, text: st.text.update(lw, '\n') }
            } else {
                WrapState { last_whitespace: lw, last_newline: st.last_newline, text: st.text }
            }
        } else {
            WrapState { last_whitespace: lw, last_newline: st.last_newline, text: st.text }
        }
    }
}

/// The wrapping state after the first `k` characters of `orig`.
pub open spec fn wrap_upto(orig: Seq<char>, k: int, length: int, tolerance: int) -> WrapState
    decreases k,
{
    if k <= 0 {
        WrapState { last_whitespace: 0, last_newline: 0, text: orig }
    } else {
        wrap_step(wrap_upto(orig, k - 1, length, tolerance), k - 1, orig[k - 1], length, tolerance)
    }
}

/// The text wrapped at `length` with `tolerance`.
pub open spec fn wrapped(orig: Seq<char>, length: int, tolerance: int) -> Seq<char> {
    wrap_upto(orig, orig.len() as int, length, tolerance).text
}

/// Wrapping keeps the length of the text and only turns characters into
/// line breaks: whitespace, line breaks, and (when no whitespace has been
/// seen) the first character.
pub proof fn lemma_wrap_only_breaks(orig: Seq<char>, length: int, tolerance: int)
    ensures
        wrapped(orig, length, tolerance).len() == orig.len(),
        forall|m: int| 0 <= m < orig.len() ==> #[trigger] wrapped(orig, length, tolerance)[m] == orig[m] || (wrapped(
            orig,
            length,
            tolerance,
        )[m] == '\n' && (m == 0 || breakable(orig[m]) || orig[m] == '\n')),
{
    lemma_wrap_positions(orig, orig.len() as int, length, tolerance);
}

/// Position `m` of `orig` lies in a line longer than `length`: inside a run
/// of more than `length` characters without a line break.
pub open spec fn in_long_line(orig: Seq<char>, m: int, length: int) -> bool {
    exists|a: int, b: int|
        #![trigger orig[a], orig[b]]
        0 <= a <= m <= b < orig.len() && b - a + 1 > length && forall|j: int| a <= j <= b ==> orig[j] != '\n'
}

/// The position of the last line break among the first `k` characters, or
/// -1 when there is none.
spec fn last_break(orig: Seq<char>, k: int) -> int
    decreases k,
{
    if k <= 0 {
        -1
    } else if orig[k - 1] == '\n' {
        k - 1
    } else {
        last_break(orig, k - 1)
    }
}

proof fn lemma_last_break(orig: Seq<char>, k: int)
    requires
        0 <= k <= orig.len(),
    ensures
        -1 <= last_break(orig, k) < k,
        last_break(orig, k) >= 0 ==> orig[last_break(orig, k)] == '\n',
        forall|j: int| last_break(orig, k) < j < k ==> orig[j] != '\n',
    decreases k,
{
    if k > 0 {
        lemma_last_break(orig, k - 1);
    }
}

/// After `k` characters, the last line start and the last whitespace lie at
/// or after the last line break of the input, and every character changed
/// so far lies in a line of the input longer than `length`.
proof fn lemma_wrap_breaks(orig: Seq<char>, k: int, length: int, tolerance: int)
    requires
        0 <= k <= orig.len(),
    ensures
        wrap_upto(orig, k, length, tolerance).last_newline >= last_break(orig, k),
        wrap_upto(orig, k, length, tolerance).last_whitespace >= last_break(orig, k),
        forall|m: int|
            0 <= m < orig.len() && #[trigger] wrap_upto(orig, k, length, tolerance).text[m] != orig[m] ==> in_long_line(
                orig,
                m,
                length,
            ),
    decreases k,
{
    lemma_wrap_positions(orig, k, length, tolerance);
    if k > 0 {
        let i = k - 1;
        lemma_wrap_breaks(orig, i, length, tolerance);
        lemma_wrap_positions(orig, i, length, tolerance);
        lemma_last_break(orig, i);
        let st = wrap_upto(orig, i, length, tolerance);
        let nx = wrap_upto(orig, k, length, tolerance);
        let c = orig[i];
        let p = last_break(orig, i);
        if c != '\n' {
            assert(last_break(orig, k) == p);
            let a = if p >= 0 {
                p + 1
            } else {
                0
            };
            let lw = if breakable(c) {
                i
            } else {
                st.last_whitespace
            };
            if i - st.last_newline > length {
                // the line of the input through `i` runs from `a` to `i`
                assert(i - a + 1 > length);
                assert forall|j: int| a <= j <= i implies orig[j] != '\n' by {}
                assert forall|m: int|
                    0 <= m < orig.len() && #[trigger] nx.text[m] != orig[m] implies in_long_line(orig, m, length) by {
                    if st.text[m] != orig[m] {
                    } else {
                        assert(a <= m <= i) by {
                            if lw == i {
                                assert(m == i);
                            } else {
                                assert(m == lw);
                                if m == p {
                                    assert(orig[p] == '\n');
                                }
                            }
                        }
                        assert(orig[a] != '\n' && orig[i] != '\n');
                    }
                }
            }
        }
    }
}

/// Wrapping breaks only lines of the input that are longer than `length`: a
/// line break in the input starts a new line, and a character is changed
/// only inside a run of more than `length` characters without a line break.
/// So a text whose lines all fit comes back unchanged.
pub proof fn lemma_wrap_keeps_short_lines(orig: Seq<char>, length: int, tolerance: int)
    ensures
        forall|m: int|
            0 <= m < orig.len() && #[trigger] wrapped(orig, length, tolerance)[m] != orig[m] ==> in_long_line(
                orig,
                m,
                length,
            ),
        (forall|m: int| 0 <= m < orig.len() ==> !#[trigger] in_long_line(orig, m, length)) ==> wrapped(
            orig,
            length,
            tolerance,
        ) == orig,
{
    lemma_wrap_breaks(orig, orig.len() as int, length, tolerance);
    lemma_wrap_positions(orig, orig.len() as int, length, tolerance);
    if forall|m: int| 0 <= m < orig.len() ==> !#[trigger] in_long_line(orig, m, length) {
        assert(wrapped(orig, length, tolerance) =~= orig);
    }
}

/// Wrapping text into lines.
pub trait TextUtils {
    /// Whether the text can be wrapped at `length`.
    spec fn wrappable(&self, length: usize) -> bool;

    /// Length is the cutoff point. Tolerance specifies how many characters we
    /// can overshoot.
    fn wrap_text(&mut self, length: usize, tolerance: usize) -> &mut Self
        requires
            old(self).wrappable(length),
    ;
}

/// The wrapping positions stay within the text: both lie at or before the
/// position reached.
proof fn lemma_wrap_positions(orig: Seq<char>, k: int, length: int, tolerance: int)
    requires
        0 <= k <= orig.len(),
    ensures
        0 <= wrap_upto(orig, k, length, tolerance).last_newline <= wrap_upto(orig, k, length, tolerance).last_whitespace,
        k > 0 ==> wrap_upto(orig, k, length, tolerance).last_whitespace < k,
        k == 0 ==> wrap_upto(orig, k, length, tolerance).last_whitespace == 0,
        wrap_upto(orig, k, length, tolerance).text.len() == orig.len(),
        forall|m: int| 0 <= m < orig.len() ==> #[trigger] wrap_upto(orig, k, length, tolerance).text[m] == orig[m]
            || (wrap_upto(orig, k, length, tolerance).text[m] == '\n' && (m == 0 || breakable(orig[m])
            || orig[m] == '\n')),
        ({
            let lw = wrap_upto(orig, k, length, tolerance).last_whitespace;
            lw == 0 || breakable(orig[lw]) || orig[lw] == '\n'
        }),
    decreases k,
{
    if k > 0 {
        lemma_wrap_positions(orig, k - 1, length, tolerance);
    }
}

impl TextUtils for String {
    /// A text whose length fits `isize`, as the length of every string does.
    open spec fn wrappable(&self, length: usize) -> bool {
        self@.len() <= isize::MAX
    }

    /// Breaks the lines of a text, counting characters: see [`wrap_step`].
    fn wrap_text(&mut self, length: usize, tolerance: usize) -> (r: &mut Self)
        ensures
            r@ == wrapped(old(self)@, length as int, (#[verifier::truncate] (tolerance as isize)) as int),
            *final(self) == *final(r),
    {
        let ghost orig = self@;
        let n = self.as_str().unicode_len();
        let mut text: Vec<char> = Vec::new();
        let mut k: usize = 0;
        while k < n
            invariant
                n == orig.len(),
                self@ == orig,
                k <= n,
                text@ == orig.take(k as int),
            decreases n - k,
        {
            text.push(self.as_str().get_char(k));
            proof {
                assert(text@ =~= orig.take(k + 1));
            }
            k = k + 1;
        }
        proof {
            assert(text@ =~= orig);
        }
        let tol = #[verifier::truncate] (tolerance as isize);
        let mut last_whitespace: usize = 0;
        let mut last_newline: usize = 0;
        let mut i: usize = 0;
        while i < n
            invariant
                n == orig.len(),
                n <= isize::MAX,
                i <= n,
                text@.len() == n,
                self@ == orig,
                tol == #[verifier::truncate] (tolerance as isize),
                ({
                    let st = wrap_upto(orig, i as int, length as int, tol as int);
                    &&& st.last_whitespace == last_whitespace
                    &&& st.last_newline == last_newline
                    &&& st.text == text@
                }),
            decreases n - i,
        {
            proof {
                lemma_wrap_positions(orig, i as int, length as int, tol as int);
            }
            let c = self.as_str().get_char(i);
            if c == '\n' {
                last_newline = i;
                last_whitespace = i;
            } else {
                if c == ' ' || c == '\t' || c == '\r' {
                    last_whitespace = i;
                }
                if i - last_newline > length {
                    let overshoot = (i - last_newline) as isize - length as isize;
                    if last_whitespace == i {
                        text.set(i, '\n');
                        last_newline = i;
                    } else if overshoot > tol {
                        text.set(last_whitespace, '\n');
                        last_newline = last_whitespace;
                    }
                }
            }
            i = i + 1;
        }
        proof {
            lemma_wrap_positions(orig, n as int, length as int, tol as int);
            assert(orig.take(n as int) =~= orig);
        }
        let mut out = String::new();
        let mut j: usize = 0;
        while j < n
            invariant
                n == text@.len(),
                n == orig.len(),
                self@ == orig,
                j <= n,
                forall|m: int| 0 <= m < n ==> #[trigger] text@[m] == orig[m] || text@[m] == '\n',
                out@ == text@.take(j as int),
            decreases n - j,
        {
            proof {
                assert(text@.take(j + 1) =~= text@.take(j as int).push(text@[j as int]));
            }
            if text[j] == '\n' {
                proof {
                    reveal_strlit("\n");
                }
                out.append("\n");
            } else {
                out.append(self.as_str().substring_char(j, j + 1));
            }
            j = j + 1;
        }
        proof {
            assert(text@.take(n as int) =~= text@);
        }
        *self = out;
        self
    }
}

} // verus!
