//! Splitting text into the runs of characters between white space.

use vstd::prelude::*;

verus! {

/// Whether `c` is white space: what `char::is_whitespace` answers for it.
pub uninterp spec fn white_space(c: char) -> bool;

/// `char::is_whitespace` tells whether a character is white space as Unicode
/// defines it (`White_Space`). Its answer depends on the character alone, and
/// is named [`white_space`] here; nothing more is claimed of it.
pub assume_specification[ char::is_whitespace ](c: char) -> (b: bool)
    ensures
        b == white_space(c),
;

/// `String::push` appends the given character to the end of the string.
pub assume_specification[ String::push ](s: &mut String, c: char)
    ensures
        final(s)@ == old(s)@.push(c),
;

/// The views of the vectors in `outer`, in order.
pub open spec fn views<T>(outer: Seq<Vec<T>>) -> Seq<Seq<T>> {
    Seq::new(outer.len(), |i: int| outer[i]@)
}

/// The number of marks at the start of `gaps` that are not set.
pub open spec fn run_len(gaps: Seq<bool>) -> nat
    decreases gaps.len(),
{
    if gaps.len() == 0 || gaps[0] {
        0
    } else {
        1 + run_len(gaps.drop_first())
    }
}

/// A run is no longer than the marks it starts.
pub proof fn lemma_run_len_bound(gaps: Seq<bool>)
    ensures
        run_len(gaps) <= gaps.len(),
    decreases gaps.len(),
{
    if gaps.len() != 0 && !gaps[0] {
        lemma_run_len_bound(gaps.drop_first());
    }
}

/// Where the first `k` marks are not set, and the marks end there or go on
/// with one that is set, the first run has length `k`.
pub proof fn lemma_run_len_is(gaps: Seq<bool>, k: int)
    requires
        0 <= k <= gaps.len(),
        forall|j: int| 0 <= j < k ==> !gaps[j],
        k == gaps.len() || gaps[k],
    ensures
        run_len(gaps) == k,
    decreases k,
{
    if k > 0 {
        lemma_run_len_is(gaps.drop_first(), k - 1);
    }
}

/// The runs of `chars` between gaps, in order: `gaps` marks the characters
/// that are gaps, and a run is a longest stretch of characters without one.
pub open spec fn runs(chars: Seq<char>, gaps: Seq<bool>) -> Seq<Seq<char>>
    decreases gaps.len(),
{
    if gaps.len() == 0 {
        Seq::empty()
    } else if gaps[0] {
        runs(chars.drop_first(), gaps.drop_first())
    } else {
        proof {
            lemma_run_len_bound(gaps);
        }
        let n = run_len(gaps) as int;
        seq![chars.take(n)] + runs(chars.skip(n), gaps.skip(n))
    }
}

/// The tokens of `s`: its runs of characters between white space, in the
/// order in which they stand in `s`.
pub open spec fn tokens(s: Seq<char>) -> Seq<Seq<char>> {
    runs(s, Seq::new(s.len(), |i: int| white_space(s[i])))
}

/// Splits `chars` into its runs between gaps, where `gaps` marks, with one
/// mark for each character, those that are gaps.
pub fn split_runs(chars: &Vec<char>, gaps: &Vec<bool>) -> (rows: Vec<Vec<char>>)
    requires
        chars@.len() == gaps@.len(),
    ensures
        views(rows@) == runs(chars@, gaps@),
{
    let ghost s = chars@;
    let ghost g = gaps@;
    let mut rows: Vec<Vec<char>> = Vec::new();
    let mut i: usize = 0;
    assert(s.skip(0) =~= s);
    assert(g.skip(0) =~= g);
    while i < chars.len()
        invariant
            s == chars@,
            g == gaps@,
            s.len() == g.len(),
            i <= s.len(),
            views(rows@) + runs(s.skip(i as int), g.skip(i as int)) == runs(s, g),
        decreases s.len() - i,
    {
        let ghost rest = s.skip(i as int);
        let ghost marks = g.skip(i as int);
        if gaps[i] {
            assert(rest.drop_first() =~= s.skip(i as int + 1));
            assert(marks.drop_first() =~= g.skip(i as int + 1));
            i += 1;
        } else {
            let start = i;
            let mut row: Vec<char> = Vec::new();
            while i < chars.len() && !gaps[i]
                invariant
                    s == chars@,
                    g == gaps@,
                    s.len() == g.len(),
                    start <= i <= s.len(),
                    row@ == s.subrange(start as int, i as int),
                    forall|j: int| start <= j < i ==> !g[j],
                decreases s.len() - i,
            {
                row.push(chars[i]);
                i += 1;
            }
            proof {
                let k = i - start;
                lemma_run_len_is(marks, k);
                assert(rest.take(k) =~= row@);
                assert(rest.skip(k) =~= s.skip(i as int));
                assert(marks.skip(k) =~= g.skip(i as int));
                assert(views(rows@) + (seq![row@] + runs(s.skip(i as int), g.skip(i as int)))
                    =~= views(rows@.push(row)) + runs(s.skip(i as int), g.skip(i as int)));
            }
            rows.push(row);
        }
    }
    rows
}

/// Splits `text` at white space into its tokens.
pub fn split_tokens(text: &str) -> (rows: Vec<Vec<char>>)
    ensures
        views(rows@) == tokens(text@),
{
    let mut chars: Vec<char> = Vec::new();
    let mut gaps: Vec<bool> = Vec::new();
    for c in it: text.chars()
        invariant
            it.seq() == text@,
            chars@ == it.seq().take(it.index()),
            gaps@ == Seq::new(chars@.len(), |i: int| white_space(chars@[i])),
    {
        chars.push(c);
        gaps.push(c.is_whitespace());
    }
    assert(chars@ =~= text@);
    split_runs(&chars, &gaps)
}

} // verus!
