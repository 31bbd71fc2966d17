use vstd::prelude::*;
use crate::text::{chars_of, occurs_at, views_of};

verus! {

/// Returns the reference it is given.
pub fn identity<'a>(number: &'a i32) -> (r: &'a i32)
    ensures
        r == number,
{
    number
}

/// `Some(number)` when `number` is greater than `greater_than`, else `None`.
pub fn only_if_greater<'a, 'b>(number: &'a i32, greater_than: &'b i32) -> (r: Option<&'a i32>)
    ensures
        r == (if *number > *greater_than {
            Some(number)
        } else {
            None
        }),
{
    if number > greater_than {
        Some(number)
    } else {
        None
    }
}

/// `number` when it is greater than `greater_than`, else `otherwise`.
pub fn only_if_greater_hard<'a, 'b>(
    number: &'a i32,
    greater_than: &'b i32,
    otherwise: &'a i32,
) -> (r: &'a i32)
    ensures
        r == (if *number > *greater_than {
            number
        } else {
            otherwise
        }),
{
    if number > greater_than {
        number
    } else {
        otherwise
    }
}

/// Replaces the element at `loc` with `new`; does nothing when `loc` is past the end.
pub fn vector_set<'v, 'b>(vector: &'v mut Vec<&'b str>, loc: usize, new: &'b str)
    ensures
        final(vector)@ == if loc < old(vector).len() {
            old(vector)@.update(loc as int, new)
        } else {
            old(vector)@
        },
{
    if loc < vector.len() {
        vector.set(loc, new);
    }
}

/// The pieces of `t` that `split` gives, scanning from index `i` with the
/// current piece starting at `last`: a piece ends at each occurrence of `d` that
/// starts at or after `last`, and the scan resumes after the occurrence. A final
/// piece is kept only when it is not empty.
pub open spec fn pieces_from(t: Seq<char>, d: Seq<char>, last: int, i: int) -> Seq<Seq<char>>
    decreases t.len() - i,
{
    if i >= t.len() {
        if last < t.len() {
            seq![t.subrange(last, t.len() as int)]
        } else {
            Seq::empty()
        }
    } else if i >= last && d.is_prefix_of(t.skip(i)) {
        seq![t.subrange(last, i)] + pieces_from(t, d, i + d.len(), i + 1)
    } else {
        pieces_from(t, d, last, i + 1)
    }
}

/// Splits `text` at each occurrence of `delimiter`, scanning left to right; an
/// empty last piece is left out. The pieces borrow from `text` alone.
pub fn split<'a, 'b>(text: &'a str, delimiter: &'b str) -> (r: Vec<&'a str>)
    ensures
        views_of(r@) == pieces_from(text@, delimiter@, 0, 0),
{
    let tc = chars_of(text);
    let dc = chars_of(delimiter);
    let mut matches: Vec<&'a str> = Vec::new();
    let mut last_split: usize = 0;
    let mut i: usize = 0;
    while i < tc.len()
        invariant
            tc@ == text@,
            dc@ == delimiter@,
            i <= tc.len(),
            last_split <= i + dc.len(),
            i < last_split ==> last_split <= tc.len(),
            pieces_from(text@, delimiter@, 0, 0) == views_of(matches@) + pieces_from(
                text@,
                delimiter@,
                last_split as int,
                i as int,
            ),
        decreases tc.len() - i,
    {
        if i >= last_split && occurs_at(&tc, i, &dc) {
            let piece = text.substring_char(last_split, i);
            let ghost before = matches@;
            matches.push(piece);
            assert(views_of(matches@) =~= views_of(before) + seq![piece@]);
            last_split = i + dc.len();
        }
        i = i + 1;
    }
    if last_split < tc.len() {
        let piece = text.substring_char(last_split, tc.len());
        let ghost before = matches@;
        matches.push(piece);
        assert(views_of(matches@) =~= views_of(before) + seq![piece@]);
    } else {
        assert(views_of(matches@) + Seq::<Seq<char>>::empty() =~= views_of(matches@));
    }
    matches
}

} // verus!
