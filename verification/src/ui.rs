//! The message-pane layout policy: how many lines a message wraps to,
//! and which history entries are visible for a given scroll offset and
//! viewport height. Painting itself stays outside the library.
use vstd::prelude::*;

verus! {

/// The number of lines a message of `len` characters takes at pane width
/// `width`: its length divided by the width, rounded up.
pub open spec fn spec_wrapped_lines(len: nat, width: nat) -> nat
    recommends
        width > 0,
{
    if len % width == 0 {
        len / width
    } else {
        len / width + 1
    }
}

/// How many lines a message of `len` characters wraps to at pane width
/// `width`.
pub fn wrapped_line_count(len: usize, width: usize) -> (r: usize)
    requires
        width > 0,
    ensures
        r == spec_wrapped_lines(len as nat, width as nat),
{
    if len % width == 0 {
        len / width
    } else {
        proof {
            vstd::arithmetic::div_mod::lemma_fundamental_div_mod(len as int, width as int);
            vstd::arithmetic::div_mod::lemma_div_nonincreasing(len as int, width as int);
            vstd::arithmetic::div_mod::lemma_div_pos_is_pos(len as int, width as int);
            assert(len as int % width as int >= 1);
            assert(width as int * (len as int / width as int) <= len - 1);
            if len as int / width as int > 0 {
                vstd::arithmetic::mul::lemma_mul_increases(
                    width as int,
                    len as int / width as int,
                );
            }
            assert(len as int / width as int <= len - 1);
        }
        len / width + 1
    }
}

/// The history indices drawn bottom-up from index `i` with `rows_left`
/// rows of the viewport remaining, newest first; drawing stops when the
/// top of the pane is reached or the history runs out.
pub open spec fn spec_visible_from(lens: Seq<usize>, width: nat, rows_left: int, i: int) -> Seq<
    int,
>
    decreases i + 1,
{
    if i < 0 || i >= lens.len() || rows_left <= 0 {
        Seq::empty()
    } else {
        seq![i] + spec_visible_from(
            lens,
            width,
            rows_left - spec_wrapped_lines(lens[i] as nat, width) as int,
            i - 1,
        )
    }
}

/// The number of newest history entries the scroll offset hides.
pub open spec fn spec_hidden(len: nat, offset: u32) -> nat {
    if offset as nat > len {
        len
    } else {
        offset as nat
    }
}

/// The history indices visible in a pane of the given width and height,
/// newest first: the scroll offset hides that many of the newest
/// entries, and older entries are laid out upward until the pane is
/// full. `lens` gives each entry's rendered length in characters.
pub fn visible_messages(lens: &Vec<usize>, width: usize, height: usize, offset: u32) -> (r: Vec<
    usize,
>)
    requires
        width > 0,
    ensures
        r@.map_values(|x: usize| x as int) == spec_visible_from(
            lens@,
            width as nat,
            height as int,
            lens@.len() - spec_hidden(lens@.len(), offset) - 1,
        ),
{
    let mut out: Vec<usize> = Vec::new();
    let n = lens.len();
    let hidden: usize = if offset as usize > n {
        n
    } else {
        offset as usize
    };
    proof {
        assert(hidden == spec_hidden(lens@.len(), offset));
    }
    let mut rows: usize = height;
    let mut i: usize = n - hidden;
    let ghost start = lens@.len() - spec_hidden(lens@.len(), offset) - 1;
    proof {
        assert(i - 1 == start);
        assert(out@.map_values(|x: usize| x as int) + spec_visible_from(
            lens@,
            width as nat,
            height as int,
            start,
        ) =~= spec_visible_from(lens@, width as nat, height as int, start));
    }
    while i > 0 && rows > 0
        invariant
            width > 0,
            0 <= i <= lens@.len(),
            rows <= height,
            spec_visible_from(lens@, width as nat, height as int, start) == out@.map_values(
                |x: usize| x as int,
            ) + spec_visible_from(lens@, width as nat, rows as int, i - 1),
        decreases i,
    {
        let idx = i - 1;
        let lines = wrapped_line_count(lens[idx], width);
        let ghost out0 = out@;
        out.push(idx);
        proof {
            assert(out@.map_values(|x: usize| x as int) =~= out0.map_values(|x: usize| x as int)
                + seq![idx as int]);
        }
        let ghost rows_old = rows as int;
        if lines >= rows {
            rows = 0;
        } else {
            rows = rows - lines;
        }
        proof {
            assert(spec_visible_from(lens@, width as nat, rows_old, idx as int) == seq![
                idx as int,
            ] + spec_visible_from(lens@, width as nat, rows_old - lines, idx - 1));
            assert(spec_visible_from(lens@, width as nat, rows_old - lines, idx - 1)
                == spec_visible_from(lens@, width as nat, rows as int, idx - 1));
            assert(out0.map_values(|x: usize| x as int) + (seq![idx as int] + spec_visible_from(
                lens@,
                width as nat,
                rows as int,
                idx - 1,
            )) =~= (out0.map_values(|x: usize| x as int) + seq![idx as int]) + spec_visible_from(
                lens@,
                width as nat,
                rows as int,
                idx - 1,
            ));
        }
        i = idx;
    }
    proof {
        assert(spec_visible_from(lens@, width as nat, rows as int, i - 1) =~= Seq::<int>::empty());
        assert(out@.map_values(|x: usize| x as int) + Seq::<int>::empty() =~= out@.map_values(
            |x: usize| x as int,
        ));
    }
    out
}

} // verus!
