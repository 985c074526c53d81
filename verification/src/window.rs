//! The context windows of skip-gram training.
//!
//! Around each position of a line a window is opened whose radius is drawn
//! anew for that position. The word at the centre is paired with every other
//! word of the window, and each pair is one training example.

use vstd::prelude::*;
use rand::StdRng;
use crate::random::{gen_range, range_draw, seeded_generator, worker_seed};

verus! {

/// First position of the window of radius `radius` around `centre`.
pub open spec fn window_start(centre: int, radius: int) -> int {
    if radius >= centre {
        0
    } else {
        centre - radius
    }
}

/// Last position of the window of radius `radius` around `centre` in a line of
/// `len` words.
pub open spec fn window_end(len: int, centre: int, radius: int) -> int {
    if centre + radius >= len {
        len - 1
    } else {
        centre + radius
    }
}

/// The examples of one centre: the word at `centre` with each other word of
/// its window, from the left end of the window to the right.
pub open spec fn window_pairs(line: Seq<usize>, centre: int, radius: int) -> Seq<(usize, usize)>
    recommends
        0 <= centre < line.len(),
        0 <= radius,
{
    let start = window_start(centre, radius);
    let end = window_end(line.len() as int, centre, radius);
    Seq::new(
        (end - start) as nat,
        |k: int|
            (
                line[centre],
                if start + k < centre {
                    line[start + k]
                } else {
                    line[start + k + 1]
                },
            ),
    )
}

/// The examples of the first `upto` centres of a line, in the order in which
/// they are trained on.
pub open spec fn line_pairs(line: Seq<usize>, radii: Seq<usize>, upto: int) -> Seq<(usize, usize)>
    recommends
        0 <= upto <= line.len(),
        upto <= radii.len(),
    decreases upto,
{
    if upto <= 0 {
        Seq::empty()
    } else {
        line_pairs(line, radii, upto - 1) + window_pairs(line, upto - 1, radii[upto - 1] as int)
    }
}

/// The examples of a line depend on the radii of its own centres only.
pub proof fn lemma_line_pairs_prefix(
    line: Seq<usize>,
    radii: Seq<usize>,
    longer: Seq<usize>,
    upto: int,
)
    requires
        0 <= upto <= radii.len() <= longer.len(),
        forall|i: int| 0 <= i < upto ==> radii[i] == longer[i],
    ensures
        line_pairs(line, radii, upto) == line_pairs(line, longer, upto),
    decreases upto,
{
    if upto > 0 {
        lemma_line_pairs_prefix(line, radii, longer, upto - 1);
    }
}

/// Both words of an example are words of the line.
pub proof fn lemma_line_pairs_members(line: Seq<usize>, radii: Seq<usize>, upto: int, i: int)
    requires
        0 <= upto <= line.len(),
        upto <= radii.len(),
        0 <= i < line_pairs(line, radii, upto).len(),
    ensures
        line.contains(line_pairs(line, radii, upto)[i].0),
        line.contains(line_pairs(line, radii, upto)[i].1),
    decreases upto,
{
    let before = line_pairs(line, radii, upto - 1);
    if i < before.len() {
        lemma_line_pairs_members(line, radii, upto - 1, i);
    } else {
        let centre = upto - 1;
        let radius = radii[centre] as int;
        let start = window_start(centre, radius);
        let k = i - before.len();
        let pair = window_pairs(line, centre, radius)[k];
        assert(line[centre] == pair.0);
        if start + k < centre {
            assert(line[start + k] == pair.1);
        } else {
            assert(line[start + k + 1] == pair.1);
        }
    }
}

/// Appends the examples of one centre to `out`.
pub fn push_window_pairs(line: &Vec<usize>, centre: usize, radius: usize, out: &mut Vec<(usize, usize)>)
    requires
        centre < line@.len(),
    ensures
        final(out)@ == old(out)@ + window_pairs(line@, centre as int, radius as int),
{
    let len: usize = line.len();
    let start: usize = if radius >= centre {
        0
    } else {
        centre - radius
    };
    let end: usize = if radius >= len - centre {
        len - 1
    } else {
        centre + radius
    };
    let word: usize = line[centre];
    let ghost before = out@;
    let ghost pairs = window_pairs(line@, centre as int, radius as int);
    let mut at: usize = start;
    while at <= end
        invariant
            len == line@.len(),
            centre < len,
            start == window_start(centre as int, radius as int),
            end == window_end(len as int, centre as int, radius as int),
            start <= centre <= end < len,
            word == line@[centre as int],
            pairs == window_pairs(line@, centre as int, radius as int),
            start <= at <= end + 1,
            out@.len() == before.len() + (if at <= centre {
                at - start
            } else {
                at - start - 1
            }),
            forall|k: int| 0 <= k < before.len() ==> out@[k] == before[k],
            forall|k: int| before.len() <= k < out@.len() ==> out@[k] == pairs[k - before.len()],
        decreases end + 1 - at,
    {
        if at != centre {
            out.push((word, line[at]));
        }
        at = at + 1;
    }
    assert(out@ =~= before + pairs);
}

/// The examples of a line whose radii are given, one for each position.
pub fn skipgram_pairs(line: &Vec<usize>, radii: &Vec<usize>) -> (pairs: Vec<(usize, usize)>)
    requires
        radii@.len() == line@.len(),
    ensures
        pairs@ == line_pairs(line@, radii@, line@.len() as int),
{
    let mut pairs: Vec<(usize, usize)> = Vec::new();
    let mut centre: usize = 0;
    while centre < line.len()
        invariant
            radii@.len() == line@.len(),
            centre <= line@.len(),
            pairs@ == line_pairs(line@, radii@, centre as int),
        decreases line@.len() - centre,
    {
        push_window_pairs(line, centre, radii[centre], &mut pairs);
        centre = centre + 1;
    }
    pairs
}

/// The radii that a generator in the state `rng` gives for the first `count`
/// positions of a line, each drawn from 1 up to and including `win`, and the
/// state of the generator after the last draw.
pub open spec fn drawn_radii(rng: StdRng, count: nat, win: usize) -> (Seq<usize>, StdRng)
    decreases count,
{
    if count == 0 {
        (Seq::empty(), rng)
    } else {
        let (radius, next) = range_draw(rng, 1, (win + 1) as usize);
        let (rest, last) = drawn_radii(next, (count - 1) as nat, win);
        (seq![radius] + rest, last)
    }
}

/// Two workers that are seeded alike make the same examples of a line, and
/// their generators are in the same state afterwards: a run that is started
/// again with the same seed trains on the same examples in the same order.
pub proof fn lemma_same_seed_same_examples(
    line: Seq<usize>,
    win: usize,
    base_seed: usize,
    worker: usize,
    other_seed: usize,
    other_worker: usize,
)
    requires
        worker_seed(base_seed, worker) == worker_seed(other_seed, other_worker),
    ensures
        ({
            let one = drawn_radii(
                seeded_generator(seq![worker_seed(base_seed, worker)]),
                line.len(),
                win,
            );
            let other = drawn_radii(
                seeded_generator(seq![worker_seed(other_seed, other_worker)]),
                line.len(),
                win,
            );
            &&& line_pairs(line, one.0, line.len() as int) == line_pairs(
                line,
                other.0,
                line.len() as int,
            )
            &&& one.1 == other.1
        }),
{
}

/// The examples of a line, with a radius drawn for each position from 1 up to
/// and including `win`.
///
/// The radii follow from the state of the generator: the result is the list
/// of examples that `skipgram_pairs` gives for `drawn_radii`, and a generator
/// in the same state gives the same examples again.
pub fn skipgram(line: &Vec<usize>, rng: &mut StdRng, win: usize) -> (pairs: Vec<(usize, usize)>)
    requires
        1 <= win < usize::MAX,
    ensures
        pairs@ == line_pairs(
            line@,
            drawn_radii(*old(rng), line@.len(), win).0,
            line@.len() as int,
        ),
        *final(rng) == drawn_radii(*old(rng), line@.len(), win).1,
        drawn_radii(*old(rng), line@.len(), win).0.len() == line@.len(),
        forall|i: int|
            0 <= i < line@.len() ==> 1 <= #[trigger] drawn_radii(
                *old(rng),
                line@.len(),
                win,
            ).0[i] <= win,
{
    let mut pairs: Vec<(usize, usize)> = Vec::new();
    let ghost first = *rng;
    let ghost all = drawn_radii(first, line@.len(), win);
    let ghost mut radii: Seq<usize> = Seq::empty();
    let mut centre: usize = 0;
    let len: usize = line.len();
    assert(radii + drawn_radii(*rng, line@.len(), win).0 =~= all.0);
    while centre < len
        invariant
            1 <= win < usize::MAX,
            len == line@.len(),
            centre <= len,
            all == drawn_radii(first, line@.len(), win),
            radii.len() == centre,
            forall|i: int| 0 <= i < radii.len() ==> 1 <= #[trigger] radii[i] <= win,
            pairs@ == line_pairs(line@, radii, centre as int),
            all.0 == radii + drawn_radii(*rng, (len - centre) as nat, win).0,
            all.1 == drawn_radii(*rng, (len - centre) as nat, win).1,
        decreases len - centre,
    {
        let ghost before = *rng;
        let radius = gen_range(rng, 1, win + 1);
        proof {
            let rest = drawn_radii(*rng, (len - centre - 1) as nat, win);
            assert(drawn_radii(before, (len - centre) as nat, win) == (seq![radius] + rest.0, rest.1));
            assert(radii + (seq![radius] + rest.0) =~= radii.push(radius) + rest.0);
            lemma_line_pairs_prefix(line@, radii, radii.push(radius), centre as int);
            radii = radii.push(radius);
        }
        push_window_pairs(line, centre, radius, &mut pairs);
        centre = centre + 1;
    }
    proof {
        assert(radii + Seq::<usize>::empty() =~= radii);
    }
    pairs
}

} // verus!
