//! The four directions in which a stripped band can be reattached.

use vstd::prelude::*;

verus! {

/// A direction in which a grid problem was stripped, and hence in which
/// a path must later be extended by a two-wide band.
#[derive(Clone, Copy, PartialEq, Eq, Structural, Debug)]
pub enum GridExtension {
    Right,
    Up,
    Left,
    Down,
}

/// How many entries of `s` equal the direction `d`.
pub open spec fn count_dir(s: Seq<GridExtension>, d: GridExtension) -> int
    decreases s.len(),
{
    if s.len() == 0 {
        0
    } else {
        count_dir(s.drop_last(), d) + if s.last() == d {
            1int
        } else {
            0int
        }
    }
}

/// The total growth a direction sequence causes along the x axis.
pub open spec fn count_h(s: Seq<GridExtension>) -> int {
    count_dir(s, GridExtension::Right) + count_dir(s, GridExtension::Left)
}

/// The total growth a direction sequence causes along the y axis.
pub open spec fn count_v(s: Seq<GridExtension>) -> int {
    count_dir(s, GridExtension::Up) + count_dir(s, GridExtension::Down)
}

pub proof fn lemma_count_dir_nonneg(s: Seq<GridExtension>, d: GridExtension)
    ensures
        0 <= count_dir(s, d),
    decreases s.len(),
{
    if s.len() > 0 {
        lemma_count_dir_nonneg(s.drop_last(), d);
    }
}

pub proof fn lemma_count_dir_le_len(s: Seq<GridExtension>, d: GridExtension)
    ensures
        count_dir(s, d) <= s.len(),
    decreases s.len(),
{
    if s.len() > 0 {
        lemma_count_dir_le_len(s.drop_last(), d);
    }
}

pub proof fn lemma_count_dir_push(s: Seq<GridExtension>, d: GridExtension, x: GridExtension)
    ensures
        count_dir(s.push(x), d) == count_dir(s, d) + if x == d {
            1int
        } else {
            0int
        },
{
    assert(s.push(x).drop_last() =~= s);
    assert(s.push(x).last() == x);
}

pub proof fn lemma_count_dir_take_succ(s: Seq<GridExtension>, d: GridExtension, i: int)
    requires
        0 <= i < s.len(),
    ensures
        count_dir(s.take(i + 1), d) == count_dir(s.take(i), d) + if s[i] == d {
            1int
        } else {
            0int
        },
{
    assert(s.take(i + 1).drop_last() =~= s.take(i));
    assert(s.take(i + 1).last() == s[i]);
}

pub proof fn lemma_count_dir_take_all(s: Seq<GridExtension>, d: GridExtension)
    ensures
        count_dir(s.take(s.len() as int), d) == count_dir(s, d),
{
    assert(s.take(s.len() as int) =~= s);
}

pub proof fn lemma_count_dir_skip_first(s: Seq<GridExtension>, d: GridExtension)
    requires
        s.len() >= 1,
    ensures
        count_dir(s, d) == count_dir(s.skip(1), d) + if s[0] == d {
            1int
        } else {
            0int
        },
    decreases s.len(),
{
    if s.len() == 1 {
        assert(s.skip(1).len() == 0);
        assert(count_dir(s.skip(1), d) == 0);
        assert(s.drop_last().len() == 0);
        assert(count_dir(s.drop_last(), d) == 0);
        assert(s.last() == s[0]);
    } else {
        let s1 = s.drop_last();
        lemma_count_dir_skip_first(s1, d);
        assert(s1[0] == s[0]);
        assert(s.skip(1).drop_last() =~= s1.skip(1));
        assert(s.skip(1).last() == s.last());
        assert(count_dir(s.skip(1), d) == count_dir(s.skip(1).drop_last(), d) + if s.skip(
            1,
        ).last() == d {
            1int
        } else {
            0int
        });
        assert(count_dir(s, d) == count_dir(s1, d) + if s.last() == d {
            1int
        } else {
            0int
        });
    }
}

/// Reversing a direction sequence keeps the count of each direction.
pub proof fn lemma_count_dir_reverse(s: Seq<GridExtension>, r: Seq<GridExtension>, d: GridExtension)
    requires
        r.len() == s.len(),
        forall|j: int| 0 <= j < r.len() ==> #[trigger] r[j] == s[s.len() - 1 - j],
    ensures
        count_dir(r, d) == count_dir(s, d),
    decreases s.len(),
{
    if s.len() > 0 {
        lemma_count_dir_skip_first(s, d);
        assert(r.last() == s[0]);
        assert forall|j: int| 0 <= j < r.drop_last().len() implies #[trigger] r.drop_last()[j]
            == s.skip(1)[s.skip(1).len() - 1 - j] by {
            assert(r.drop_last()[j] == r[j]);
            assert(s.skip(1)[s.skip(1).len() - 1 - j] == s[s.len() - 1 - j]);
        }
        lemma_count_dir_reverse(s.skip(1), r.drop_last(), d);
    }
}

pub proof fn lemma_count_dir_take_le(s: Seq<GridExtension>, d: GridExtension, i: int)
    requires
        0 <= i <= s.len(),
    ensures
        count_dir(s.take(i), d) <= count_dir(s, d),
    decreases s.len() - i,
{
    if i < s.len() {
        lemma_count_dir_take_succ(s, d, i);
        lemma_count_dir_take_le(s, d, i + 1);
    } else {
        lemma_count_dir_take_all(s, d);
    }
}

} // verus!
