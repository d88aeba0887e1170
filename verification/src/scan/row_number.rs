//! Reads that number the rows of a file: the column of row numbers comes from the
//! reader, behind the columns of the file.

use vstd::prelude::*;

verus! {

/// The name of the column of row numbers.
pub const ROW_NUMBER_COLUMN_NAME: &'static str = "__comet_delta_row_number";

/// The position of the column of row numbers: the last of the file's columns.
pub open spec fn row_number_position(columns: nat) -> int {
    if columns == 0 {
        0
    } else {
        columns - 1
    }
}

/// The positions without one.
pub open spec fn without(s: Seq<usize>, x: int) -> Seq<usize>
    decreases s.len(),
{
    if s.len() == 0 {
        Seq::empty()
    } else if s.last() == x {
        without(s.drop_last(), x)
    } else {
        without(s.drop_last(), x).push(s.last())
    }
}

/// The positions that are projected: all where none are given.
pub open spec fn projected(projection: Option<Vec<usize>>, columns: nat) -> Seq<usize> {
    match projection {
        Some(p) => p@,
        None => Seq::new(columns, |i: int| i as usize),
    }
}

/// The positions of the columns that are read from the file, in the order of the
/// projection: those that are projected but for the column of row numbers.
pub fn real_column_indices(projection: Option<Vec<usize>>, columns: usize) -> (r: Vec<usize>)
    ensures
        r@ == without(
            projected(projection, columns as nat),
            row_number_position(columns as nat),
        ),
{
    let ghost all = projected(projection, columns as nat);
    let indices: Vec<usize> = match projection {
        Some(p) => p,
        None => {
            let mut v: Vec<usize> = Vec::new();
            let mut i: usize = 0;
            while i < columns
                invariant
                    i <= columns,
                    v@.len() == i,
                    forall|j: int| 0 <= j < i ==> #[trigger] v@[j] == j,
                decreases columns - i,
            {
                v.push(i);
                i = i + 1;
            }
            assert(v@ =~= all);
            v
        },
    };
    let row_number: usize = if columns == 0 {
        0
    } else {
        columns - 1
    };
    let mut r: Vec<usize> = Vec::new();
    let mut i: usize = 0;
    assert(all.take(0) =~= Seq::<usize>::empty());
    while i < indices.len()
        invariant
            i <= indices@.len(),
            indices@ == all,
            row_number == row_number_position(columns as nat),
            r@ == without(all.take(i as int), row_number as int),
        decreases indices@.len() - i,
    {
        assert(all.take(i + 1).drop_last() =~= all.take(i as int));
        if indices[i] != row_number {
            r.push(indices[i]);
        }
        i = i + 1;
    }
    assert(all.take(all.len() as int) =~= all);
    r
}

/// The column of row numbers is never read from the file, and every other projected
/// column is.
pub proof fn only_row_numbers_are_left_out(s: Seq<usize>, x: int)
    ensures
        forall|i: usize| #[trigger] without(s, x).contains(i) <==> s.contains(i) && i != x,
    decreases s.len(),
{
    if s.len() > 0 {
        let t = s.drop_last();
        only_row_numbers_are_left_out(t, x);
        assert forall|i: usize| #[trigger] without(s, x).contains(i) <==> s.contains(i) && i
            != x by {
            let w = without(s, x);
            let v = without(t, x);
            if w.contains(i) {
                let k = choose|k: int| 0 <= k < w.len() && w[k] == i;
                if k < v.len() {
                    assert(v[k] == i);
                    assert(v.contains(i));
                    let j = choose|j: int| 0 <= j < t.len() && t[j] == i;
                    assert(s[j] == i);
                } else {
                    assert(s[s.len() - 1] == i);
                }
            }
            if s.contains(i) && i != x {
                let j = choose|j: int| 0 <= j < s.len() && s[j] == i;
                if j < t.len() {
                    assert(t[j] == i);
                    assert(v.contains(i));
                    let k = choose|k: int| 0 <= k < v.len() && v[k] == i;
                    assert(w[k] == i);
                } else {
                    assert(w[v.len() as int] == i);
                }
            }
        }
    }
}

/// The positions are in the order of the file, each once.
pub open spec fn in_file_order(read: Seq<usize>) -> bool {
    forall|i: int, j: int| 0 <= i < j < read.len() ==> read[i] < read[j]
}

/// Of the wanted columns the reader returns `read`: each once, and in the order of the
/// file.
pub open spec fn is_read(wanted: Seq<usize>, read: Seq<usize>) -> bool {
    &&& in_file_order(read)
    &&& forall|c: usize| #[trigger] read.contains(c) <==> wanted.contains(c)
}

/// Puts a position in its place, unless it is there.
fn place(read: &mut Vec<usize>, c: usize)
    requires
        in_file_order(old(read)@),
    ensures
        in_file_order(final(read)@),
        forall|x: usize| #[trigger]
            final(read)@.contains(x) <==> old(read)@.contains(x) || x == c,
{
    let ghost before = read@;
    let mut i: usize = 0;
    while i < read.len() && read[i] < c
        invariant
            i <= read@.len(),
            read@ == before,
            forall|j: int| 0 <= j < i ==> #[trigger] read@[j] < c,
        decreases read@.len() - i,
    {
        i = i + 1;
    }
    if i < read.len() && read[i] == c {
        assert(before[i as int] == c);
        return;
    }
    read.insert(i, c);
    proof {
        assert(read@ =~= before.insert(i as int, c));
        assert forall|x: usize| #[trigger] read@.contains(x) <==> before.contains(x) || x == c by {
            if before.contains(x) {
                let j = choose|j: int| 0 <= j < before.len() && before[j] == x;
                if j < i {
                    assert(read@[j] == x);
                } else {
                    assert(read@[j + 1] == x);
                }
            }
            if x == c {
                assert(read@[i as int] == x);
            }
            if read@.contains(x) {
                let j = choose|j: int| 0 <= j < read@.len() && read@[j] == x;
                if j < i {
                    assert(before[j] == x);
                } else if j > i {
                    assert(before[j - 1] == x);
                }
            }
        }
    }
}

/// Where each column of the output stands among the columns that the reader returns, with
/// the row numbers behind them: the projected columns in the order of the projection, then
/// the row numbers.
pub fn output_positions(wanted: &Vec<usize>) -> (r: Vec<usize>)
    ensures
        exists|read: Seq<usize>|
            {
                &&& #[trigger] is_read(wanted@, read)
                &&& r@.len() == wanted@.len() + 1
                &&& forall|i: int|
                    0 <= i < wanted@.len() ==> (#[trigger] r@[i]) < read.len() && read[r@[i] as int]
                        == wanted@[i]
                &&& r@[wanted@.len() as int] == read.len()
            },
{
    let mut read: Vec<usize> = Vec::new();
    let mut i: usize = 0;
    while i < wanted.len()
        invariant
            i <= wanted@.len(),
            in_file_order(read@),
            forall|c: usize| #[trigger] read@.contains(c) <==> wanted@.take(i as int).contains(c),
        decreases wanted@.len() - i,
    {
        let ghost before = read@;
        place(&mut read, wanted[i]);
        proof {
            let p = wanted@.take(i as int);
            let w = wanted@.take(i + 1);
            assert forall|c: usize| #[trigger] read@.contains(c) <==> w.contains(c) by {
                assert(before.contains(c) <==> p.contains(c));
                if p.contains(c) {
                    let j = choose|j: int| 0 <= j < p.len() && p[j] == c;
                    assert(w[j] == c);
                }
                if c == wanted@[i as int] {
                    assert(w[i as int] == c);
                }
                if w.contains(c) {
                    let j = choose|j: int| 0 <= j < w.len() && w[j] == c;
                    if j < i {
                        assert(p[j] == c);
                    }
                }
            }
        }
        i = i + 1;
    }
    assert(wanted@.take(wanted@.len() as int) =~= wanted@);
    let mut r: Vec<usize> = Vec::new();
    let mut k: usize = 0;
    while k < wanted.len()
        invariant
            k <= wanted@.len(),
            is_read(wanted@, read@),
            r@.len() == k,
            forall|j: int|
                0 <= j < k ==> (#[trigger] r@[j]) < read@.len() && read@[r@[j] as int] == wanted@[j],
        decreases wanted@.len() - k,
    {
        assert(wanted@.contains(wanted@[k as int]));
        r.push(position_of(&read, wanted[k]));
        k = k + 1;
    }
    r.push(read.len());
    assert(is_read(wanted@, read@));
    r
}

fn position_of(read: &Vec<usize>, c: usize) -> (at: usize)
    requires
        read@.contains(c),
    ensures
        at < read@.len(),
        read@[at as int] == c,
{
    let n: usize = read.len();
    let mut at: usize = 0;
    while read[at] != c
        invariant
            at < n == read@.len(),
            exists|j: int| at <= j < read@.len() && #[trigger] read@[j] == c,
        decreases read@.len() - at,
    {
        at = at + 1;
    }
    at
}

/// The columns that are read from the file are the projected ones, all of the file's where
/// none are given, without the last column of the file, and in their order.
pub proof fn the_last_column_is_not_read_from_the_file(
    projection: Option<Vec<usize>>,
    columns: nat,
    r: Seq<usize>,
)
    requires
        columns <= usize::MAX,
        r == without(projected(projection, columns), row_number_position(columns)),
    ensures
        columns > 0 ==> (projection matches Some(p) ==> r == p@.filter(
            |i: usize| i != columns - 1,
        )),
        columns > 0 && projection is None ==> r.len() == columns - 1 && forall|i: int|
            0 <= i < r.len() ==> #[trigger] r[i] == i,
        columns == 0 && projection is None ==> r.len() == 0,
{
    if columns > 0 {
        lemma_without_is_filter(projected(projection, columns), columns - 1);
        if projection is None {
            lemma_without_last(columns, columns - 1);
            assert(projected(projection, columns) =~= Seq::new(columns, |i: int| i as usize));
        }
    } else if projection is None {
        assert(projected(projection, columns).len() == 0);
    }
}

proof fn lemma_without_is_filter(s: Seq<usize>, x: int)
    ensures
        without(s, x) == s.filter(|i: usize| i != x),
    decreases s.len(),
{
    reveal(Seq::filter);
    if s.len() > 0 {
        lemma_without_is_filter(s.drop_last(), x);
    }
}

proof fn lemma_without_last(n: nat, x: int)
    requires
        n <= usize::MAX,
        x >= n - 1,
        x >= 0,
    ensures
        ({
            let s = Seq::new(n, |i: int| i as usize);
            let r = without(s, x);
            &&& r.len() == if x == n - 1 {
                n - 1
            } else {
                n as int
            }
            &&& forall|i: int| 0 <= i < r.len() ==> #[trigger] r[i] == i
        }),
    decreases n,
{
    let s = Seq::new(n, |i: int| i as usize);
    if n > 0 {
        let t = Seq::new((n - 1) as nat, |i: int| i as usize);
        assert(s.drop_last() =~= t);
        lemma_without_last((n - 1) as nat, x);
    }
}

/// Columns that come earlier in the file stand earlier among those that the reader returns, a
/// column that is projected twice stands at one place, and the row numbers stand behind all.
pub proof fn read_columns_stand_in_the_order_of_the_file(
    wanted: Seq<usize>,
    read: Seq<usize>,
    r: Seq<usize>,
    i: int,
    j: int,
)
    requires
        is_read(wanted, read),
        r.len() == wanted.len() + 1,
        forall|k: int|
            0 <= k < wanted.len() ==> (#[trigger] r[k]) < read.len() && read[r[k] as int]
                == wanted[k],
        r[wanted.len() as int] == read.len(),
        0 <= i < wanted.len(),
        0 <= j < wanted.len(),
    ensures
        wanted[i] < wanted[j] <==> r[i] < r[j],
        wanted[i] == wanted[j] <==> r[i] == r[j],
        r[i] < r.last(),
        forall|c: int| 0 <= c < read.len() ==> wanted.contains(#[trigger] read[c]),
        forall|a: int, b: int| 0 <= a < b < read.len() ==> read[a] < read[b],
{
    assert(read[r[i] as int] == wanted[i]);
    assert(read[r[j] as int] == wanted[j]);
    if r[i] < r[j] {
        assert(read[r[i] as int] < read[r[j] as int]);
    }
    if r[j] < r[i] {
        assert(read[r[j] as int] < read[r[i] as int]);
    }
    assert forall|c: int| 0 <= c < read.len() implies wanted.contains(#[trigger] read[c]) by {
        assert(read.contains(read[c]));
    }
}

} // verus!
