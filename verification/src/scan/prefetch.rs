//! Read-ahead for a scan: its configuration, the byte ranges a file's read-ahead
//! covers, and the order in which files are taken.

use std::ops::Range;

use vstd::prelude::*;

use crate::options::{flag, number, OptionsMap};
use crate::text::str_eq;

verus! {

/// Whether read-ahead is on.
pub const COMET_PREFETCH_ENABLED: &'static str = "spark.comet.scan.dataCache.prefetch.enabled";

/// How many bytes a scan may read ahead of its demand reads.
pub const COMET_PREFETCH_AHEAD_BUDGET: &'static str =
    "spark.comet.scan.dataCache.prefetch.aheadBudget";

/// How many read-ahead requests a scan may have open at once.
pub const COMET_PREFETCH_MAX_CONCURRENT_REQUESTS: &'static str =
    "spark.comet.scan.dataCache.prefetch.maxConcurrentRequests";

/// Whether read-ahead skips row groups that the scan's filters rule out.
pub const COMET_PREFETCH_FILTER_AWARE: &'static str =
    "spark.comet.scan.dataCache.prefetch.filterAware";

/// Default read-ahead budget: 32 MiB.
pub const DEFAULT_AHEAD_BUDGET: u64 = 33554432;

/// Default number of open read-ahead requests.
pub const DEFAULT_MAX_CONCURRENT_REQUESTS: usize = 3;

/// How many bytes at the end of a Parquet file are read for its footer: 512 KiB.
pub const FOOTER_SIZE_HINT: u64 = 524288;

/// After this many files whose read-ahead was skipped, a scan's read-ahead stops.
pub const MAX_FILES_SKIPPED: u32 = 3;

/// Read-ahead settings of a scan.
#[derive(Clone, Copy, Debug)]
pub struct PrefetchConfig {
    pub enabled: bool,
    pub ahead_budget: u64,
    pub max_concurrent_requests: usize,
    pub filter_aware: bool,
}

impl Default for PrefetchConfig {
    /// The disabled placeholder.
    fn default() -> (c: PrefetchConfig)
        ensures
            c == (PrefetchConfig {
                enabled: false,
                ahead_budget: 0,
                max_concurrent_requests: 0,
                filter_aware: false,
            }),
    {
        PrefetchConfig {
            enabled: false,
            ahead_budget: 0,
            max_concurrent_requests: 0,
            filter_aware: false,
        }
    }
}

impl PrefetchConfig {
    /// The settings in a Spark configuration. Read-ahead is off unless enabled,
    /// filter-aware unless that is switched off, and always has room for one
    /// request.
    pub fn from_spark(cfg: &OptionsMap) -> (c: PrefetchConfig)
        ensures
            c.enabled == flag(cfg@, COMET_PREFETCH_ENABLED@),
            c.ahead_budget == number(
                cfg@,
                COMET_PREFETCH_AHEAD_BUDGET@,
                DEFAULT_AHEAD_BUDGET as int,
                u64::MAX as int,
            ),
            ({
                let n = number(
                    cfg@,
                    COMET_PREFETCH_MAX_CONCURRENT_REQUESTS@,
                    DEFAULT_MAX_CONCURRENT_REQUESTS as int,
                    usize::MAX as int,
                );
                c.max_concurrent_requests == if n == 0 {
                    1
                } else {
                    n
                }
            }),
            c.filter_aware == !(cfg@.contains_key(COMET_PREFETCH_FILTER_AWARE@)
                && cfg@[COMET_PREFETCH_FILTER_AWARE@] == "false"@),
    {
        let requests: usize = cfg.get_usize(
            COMET_PREFETCH_MAX_CONCURRENT_REQUESTS,
            DEFAULT_MAX_CONCURRENT_REQUESTS,
        );
        let filter_aware: bool = match cfg.get(COMET_PREFETCH_FILTER_AWARE) {
            Some(v) => !str_eq(v.as_str(), "false"),
            None => true,
        };
        PrefetchConfig {
            enabled: cfg.get_bool(COMET_PREFETCH_ENABLED),
            ahead_budget: cfg.get_u64(COMET_PREFETCH_AHEAD_BUDGET, DEFAULT_AHEAD_BUDGET),
            max_concurrent_requests: if requests == 0 {
                1
            } else {
                requests
            },
            filter_aware,
        }
    }
}

/// A file to read ahead.
#[derive(Clone, Debug)]
pub struct PrefetchFile {
    /// The path in the store.
    pub path: String,
    /// The size in bytes.
    pub size: u64,
    /// The part that the scan reads; the whole file where there is none.
    pub range: Option<Range<u64>>,
}

/// What decides which ranges of a file are read ahead.
#[derive(Clone, Debug)]
pub enum PrefetchKind {
    /// A Parquet file: the column chunks of the projected columns.
    Parquet {
        /// The positions of the projected top-level columns.
        projection: Vec<usize>,
        /// Whether the file is encrypted.
        encryption: bool,
    },
    /// A CSV file: the part that the scan reads.
    Csv,
}

/// What to do for a file.
pub enum RangeStep {
    /// Read these ranges ahead.
    Ranges(Vec<Range<u64>>),
    /// Read the file's metadata first.
    ReadMetadata,
}

/// The range, unless it is empty.
pub open spec fn unless_empty(start: u64, end: u64) -> Seq<Range<u64>> {
    if start < end {
        seq![Range { start, end }]
    } else {
        Seq::empty()
    }
}

/// Where the footer of a file starts, as far as it is read.
pub open spec fn footer_start(size: u64) -> u64 {
    if size < FOOTER_SIZE_HINT {
        0
    } else {
        (size - FOOTER_SIZE_HINT) as u64
    }
}

fn one_range(start: u64, end: u64) -> (v: Vec<Range<u64>>)
    ensures
        v@ == unless_empty(start, end),
{
    let mut v: Vec<Range<u64>> = Vec::new();
    if start < end {
        v.push(start..end);
    }
    assert(v@ =~= unless_empty(start, end));
    v
}

/// The range of the footer of a Parquet file: its last bytes.
pub fn footer_range(size: u64) -> (r: Range<u64>)
    ensures
        r.start == footer_start(size),
        r.end == size,
{
    let hint: u64 = if size < FOOTER_SIZE_HINT {
        size
    } else {
        FOOTER_SIZE_HINT
    };
    (size - hint)..size
}

/// The first step for a file. A CSV file is read ahead as far as the scan reads it.
/// Of an encrypted Parquet file only the footer is: what it says of the columns
/// cannot be read.
pub fn first_step(kind: &PrefetchKind, file: &PrefetchFile) -> (s: RangeStep)
    ensures
        match *kind {
            PrefetchKind::Csv => s matches RangeStep::Ranges(v) && v@ == match file.range {
                Some(r) => unless_empty(r.start, r.end),
                None => unless_empty(0, file.size),
            },
            PrefetchKind::Parquet { encryption, .. } => if encryption {
                s matches RangeStep::Ranges(v) && v@ == unless_empty(
                    footer_start(file.size),
                    file.size,
                )
            } else {
                s is ReadMetadata
            },
        },
{
    match kind {
        PrefetchKind::Csv => match &file.range {
            Some(r) => RangeStep::Ranges(one_range(r.start, r.end)),
            None => RangeStep::Ranges(one_range(0, file.size)),
        },
        PrefetchKind::Parquet { encryption, .. } => if *encryption {
            let footer: Range<u64> = footer_range(file.size);
            RangeStep::Ranges(one_range(footer.start, footer.end))
        } else {
            RangeStep::ReadMetadata
        },
    }
}

/// A row group belongs to a split where its first page starts in it. Without a split
/// every row group is read.
pub open spec fn starts_in_split(first_page: i64, split: Option<Range<u64>>) -> bool {
    match split {
        None => true,
        Some(r) => r.start as i64 <= first_page < r.end as i64,
    }
}

/// The row groups of a split, in file order.
pub open spec fn groups_of_split(first_pages: Seq<i64>, split: Option<Range<u64>>) -> Seq<usize>
    decreases first_pages.len(),
{
    if first_pages.len() == 0 {
        Seq::empty()
    } else {
        let before = groups_of_split(first_pages.drop_last(), split);
        if starts_in_split(first_pages.last(), split) {
            before.push((first_pages.len() - 1) as usize)
        } else {
            before
        }
    }
}

/// The row groups of a split, in file order: those whose first page, which is where
/// the first column's dictionary or else its data starts, lies in it.
pub fn split_groups(first_pages: &Vec<i64>, split: &Option<Range<u64>>) -> (groups: Vec<usize>)
    ensures
        groups@ == groups_of_split(first_pages@, *split),
{
    let mut groups: Vec<usize> = Vec::new();
    let n: usize = first_pages.len();
    let mut i: usize = 0;
    assert(first_pages@.take(0) =~= Seq::<i64>::empty());
    while i < n
        invariant
            i <= n == first_pages@.len(),
            groups@ == groups_of_split(first_pages@.take(i as int), *split),
        decreases n - i,
    {
        assert(first_pages@.take(i + 1).drop_last() =~= first_pages@.take(i as int));
        let first_page: i64 = first_pages[i];
        let inside: bool = match split {
            None => true,
            Some(r) => {
                let start: i64 = #[verifier::truncate]
                (r.start as i64);
                let end: i64 = #[verifier::truncate]
                (r.end as i64);
                start <= first_page && first_page < end
            },
        };
        if inside {
            groups.push(i);
        }
        i = i + 1;
    }
    assert(first_pages@.take(n as int) =~= first_pages@);
    groups
}

proof fn lemma_groups_of_split(first_pages: Seq<i64>, split: Option<Range<u64>>)
    requires
        first_pages.len() <= usize::MAX,
    ensures
        forall|g: usize| #[trigger]
            groups_of_split(first_pages, split).contains(g) <==> g < first_pages.len()
                && starts_in_split(first_pages[g as int], split),
    decreases first_pages.len(),
{
    if first_pages.len() > 0 {
        let shorter = first_pages.drop_last();
        let before = groups_of_split(shorter, split);
        let all = groups_of_split(first_pages, split);
        let last = (first_pages.len() - 1) as usize;
        lemma_groups_of_split(shorter, split);
        assert forall|g: usize| #[trigger] all.contains(g) <==> g < first_pages.len()
            && starts_in_split(first_pages[g as int], split) by {
            if starts_in_split(first_pages.last(), split) {
                assert(all == before.push(last));
                if all.contains(g) {
                    let i = choose|i: int| 0 <= i < all.len() && all[i] == g;
                    if i < before.len() {
                        assert(before[i] == g);
                        assert(before.contains(g));
                    }
                }
                if before.contains(g) {
                    let i = choose|i: int| 0 <= i < before.len() && before[i] == g;
                    assert(all[i] == g);
                }
                if g == last {
                    assert(all[before.len() as int] == g);
                }
            } else {
                assert(all == before);
            }
            if g < shorter.len() {
                assert(shorter[g as int] == first_pages[g as int]);
            }
        }
    }
}

/// Splits that share a file share out its row groups: where a split is cut in two, each
/// of its row groups belongs to exactly one part, and neither has any other.
pub proof fn splits_share_out_the_row_groups(
    first_pages: Seq<i64>,
    start: u64,
    middle: u64,
    end: u64,
)
    requires
        first_pages.len() <= usize::MAX,
        start <= middle <= end <= i64::MAX,
    ensures
        forall|g: usize|
            #![trigger groups_of_split(first_pages, Some(Range { start, end })).contains(g)]
            groups_of_split(first_pages, Some(Range { start, end })).contains(g) <==> (
            groups_of_split(first_pages, Some(Range { start, end: middle })).contains(g)
                != groups_of_split(first_pages, Some(Range { start: middle, end })).contains(g)),
{
    let whole = Some(Range { start, end });
    let left = Some(Range { start, end: middle });
    let right = Some(Range { start: middle, end });
    lemma_groups_of_split(first_pages, whole);
    lemma_groups_of_split(first_pages, left);
    lemma_groups_of_split(first_pages, right);
    assert forall|g: usize|
        #![trigger groups_of_split(first_pages, whole).contains(g)]
        groups_of_split(first_pages, whole).contains(g) <==> (groups_of_split(
            first_pages,
            left,
        ).contains(g) != groups_of_split(first_pages, right).contains(g)) by {
        assert(groups_of_split(first_pages, left).contains(g) <==> g < first_pages.len()
            && starts_in_split(first_pages[g as int], left));
        assert(groups_of_split(first_pages, right).contains(g) <==> g < first_pages.len()
            && starts_in_split(first_pages[g as int], right));
    }
}

/// What the metadata of a Parquet file say of its column chunks.
pub struct ChunkLayout {
    /// How many top-level columns there are.
    pub roots: usize,
    /// The top-level column that each leaf column is in.
    pub leaf_roots: Vec<usize>,
    /// The start and the length of each leaf column's chunk, by row group.
    pub chunks: Vec<Vec<(u64, u64)>>,
}

impl ChunkLayout {
    /// No chunk ends beyond what a position can be.
    pub open spec fn wf(self) -> bool {
        forall|g: int, l: int|
            0 <= g < self.chunks@.len() && 0 <= l < self.leaf_roots@.len() ==> (
            #[trigger] self.chunks@[g]@[l]).0 + self.chunks@[g]@[l].1 <= u64::MAX
    }

    /// Each row group has a chunk for each leaf column.
    pub open spec fn is_full(self) -> bool {
        forall|g: int|
            0 <= g < self.chunks@.len() ==> (#[trigger] self.chunks@[g])@.len()
                == self.leaf_roots@.len()
    }
}

/// The column is projected.
pub open spec fn is_projected(projection: Seq<usize>, root: usize) -> bool {
    projection.contains(root)
}

/// The leaf column is read, and its chunk in the row group has bytes.
pub open spec fn reads_chunk(m: ChunkLayout, projection: Seq<usize>, g: int, l: int) -> bool {
    &&& m.leaf_roots@[l] < m.roots
    &&& is_projected(projection, m.leaf_roots@[l])
    &&& m.chunks@[g]@[l].1 > 0
}

/// The range of a chunk.
pub open spec fn chunk_range(m: ChunkLayout, g: int, l: int) -> Range<u64> {
    Range {
        start: m.chunks@[g]@[l].0,
        end: (m.chunks@[g]@[l].0 + m.chunks@[g]@[l].1) as u64,
    }
}

/// The ranges of the first leaf columns that are read of a row group.
pub open spec fn group_ranges(m: ChunkLayout, projection: Seq<usize>, g: int, n: int) -> Seq<
    Range<u64>,
>
    decreases n,
{
    if n <= 0 {
        Seq::empty()
    } else if reads_chunk(m, projection, g, n - 1) {
        group_ranges(m, projection, g, n - 1).push(chunk_range(m, g, n - 1))
    } else {
        group_ranges(m, projection, g, n - 1)
    }
}

/// The ranges that are read of row groups, in their order.
pub open spec fn raw_ranges(m: ChunkLayout, projection: Seq<usize>, groups: Seq<usize>) -> Seq<
    Range<u64>,
>
    decreases groups.len(),
{
    if groups.len() == 0 {
        Seq::empty()
    } else {
        raw_ranges(m, projection, groups.drop_last()) + group_ranges(
            m,
            projection,
            groups.last() as int,
            m.leaf_roots@.len() as int,
        )
    }
}

/// Puts a range behind all that start no later.
pub open spec fn inserted(s: Seq<Range<u64>>, r: Range<u64>) -> Seq<Range<u64>>
    decreases s.len(),
{
    if s.len() > 0 && s.last().start > r.start {
        inserted(s.drop_last(), r).push(s.last())
    } else {
        s.push(r)
    }
}

/// The ranges by where they start. Those that start together stay in order.
pub open spec fn by_start(s: Seq<Range<u64>>) -> Seq<Range<u64>>
    decreases s.len(),
{
    if s.len() == 0 {
        Seq::empty()
    } else {
        inserted(by_start(s.drop_last()), s.last())
    }
}

/// The ranges without those that follow an equal one.
pub open spec fn without_repeats(s: Seq<Range<u64>>) -> Seq<Range<u64>>
    decreases s.len(),
{
    if s.len() == 0 {
        Seq::empty()
    } else if s.len() > 1 && s[s.len() - 2] == s.last() {
        without_repeats(s.drop_last())
    } else {
        without_repeats(s.drop_last()).push(s.last())
    }
}

fn copy_range(r: &Range<u64>) -> (c: Range<u64>)
    ensures
        c == *r,
{
    r.start..r.end
}

/// Puts a range behind all that start no later.
fn insert_range(v: &mut Vec<Range<u64>>, r: Range<u64>)
    ensures
        final(v)@ == inserted(old(v)@, r),
{
    let ghost all = v@;
    let mut i: usize = v.len();
    assert(all.take(i as int) =~= all);
    assert(all.skip(i as int) =~= Seq::<Range<u64>>::empty());
    assert(inserted(all, r) =~= inserted(all.take(i as int), r) + all.skip(i as int));
    while i > 0 && v[i - 1].start > r.start
        invariant
            i <= all.len(),
            v@ == all,
            inserted(all, r) == inserted(all.take(i as int), r) + all.skip(i as int),
        decreases i,
    {
        proof {
            let t = all.take(i as int);
            assert(t.drop_last() =~= all.take(i - 1));
            assert(inserted(t, r) == inserted(all.take(i - 1), r).push(all[i - 1]));
            assert(inserted(all.take(i - 1), r).push(all[i - 1]) + all.skip(i as int) =~= inserted(
                all.take(i - 1),
                r,
            ) + all.skip(i - 1));
        }
        i = i - 1;
    }
    assert(inserted(all.take(i as int), r) == all.take(i as int).push(r));
    v.insert(i, r);
    assert(v@ =~= all.take(i as int).push(r) + all.skip(i as int));
}

fn sort_by_start(s: &Vec<Range<u64>>) -> (v: Vec<Range<u64>>)
    ensures
        v@ == by_start(s@),
{
    let mut v: Vec<Range<u64>> = Vec::new();
    let mut i: usize = 0;
    assert(s@.take(0) =~= Seq::<Range<u64>>::empty());
    while i < s.len()
        invariant
            i <= s@.len(),
            v@ == by_start(s@.take(i as int)),
        decreases s@.len() - i,
    {
        assert(s@.take(i + 1).drop_last() =~= s@.take(i as int));
        insert_range(&mut v, copy_range(&s[i]));
        i = i + 1;
    }
    assert(s@.take(s@.len() as int) =~= s@);
    v
}

fn drop_repeats(s: &Vec<Range<u64>>) -> (v: Vec<Range<u64>>)
    ensures
        v@ == without_repeats(s@),
{
    let mut v: Vec<Range<u64>> = Vec::new();
    let mut i: usize = 0;
    assert(s@.take(0) =~= Seq::<Range<u64>>::empty());
    while i < s.len()
        invariant
            i <= s@.len(),
            v@ == without_repeats(s@.take(i as int)),
        decreases s@.len() - i,
    {
        assert(s@.take(i + 1).drop_last() =~= s@.take(i as int));
        if i == 0 || s[i - 1].start != s[i].start || s[i - 1].end != s[i].end {
            v.push(copy_range(&s[i]));
        }
        i = i + 1;
    }
    assert(s@.take(s@.len() as int) =~= s@);
    v
}

fn holds(projection: &Vec<usize>, root: usize) -> (r: bool)
    ensures
        r == is_projected(projection@, root),
{
    let mut i: usize = 0;
    while i < projection.len()
        invariant
            i <= projection@.len(),
            forall|j: int| 0 <= j < i ==> #[trigger] projection@[j] != root,
        decreases projection@.len() - i,
    {
        if projection[i] == root {
            assert(projection@[i as int] == root);
            return true;
        }
        i = i + 1;
    }
    false
}

/// The ranges to read ahead of a Parquet file: the chunks of the projected columns in
/// the row groups that the scan reads, by where they start, each once.
pub fn chunk_ranges(m: &ChunkLayout, projection: &Vec<usize>, groups: &Vec<usize>) -> (v: Vec<
    Range<u64>,
>)
    requires
        m.wf(),
        m.is_full(),
        forall|i: int| 0 <= i < groups@.len() ==> #[trigger] groups@[i] < m.chunks@.len(),
    ensures
        v@ == without_repeats(by_start(raw_ranges(*m, projection@, groups@))),
{
    let mut raw: Vec<Range<u64>> = Vec::new();
    let leaves: usize = m.leaf_roots.len();
    let mut i: usize = 0;
    assert(groups@.take(0) =~= Seq::<usize>::empty());
    while i < groups.len()
        invariant
            i <= groups@.len(),
            m.wf(),
            m.is_full(),
            leaves == m.leaf_roots@.len(),
            forall|j: int| 0 <= j < groups@.len() ==> #[trigger] groups@[j] < m.chunks@.len(),
            raw@ == raw_ranges(*m, projection@, groups@.take(i as int)),
        decreases groups@.len() - i,
    {
        let g: usize = groups[i];
        assert(g < m.chunks@.len());
        assert(m.chunks@[g as int]@.len() == leaves);
        let ghost before = raw@;
        let mut l: usize = 0;
        assert(raw@ =~= before + group_ranges(*m, projection@, g as int, 0));
        while l < leaves
            invariant
                l <= leaves == m.leaf_roots@.len(),
                m.wf(),
                g < m.chunks@.len(),
                m.chunks@[g as int]@.len() == leaves,
                raw@ == before + group_ranges(*m, projection@, g as int, l as int),
            decreases leaves - l,
        {
            let root: usize = m.leaf_roots[l];
            let (start, len) = m.chunks[g][l];
            assert(m.chunks@[g as int]@[l as int].0 + m.chunks@[g as int]@[l as int].1
                <= u64::MAX);
            if root < m.roots && len > 0 && holds(projection, root) {
                raw.push(start..(start + len));
            }
            assert(raw@ =~= before + group_ranges(*m, projection@, g as int, l + 1));
            l = l + 1;
        }
        proof {
            let next = groups@.take(i + 1);
            assert(next.drop_last() =~= groups@.take(i as int));
            assert(next.last() == g);
        }
        i = i + 1;
    }
    assert(groups@.take(groups@.len() as int) =~= groups@);
    let sorted: Vec<Range<u64>> = sort_by_start(&raw);
    drop_repeats(&sorted)
}

/// The read-ahead of a scan's files, one after the other.
pub struct PrefetchRun {
    files: usize,
    next: usize,
    skipped: u32,
    stopped: bool,
}

/// The read-ahead of a scan's files, as mathematical values.
pub struct RunState {
    /// How many files there are.
    pub files: int,
    /// How many have been taken.
    pub taken: int,
    /// How many have been skipped.
    pub skipped: int,
    /// Whether no more are taken.
    pub stopped: bool,
}

impl View for PrefetchRun {
    type V = RunState;

    closed spec fn view(&self) -> RunState {
        RunState {
            files: self.files as int,
            taken: self.next as int,
            skipped: self.skipped as int,
            stopped: self.stopped,
        }
    }
}

impl PrefetchRun {
    #[verifier::type_invariant]
    spec fn wf(self) -> bool {
        self.next <= self.files && self.skipped <= MAX_FILES_SKIPPED && (self.skipped
            == MAX_FILES_SKIPPED ==> self.stopped)
    }

    /// No file has been taken.
    pub fn new(files: usize) -> (r: PrefetchRun)
        ensures
            r@ == (RunState { files: files as int, taken: 0, skipped: 0, stopped: false }),
    {
        PrefetchRun { files, next: 0, skipped: 0, stopped: false }
    }

    /// Takes the next file, in order. There is none where the run was cancelled or has
    /// stopped, or all were taken.
    pub fn next_file(&mut self, cancelled: bool) -> (r: Option<usize>)
        ensures
            match r {
                Some(i) => !cancelled && !old(self)@.stopped && i == old(self)@.taken
                    < old(self)@.files && final(self)@ == (RunState {
                    taken: old(self)@.taken + 1,
                    ..old(self)@
                }),
                None => (cancelled || old(self)@.stopped || old(self)@.taken
                    == old(self)@.files) && final(self)@ == (RunState {
                    stopped: true,
                    ..old(self)@
                }),
            },
    {
        proof {
            use_type_invariant(&*self);
        }
        if cancelled || self.stopped || self.next == self.files {
            self.stopped = true;
            return None;
        }
        let i: usize = self.next;
        self.next = i + 1;
        Some(i)
    }

    /// A file was skipped: its ranges could not be told. After too many the run
    /// stops.
    pub fn note_skipped(&mut self)
        ensures
            final(self)@ == (if old(self)@.skipped < MAX_FILES_SKIPPED {
                RunState {
                    skipped: old(self)@.skipped + 1,
                    stopped: old(self)@.stopped || old(self)@.skipped + 1 == MAX_FILES_SKIPPED,
                    ..old(self)@
                }
            } else {
                old(self)@
            }),
            final(self)@.skipped <= MAX_FILES_SKIPPED,
            final(self)@.skipped == MAX_FILES_SKIPPED ==> final(self)@.stopped,
    {
        proof {
            use_type_invariant(&*self);
        }
        if self.skipped < MAX_FILES_SKIPPED {
            if self.skipped + 1 == MAX_FILES_SKIPPED {
                self.stopped = true;
            }
            self.skipped = self.skipped + 1;
        }
    }

    /// The run was cancelled while a file was read ahead.
    pub fn note_cancelled(&mut self)
        ensures
            final(self)@ == (RunState { stopped: true, ..old(self)@ }),
    {
        proof {
            use_type_invariant(&*self);
        }
        self.stopped = true;
    }
}

/// The ranges are in order of where they start.
pub open spec fn starts_in_order(s: Seq<Range<u64>>) -> bool {
    forall|i: int, j: int|
        0 <= i <= j < s.len() ==> (#[trigger] s[i]).start <= (#[trigger] s[j]).start
}

proof fn lemma_inserted(s: Seq<Range<u64>>, r: Range<u64>)
    requires
        starts_in_order(s),
    ensures
        starts_in_order(inserted(s, r)),
        inserted(s, r).to_multiset() =~= s.to_multiset().insert(r),
        inserted(s, r).len() == s.len() + 1,
    decreases s.len(),
{
    broadcast use vstd::seq_lib::group_to_multiset_ensures;

    let out = inserted(s, r);
    if s.len() > 0 && s.last().start > r.start {
        let t = s.drop_last();
        assert(starts_in_order(t)) by {
            assert forall|i: int, j: int| 0 <= i <= j < t.len() implies (#[trigger] t[i]).start <= (
            #[trigger] t[j]).start by {
                assert(s[i].start <= s[j].start);
            }
        }
        lemma_inserted(t, r);
        let o = inserted(t, r);
        assert(s =~= t.push(s.last()));
        assert(s.to_multiset() =~= t.to_multiset().insert(s.last()));
        assert(out.to_multiset() =~= o.to_multiset().insert(s.last()));
        lemma_starts_bounded(t, r, s.last().start);
        assert forall|i: int, j: int| 0 <= i <= j < out.len() implies (#[trigger] out[i]).start <= (
        #[trigger] out[j]).start by {
            if j < o.len() {
                assert(o[i].start <= o[j].start);
            } else if i < o.len() {
                assert(o[i].start <= s.last().start);
            }
        }
    } else {
        assert forall|i: int, j: int| 0 <= i <= j < out.len() implies (#[trigger] out[i]).start <= (
        #[trigger] out[j]).start by {
            if j < s.len() {
                assert(s[i].start <= s[j].start);
            } else if i < s.len() {
                assert(s[i].start <= s[s.len() - 1].start);
            }
        }
    }
}

proof fn lemma_starts_bounded(s: Seq<Range<u64>>, r: Range<u64>, bound: u64)
    requires
        r.start <= bound,
        forall|i: int| 0 <= i < s.len() ==> (#[trigger] s[i]).start <= bound,
    ensures
        forall|i: int|
            0 <= i < inserted(s, r).len() ==> (#[trigger] inserted(s, r)[i]).start <= bound,
    decreases s.len(),
{
    if s.len() > 0 && s.last().start > r.start {
        let t = s.drop_last();
        assert forall|i: int| 0 <= i < t.len() implies (#[trigger] t[i]).start <= bound by {
            assert(s[i].start <= bound);
        }
        lemma_starts_bounded(t, r, bound);
        let o = inserted(t, r);
        let out = inserted(s, r);
        assert forall|i: int| 0 <= i < out.len() implies (#[trigger] out[i]).start <= bound by {
            if i < o.len() {
                assert(o[i].start <= bound);
            } else {
                assert(s[s.len() - 1].start <= bound);
            }
        }
    } else {
        let out = inserted(s, r);
        assert forall|i: int| 0 <= i < out.len() implies (#[trigger] out[i]).start <= bound by {
            if i < s.len() {
                assert(s[i].start <= bound);
            }
        }
    }
}

proof fn lemma_by_start(s: Seq<Range<u64>>)
    ensures
        starts_in_order(by_start(s)),
        by_start(s).to_multiset() =~= s.to_multiset(),
    decreases s.len(),
{
    broadcast use vstd::seq_lib::group_to_multiset_ensures;

    if s.len() > 0 {
        let t = s.drop_last();
        lemma_by_start(t);
        lemma_inserted(by_start(t), s.last());
        assert(s =~= t.push(s.last()));
    } else {
        assert(by_start(s) =~= s);
    }
}

proof fn lemma_without_repeats(s: Seq<Range<u64>>)
    requires
        starts_in_order(s),
    ensures
        starts_in_order(without_repeats(s)),
        forall|r: Range<u64>| #[trigger] without_repeats(s).contains(r) <==> s.contains(r),
        s.len() > 0 ==> without_repeats(s).len() > 0 && without_repeats(s).last() == s.last(),
        forall|i: int|
            0 <= i < without_repeats(s).len() - 1 ==> #[trigger] without_repeats(s)[i]
                != without_repeats(s)[i + 1],
    decreases s.len(),
{
    if s.len() > 0 {
        let t = s.drop_last();
        assert(starts_in_order(t)) by {
            assert forall|i: int, j: int| 0 <= i <= j < t.len() implies (#[trigger] t[i]).start <= (
            #[trigger] t[j]).start by {
                assert(s[i].start <= s[j].start);
            }
        }
        lemma_without_repeats(t);
        let w = without_repeats(t);
        let out = without_repeats(s);
        assert forall|r: Range<u64>| #[trigger] s.contains(r) <==> t.contains(r) || r
            == s.last() by {
            if t.contains(r) {
                let i = choose|i: int| 0 <= i < t.len() && t[i] == r;
                assert(s[i] == r);
            }
            if r == s.last() {
                assert(s[s.len() - 1] == r);
            }
            if s.contains(r) {
                let i = choose|i: int| 0 <= i < s.len() && s[i] == r;
                if i < t.len() {
                    assert(t[i] == r);
                }
            }
        }
        if s.len() > 1 && s[s.len() - 2] == s.last() {
            assert(t.last() == s.last());
            assert(t.contains(s.last())) by {
                assert(t[t.len() - 1] == s.last());
            }
        } else {
            assert(out == w.push(s.last()));
            assert forall|r: Range<u64>| #[trigger] out.contains(r) <==> s.contains(r) by {
                if w.contains(r) {
                    let i = choose|i: int| 0 <= i < w.len() && w[i] == r;
                    assert(out[i] == r);
                }
                if r == s.last() {
                    assert(out[w.len() as int] == r);
                }
                if out.contains(r) {
                    let i = choose|i: int| 0 <= i < out.len() && out[i] == r;
                    if i < w.len() {
                        assert(w[i] == r);
                        assert(w.contains(r));
                    }
                }
            }
            assert forall|i: int, j: int| 0 <= i <= j < out.len() implies (
            #[trigger] out[i]).start <= (#[trigger] out[j]).start by {
                if j < w.len() {
                    assert(w[i].start <= w[j].start);
                } else if i < w.len() {
                    assert(w.contains(w[i]));
                    assert(t.contains(w[i]));
                    let k = choose|k: int| 0 <= k < t.len() && t[k] == w[i];
                    assert(s[k].start <= s[s.len() - 1].start);
                }
            }
            assert forall|i: int| 0 <= i < out.len() - 1 implies #[trigger] out[i] != out[i
                + 1] by {
                if i + 1 < w.len() {
                    assert(w[i] != w[i + 1]);
                } else {
                    assert(w.last() == t.last());
                }
            }
        }
    }
}

proof fn lemma_group_ranges(m: ChunkLayout, projection: Seq<usize>, g: int, n: int)
    ensures
        forall|r: Range<u64>| #[trigger]
            group_ranges(m, projection, g, n).contains(r) <==> exists|l: int|
                0 <= l < n && reads_chunk(m, projection, g, l) && #[trigger] chunk_range(m, g, l)
                    == r,
    decreases n,
{
    if n > 0 {
        lemma_group_ranges(m, projection, g, n - 1);
        let before = group_ranges(m, projection, g, n - 1);
        let s = group_ranges(m, projection, g, n);
        assert forall|r: Range<u64>| #[trigger] s.contains(r) <==> exists|l: int|
            0 <= l < n && reads_chunk(m, projection, g, l) && #[trigger] chunk_range(m, g, l)
                == r by {
            if s.contains(r) {
                let i = choose|i: int| 0 <= i < s.len() && s[i] == r;
                if i < before.len() {
                    assert(before[i] == r);
                    assert(before.contains(r));
                } else {
                    assert(chunk_range(m, g, n - 1) == r);
                }
            }
            if exists|l: int|
                0 <= l < n && reads_chunk(m, projection, g, l) && #[trigger] chunk_range(m, g, l)
                    == r {
                let l = choose|l: int|
                    0 <= l < n && reads_chunk(m, projection, g, l) && #[trigger] chunk_range(
                        m,
                        g,
                        l,
                    ) == r;
                if l < n - 1 {
                    assert(before.contains(r));
                    let i = choose|i: int| 0 <= i < before.len() && before[i] == r;
                    assert(s[i] == r);
                } else {
                    assert(s[before.len() as int] == r);
                }
            }
        }
    } else {
        assert(group_ranges(m, projection, g, n) =~= Seq::<Range<u64>>::empty());
    }
}

/// The chunk of a leaf column in a row group is to be read.
pub open spec fn is_wanted(
    m: ChunkLayout,
    projection: Seq<usize>,
    groups: Seq<usize>,
    r: Range<u64>,
) -> bool {
    exists|i: int, l: int|
        0 <= i < groups.len() && 0 <= l < m.leaf_roots@.len() && reads_chunk(
            m,
            projection,
            groups[i] as int,
            l,
        ) && #[trigger] chunk_range(m, groups[i] as int, l) == r
}

proof fn lemma_raw_ranges(m: ChunkLayout, projection: Seq<usize>, groups: Seq<usize>)
    ensures
        forall|r: Range<u64>| #[trigger]
            raw_ranges(m, projection, groups).contains(r) <==> is_wanted(
                m,
                projection,
                groups,
                r,
            ),
    decreases groups.len(),
{
    let s = raw_ranges(m, projection, groups);
    if groups.len() > 0 {
        let t = groups.drop_last();
        lemma_raw_ranges(m, projection, t);
        let g = groups.last() as int;
        let n = m.leaf_roots@.len() as int;
        lemma_group_ranges(m, projection, g, n);
        let a = raw_ranges(m, projection, t);
        let b = group_ranges(m, projection, g, n);
        assert forall|r: Range<u64>| #[trigger] s.contains(r) <==> is_wanted(
            m,
            projection,
            groups,
            r,
        ) by {
            if s.contains(r) {
                let i = choose|i: int| 0 <= i < s.len() && s[i] == r;
                if i < a.len() {
                    assert(a[i] == r);
                    assert(a.contains(r));
                    let (k, l) = choose|k: int, l: int|
                        0 <= k < t.len() && 0 <= l < n && reads_chunk(
                            m,
                            projection,
                            t[k] as int,
                            l,
                        ) && #[trigger] chunk_range(m, t[k] as int, l) == r;
                    assert(chunk_range(m, groups[k] as int, l) == r);
                } else {
                    assert(b[i - a.len()] == r);
                    assert(b.contains(r));
                    let l = choose|l: int|
                        0 <= l < n && reads_chunk(m, projection, g, l) && #[trigger] chunk_range(
                            m,
                            g,
                            l,
                        ) == r;
                    assert(chunk_range(m, groups[groups.len() - 1] as int, l) == r);
                }
            }
            if is_wanted(m, projection, groups, r) {
                let (k, l) = choose|k: int, l: int|
                    0 <= k < groups.len() && 0 <= l < n && reads_chunk(
                        m,
                        projection,
                        groups[k] as int,
                        l,
                    ) && #[trigger] chunk_range(m, groups[k] as int, l) == r;
                if k < t.len() {
                    assert(chunk_range(m, t[k] as int, l) == r);
                    assert(a.contains(r));
                    let i = choose|i: int| 0 <= i < a.len() && a[i] == r;
                    assert(s[i] == r);
                } else {
                    assert(chunk_range(m, g, l) == r);
                    assert(b.contains(r));
                    let i = choose|i: int| 0 <= i < b.len() && b[i] == r;
                    assert(s[a.len() + i] == r);
                }
            }
        }
    }
}

/// Exactly the chunks of the projected columns in the row groups that the scan reads
/// are read ahead, in order of where they start.
pub proof fn wanted_chunks_are_read_in_order(
    m: ChunkLayout,
    projection: Seq<usize>,
    groups: Seq<usize>,
)
    ensures
        ({
            let out = without_repeats(by_start(raw_ranges(m, projection, groups)));
            &&& starts_in_order(out)
            &&& forall|r: Range<u64>| #[trigger]
                out.contains(r) <==> is_wanted(m, projection, groups, r)
            &&& forall|i: int| 0 <= i < out.len() - 1 ==> #[trigger] out[i] != out[i + 1]
        }),
{
    broadcast use vstd::seq_lib::group_to_multiset_ensures;

    let raw = raw_ranges(m, projection, groups);
    let sorted = by_start(raw);
    lemma_raw_ranges(m, projection, groups);
    lemma_by_start(raw);
    lemma_without_repeats(sorted);
    assert forall|r: Range<u64>| #[trigger] sorted.contains(r) <==> raw.contains(r) by {
        assert(sorted.contains(r) <==> sorted.to_multiset().count(r) > 0);
        assert(raw.contains(r) <==> raw.to_multiset().count(r) > 0);
    }
}

/// The footer of a file is read as its last bytes: as many as the hint says, or the whole
/// file where it has no more.
pub proof fn the_footer_is_the_end_of_the_file(size: u64)
    ensures
        footer_start(size) <= size,
        size <= FOOTER_SIZE_HINT ==> footer_start(size) == 0,
        size > FOOTER_SIZE_HINT ==> size - footer_start(size) == FOOTER_SIZE_HINT,
{
}

/// A range is read where it has bytes, and then the whole of it.
pub proof fn a_range_is_read_unless_it_is_empty(start: u64, end: u64)
    ensures
        start < end ==> unless_empty(start, end).len() == 1 && unless_empty(start, end)[0].start
            == start && unless_empty(start, end)[0].end == end,
        start >= end ==> unless_empty(start, end).len() == 0,
{
}

/// A split has the row groups whose first page lies in it, in the order of the file and each
/// once; without a split, all of them.
pub proof fn a_split_has_the_row_groups_that_start_in_it(
    first_pages: Seq<i64>,
    split: Option<Range<u64>>,
)
    requires
        first_pages.len() <= usize::MAX,
        split matches Some(r) ==> r.start <= i64::MAX && r.end <= i64::MAX,
    ensures
        forall|g: usize| #[trigger]
            groups_of_split(first_pages, split).contains(g) <==> g < first_pages.len() && (
            split matches Some(r) ==> r.start <= first_pages[g as int] && first_pages[g as int]
                < r.end),
        forall|i: int, j: int|
            0 <= i < j < groups_of_split(first_pages, split).len() ==> #[trigger] groups_of_split(
                first_pages,
                split,
            )[i] < #[trigger] groups_of_split(first_pages, split)[j],
{
    lemma_groups_of_split(first_pages, split);
    lemma_groups_in_order(first_pages, split);
}

proof fn lemma_groups_in_order(first_pages: Seq<i64>, split: Option<Range<u64>>)
    requires
        first_pages.len() <= usize::MAX,
    ensures
        forall|i: int, j: int|
            0 <= i < j < groups_of_split(first_pages, split).len() ==> #[trigger] groups_of_split(
                first_pages,
                split,
            )[i] < #[trigger] groups_of_split(first_pages, split)[j],
        forall|i: int|
            0 <= i < groups_of_split(first_pages, split).len() ==> #[trigger] groups_of_split(
                first_pages,
                split,
            )[i] < first_pages.len(),
    decreases first_pages.len(),
{
    if first_pages.len() > 0 {
        let t = first_pages.drop_last();
        lemma_groups_in_order(t, split);
        let before = groups_of_split(t, split);
        let now = groups_of_split(first_pages, split);
        if starts_in_split(first_pages.last(), split) {
            assert(now == before.push((first_pages.len() - 1) as usize));
            assert forall|i: int| 0 <= i < before.len() implies now[i] == #[trigger] before[i] by {}
        } else {
            assert(now == before);
        }
    }
}

/// The bytes of a leaf column's chunk in a row group that is read: the column is one of the
/// projected ones, and the chunk has bytes.
pub open spec fn is_chunk_of(
    m: ChunkLayout,
    projection: Seq<usize>,
    g: int,
    l: int,
    r: Range<u64>,
) -> bool {
    let (start, len) = m.chunks@[g]@[l];
    &&& 0 <= l < m.leaf_roots@.len()
    &&& m.leaf_roots@[l] < m.roots
    &&& projection.contains(m.leaf_roots@[l])
    &&& len > 0
    &&& r.start == start
    &&& r.end == start + len
}

/// The bytes are those of some chunk in the row groups that is read.
pub open spec fn is_some_chunk(
    m: ChunkLayout,
    projection: Seq<usize>,
    groups: Seq<usize>,
    r: Range<u64>,
) -> bool {
    exists|i: int, l: int|
        0 <= i < groups.len() && #[trigger] is_chunk_of(m, projection, groups[i] as int, l, r)
}

/// What is read ahead of a file is, in order of where it starts and without a repeat behind
/// another, the chunks of the projected columns in the row groups that the scan reads: all
/// of their bytes, and nothing else.
pub proof fn projected_columns_are_read_ahead(
    m: ChunkLayout,
    projection: Seq<usize>,
    groups: Seq<usize>,
    v: Seq<Range<u64>>,
)
    requires
        m.wf(),
        forall|i: int| 0 <= i < groups.len() ==> #[trigger] groups[i] < m.chunks@.len(),
        v == without_repeats(by_start(raw_ranges(m, projection, groups))),
    ensures
        forall|i: int, l: int, r: Range<u64>|
            0 <= i < groups.len() && #[trigger] is_chunk_of(
                m,
                projection,
                #[trigger] groups[i] as int,
                l,
                r,
            ) ==> v.contains(r),
        forall|k: int|
            0 <= k < v.len() ==> is_some_chunk(m, projection, groups, #[trigger] v[k]),
        forall|i: int, j: int| 0 <= i <= j < v.len() ==> (#[trigger] v[i]).start <= (
        #[trigger] v[j]).start,
        forall|i: int| 0 <= i < v.len() - 1 ==> #[trigger] v[i] != v[i + 1],
{
    wanted_chunks_are_read_in_order(m, projection, groups);
    assert(starts_in_order(v));
    assert forall|i: int, l: int, r: Range<u64>|
        0 <= i < groups.len() && #[trigger] is_chunk_of(
            m,
            projection,
            #[trigger] groups[i] as int,
            l,
            r,
        ) implies v.contains(r) by {
        let g = groups[i] as int;
        assert(m.chunks@[g]@[l].0 + m.chunks@[g]@[l].1 <= u64::MAX);
        assert(chunk_range(m, g, l) == r);
        assert(reads_chunk(m, projection, g, l));
        assert(is_wanted(m, projection, groups, r));
    }
    assert forall|k: int| 0 <= k < v.len() implies is_some_chunk(
        m,
        projection,
        groups,
        #[trigger] v[k],
    ) by {
        assert(v.contains(v[k]));
        assert(is_wanted(m, projection, groups, v[k]));
        let (i, l) = choose|i: int, l: int|
            0 <= i < groups.len() && 0 <= l < m.leaf_roots@.len() && reads_chunk(
                m,
                projection,
                groups[i] as int,
                l,
            ) && #[trigger] chunk_range(m, groups[i] as int, l) == v[k];
        let g = groups[i] as int;
        assert(m.chunks@[g]@[l].0 + m.chunks@[g]@[l].1 <= u64::MAX);
        assert(is_chunk_of(m, projection, groups[i] as int, l, v[k]));
    }
}

} // verus!
