//! Selection regions and the invariant-preserving group that holds them.
//!
//! A `Selection` is a span between two byte offsets; `start` may exceed `end`
//! when the selection was dragged right-to-left. A `SelectionGroup` keeps its
//! regions sorted by their normalized lower edge and non-overlapping, merging
//! regions on insertion as needed.

use vstd::prelude::*;

verus! {

/// Horizontal position within a line, counted in code units from the line
/// start. Cached by vertical motions so that repeated line-up/line-down steps
/// keep tracking the same column through shorter lines.
#[derive(Clone, Copy, PartialEq, Eq, Debug)]
pub struct Column(pub usize);

/// A single selection region. When `start == end` the region is a caret.
/// `column` is only set by vertical motions.
#[derive(Clone, Copy, PartialEq, Eq, Debug)]
pub struct Selection {
    pub start: usize,
    pub end: usize,
    pub column: Option<Column>,
}

impl Selection {
    /// The lower edge of the region.
    pub open spec fn spec_min(self) -> usize {
        if self.start <= self.end {
            self.start
        } else {
            self.end
        }
    }

    /// The upper edge of the region.
    pub open spec fn spec_max(self) -> usize {
        if self.start <= self.end {
            self.end
        } else {
            self.start
        }
    }

    /// A caret is a zero-width region.
    pub open spec fn spec_is_caret(self) -> bool {
        self.start == self.end
    }

    /// Whether this region, assumed to start at or before `other`, must be
    /// merged with `other`: genuine overlap always merges, and a mere touch
    /// merges exactly when one of the two is a caret.
    pub open spec fn spec_should_merge(self, other: Selection) -> bool {
        other.spec_min() < self.spec_max() || ((self.spec_is_caret() || other.spec_is_caret())
            && other.spec_min() == self.spec_max())
    }

    /// The union span of the two regions, oriented the way `self` points.
    /// The cached column is dropped.
    pub open spec fn spec_merge_with(self, other: Selection) -> Selection {
        let new_min = if self.spec_min() <= other.spec_min() {
            self.spec_min()
        } else {
            other.spec_min()
        };
        let new_max = if self.spec_max() >= other.spec_max() {
            self.spec_max()
        } else {
            other.spec_max()
        };
        if self.end >= self.start {
            Selection { start: new_min, end: new_max, column: None }
        } else {
            Selection { start: new_max, end: new_min, column: None }
        }
    }

    /// Constructor: a plain region with no cached column.
    pub fn new(start: usize, end: usize) -> (r: Selection)
        ensures
            r == (Selection { start, end, column: None::<Column> }),
    {
        Selection { start, end, column: None }
    }

    /// Gets the earliest offset within the selection, ie the minimum of both edges.
    pub fn min(self) -> (r: usize)
        ensures
            r == self.spec_min(),
    {
        if self.start <= self.end {
            self.start
        } else {
            self.end
        }
    }

    /// Gets the latest offset within the selection, ie the maximum of both edges.
    pub fn max(self) -> (r: usize)
        ensures
            r == self.spec_max(),
    {
        if self.start <= self.end {
            self.end
        } else {
            self.start
        }
    }

    /// Determines whether the selection is a caret (ie has an empty interior).
    pub fn is_caret(self) -> (r: bool)
        ensures
            r == self.spec_is_caret(),
    {
        self.start == self.end
    }

    /// Returns a selection with the given horizontal position.
    pub fn with_column(self, column: Option<Column>) -> (r: Selection)
        ensures
            r == (Selection { start: self.start, end: self.end, column }),
    {
        Selection { start: self.start, end: self.end, column }
    }

    /// Indicates whether this region should merge with the next.
    /// Assumption: regions are sorted (`self.min() <= other.min()`).
    pub fn should_merge(self, other: Selection) -> (r: bool)
        ensures
            r == self.spec_should_merge(other),
    {
        other.min() < self.max() || ((self.is_caret() || other.is_caret()) && other.min()
            == self.max())
    }

    /// Merges self with an overlapping region, retaining the direction of self.
    pub fn merge_with(self, other: Selection) -> (r: Selection)
        ensures
            r == self.spec_merge_with(other),
    {
        let is_forward = self.end >= self.start;
        let a = self.min();
        let b = other.min();
        let new_min = if a <= b {
            a
        } else {
            b
        };
        let c = self.max();
        let d = other.max();
        let new_max = if c >= d {
            c
        } else {
            d
        };
        if is_forward {
            Selection::new(new_min, new_max)
        } else {
            Selection::new(new_max, new_min)
        }
    }
}

/// The group invariant for one adjacent pair: the earlier region ends at or
/// before the later one starts, strictly before when either is a caret.
/// This is exactly the negation of `spec_should_merge`.
pub open spec fn pair_ok(a: Selection, b: Selection) -> bool {
    a.spec_max() <= b.spec_min() && ((a.spec_is_caret() || b.spec_is_caret()) ==> a.spec_max()
        < b.spec_min())
}

/// The group invariant: every adjacent pair of regions satisfies `pair_ok`.
pub open spec fn regions_wf(rs: Seq<Selection>) -> bool {
    forall|i: int| 0 <= i < rs.len() - 1 ==> pair_ok(#[trigger] rs[i], rs[i + 1])
}

/// The smallest index whose region's upper edge reaches `offset`; the length
/// of the sequence when there is none.
pub open spec fn search_spec(rs: Seq<Selection>, offset: int) -> int
    decreases rs.len(),
{
    if rs.len() == 0 {
        0
    } else if rs[0].spec_max() >= offset {
        0
    } else {
        1 + search_spec(rs.drop_first(), offset)
    }
}

/// Folds into `region` every region from `end_ix` on that must merge with it,
/// returning the accumulated region and the index of the first region kept.
pub open spec fn merge_scan(rs: Seq<Selection>, region: Selection, end_ix: int) -> (Selection, int)
    decreases rs.len() - end_ix,
{
    if 0 <= end_ix < rs.len() && region.spec_should_merge(rs[end_ix]) {
        merge_scan(rs, region.spec_merge_with(rs[end_ix]), end_ix + 1)
    } else {
        (region, end_ix)
    }
}

/// What `SelectionGroup::add_region` does to the sequence of regions.
pub open spec fn add_region_spec(rs: Seq<Selection>, region: Selection) -> Seq<Selection> {
    let ix0 = search_spec(rs, region.spec_min() as int);
    if ix0 == rs.len() {
        rs.push(region)
    } else {
        let first_at_or_before = rs[ix0].spec_min() <= region.spec_min();
        let first_merges = first_at_or_before && rs[ix0].spec_should_merge(region);
        let r1 = if first_merges {
            region.spec_merge_with(rs[ix0])
        } else {
            region
        };
        let ix = if first_at_or_before && !first_merges {
            ix0 + 1
        } else {
            ix0
        };
        let scan_start = if first_at_or_before {
            ix0 + 1
        } else {
            ix0
        };
        let scan = merge_scan(rs, r1, scan_start);
        let merged = scan.0;
        let end_ix = scan.1;
        if ix == end_ix {
            rs.insert(ix, merged)
        } else {
            rs.subrange(0, ix) + seq![merged] + rs.subrange(end_ix, rs.len() as int)
        }
    }
}

/// A set of zero or more selection regions, representing a selection state.
#[derive(Clone, Debug)]
pub struct SelectionGroup {
    /// The regions, sorted by `min()`; `regions_wf` holds of every group
    /// built through `new` and `add_region`.
    pub regions: Vec<Selection>,
}

impl SelectionGroup {
    /// The group invariant over the current regions.
    pub open spec fn wf(self) -> bool {
        regions_wf(self.regions@)
    }

    /// Creates a new empty selection.
    pub fn new() -> (r: SelectionGroup)
        ensures
            r.regions@ == Seq::<Selection>::empty(),
            r.wf(),
    {
        let r = SelectionGroup { regions: Vec::new() };
        proof {
            assert(r.regions@ =~= Seq::<Selection>::empty());
        }
        r
    }

    /// The smallest index so that `offset > region.max()` for all preceding
    /// regions.
    pub fn search(&self, offset: usize) -> (ix: usize)
        requires
            self.wf(),
        ensures
            ix == search_spec(self.regions@, offset as int),
    {
        let n: usize = self.regions.len();
        if n == 0 {
            proof {
                lemma_search_spec_props(self.regions@, offset as int);
            }
            return 0;
        }
        if offset > self.regions[n - 1].max() {
            proof {
                lemma_search_spec_props(self.regions@, offset as int);
                let k = search_spec(self.regions@, offset as int);
                if k < n {
                    lemma_wf_ordered(self.regions@, k, n - 1);
                }
            }
            return n;
        }
        let mut lo: usize = 0;
        let mut hi: usize = n;
        while lo < hi
            invariant
                0 <= lo <= hi <= n,
                n == self.regions@.len(),
                self.wf(),
                forall|j: int| 0 <= j < lo ==> (#[trigger] self.regions@[j]).spec_max() < offset,
                forall|j: int| hi <= j < n ==> (#[trigger] self.regions@[j]).spec_max() >= offset,
            decreases hi - lo,
        {
            let mid: usize = lo + (hi - lo) / 2;
            if self.regions[mid].max() < offset {
                proof {
                    assert forall|j: int| 0 <= j <= mid implies (#[trigger] self.regions@[j]).spec_max()
                        < offset by {
                        if j < mid {
                            lemma_wf_ordered(self.regions@, j, mid as int);
                        }
                    }
                }
                lo = mid + 1;
            } else {
                proof {
                    assert forall|j: int| mid <= j < n implies (#[trigger] self.regions@[j]).spec_max()
                        >= offset by {
                        if mid < j {
                            lemma_wf_ordered(self.regions@, mid as int, j);
                        }
                    }
                }
                hi = mid;
            }
        }
        proof {
            lemma_search_spec_props(self.regions@, offset as int);
            let k = search_spec(self.regions@, offset as int);
            if k < lo {
                assert(self.regions@[k].spec_max() < offset);
                assert(self.regions@[k].spec_max() >= offset);
            }
            if lo < k {
                assert(self.regions@[lo as int].spec_max() >= offset);
                assert(self.regions@[lo as int].spec_max() < offset);
            }
        }
        lo
    }

    /// Add a region to the selection. This method implements merging logic.
    ///
    /// Two non-caret regions merge if their interiors intersect; merely
    /// touching at the edges does not cause a merge. A caret merges with
    /// a non-caret if it is in the interior or on either edge. Two carets
    /// merge if they are the same offset.
    #[verifier::rlimit(50)]
    pub fn add_region(&mut self, region: Selection)
        requires
            old(self).wf(),
        ensures
            final(self).regions@ == add_region_spec(old(self).regions@, region),
            final(self).wf(),
    {
        let ghost rs0 = self.regions@;
        let ghost region0 = region;
        proof {
            lemma_add_region_wf(rs0, region0);
            lemma_search_spec_props(rs0, region0.spec_min() as int);
        }
        let mut ix: usize = self.search(region.min());
        let ghost ix0 = ix as int;
        if ix == self.regions.len() {
            self.regions.push(region);
            return ;
        }
        let mut region = region;
        let mut end_ix: usize = ix;
        if self.regions[ix].min() <= region.min() {
            if self.regions[ix].should_merge(region) {
                region = region.merge_with(self.regions[ix]);
            } else {
                ix = ix + 1;
            }
            end_ix = end_ix + 1;
        }
        let ghost r1 = region;
        let ghost scan_start = end_ix as int;
        proof {
            let first_at_or_before = rs0[ix0].spec_min() <= region0.spec_min();
            let first_merges = first_at_or_before && rs0[ix0].spec_should_merge(region0);
            assert(r1 == if first_merges {
                region0.spec_merge_with(rs0[ix0])
            } else {
                region0
            });
            assert(ix as int == if first_at_or_before && !first_merges {
                ix0 + 1
            } else {
                ix0
            });
            assert(scan_start == if first_at_or_before {
                ix0 + 1
            } else {
                ix0
            });
        }
        while end_ix < self.regions.len() && region.should_merge(self.regions[end_ix])
            invariant
                self.regions@ == rs0,
                scan_start <= end_ix <= rs0.len(),
                merge_scan(rs0, region, end_ix as int) == merge_scan(rs0, r1, scan_start),
            decreases rs0.len() - end_ix,
        {
            region = region.merge_with(self.regions[end_ix]);
            end_ix = end_ix + 1;
        }
        proof {
            assert(merge_scan(rs0, region, end_ix as int) == (region, end_ix as int));
            assert(region == merge_scan(rs0, r1, scan_start).0);
            assert(end_ix as int == merge_scan(rs0, r1, scan_start).1);
        }
        if ix == end_ix {
            self.regions.insert(ix, region);
            proof {
                assert(self.regions@ == add_region_spec(rs0, region0));
            }
        } else {
            self.regions[ix] = region;
            remove_n_at(&mut self.regions, ix + 1, end_ix - ix - 1);
            proof {
                assert(self.regions@ =~= rs0.subrange(0, ix as int) + seq![region]
                    + rs0.subrange(end_ix as int, rs0.len() as int));
                assert(self.regions@ == add_region_spec(rs0, region0));
            }
        }
    }
}

/// Removes `n` elements of `v` starting at `index`, keeping the order of the
/// rest.
pub fn remove_n_at<T: Copy>(v: &mut Vec<T>, index: usize, n: usize)
    requires
        index + n <= old(v)@.len(),
    ensures
        final(v)@ == old(v)@.subrange(0, index as int) + old(v)@.subrange(
            index + n,
            old(v)@.len() as int,
        ),
{
    let ghost v0 = v@;
    let mut k: usize = 0;
    while k < n
        invariant
            0 <= k <= n,
            index + n <= v0.len(),
            v@ =~= v0.subrange(0, index as int) + v0.subrange(index + k, v0.len() as int),
        decreases n - k,
    {
        v.remove(index);
        k = k + 1;
        proof {
            assert(v@ =~= v0.subrange(0, index as int) + v0.subrange(index + k, v0.len() as int));
        }
    }
}

/// Within a well-formed group, every earlier region ends at or before every
/// later one starts.
pub proof fn lemma_wf_ordered(rs: Seq<Selection>, i: int, j: int)
    requires
        regions_wf(rs),
        0 <= i < j < rs.len(),
    ensures
        rs[i].spec_max() <= rs[j].spec_min(),
        rs[i].spec_max() <= rs[j].spec_max(),
        rs[i].spec_min() <= rs[j].spec_min(),
    decreases j - i,
{
    if j == i + 1 {
        assert(pair_ok(rs[i], rs[j]));
    } else {
        lemma_wf_ordered(rs, i, j - 1);
        assert(pair_ok(rs[j - 1], rs[j]));
    }
}

/// Characterizes `search_spec`: everything before the found index ends before
/// `offset`, and the found region (if any) reaches it.
pub proof fn lemma_search_spec_props(rs: Seq<Selection>, offset: int)
    ensures
        0 <= search_spec(rs, offset) <= rs.len(),
        forall|j: int|
            0 <= j < search_spec(rs, offset) ==> (#[trigger] rs[j]).spec_max() < offset,
        search_spec(rs, offset) < rs.len() ==> rs[search_spec(rs, offset)].spec_max() >= offset,
    decreases rs.len(),
{
    if rs.len() == 0 {
    } else if rs[0].spec_max() >= offset {
    } else {
        lemma_search_spec_props(rs.drop_first(), offset);
        assert forall|j: int| 0 <= j < search_spec(rs, offset) implies (#[trigger] rs[j]).spec_max()
            < offset by {
            if j > 0 {
                assert(rs.drop_first()[j - 1] == rs[j]);
            }
        }
        if search_spec(rs, offset) < rs.len() {
            assert(rs.drop_first()[search_spec(rs, offset) - 1] == rs[search_spec(rs, offset)]);
        }
    }
}

/// Characterizes `merge_scan`: the result stops at the sequence end or at the
/// first region it must not merge with; the accumulated region spans at least
/// the input region, starts no later than the input and the first folded
/// region, and keeps the input's orientation.
pub proof fn lemma_merge_scan_props(rs: Seq<Selection>, region: Selection, start: int)
    requires
        regions_wf(rs),
        0 <= start <= rs.len(),
    ensures
        start <= merge_scan(rs, region, start).1 <= rs.len(),
        merge_scan(rs, region, start).1 == rs.len() || !merge_scan(rs, region, start).0.spec_should_merge(
            rs[merge_scan(rs, region, start).1],
        ),
        merge_scan(rs, region, start).0.spec_min() <= region.spec_min(),
        merge_scan(rs, region, start).0.spec_max() >= region.spec_max(),
        merge_scan(rs, region, start).1 == start ==> merge_scan(rs, region, start).0 == region,
        merge_scan(rs, region, start).1 > start ==> merge_scan(rs, region, start).0.spec_min() == (
        if region.spec_min() <= rs[start].spec_min() {
            region.spec_min()
        } else {
            rs[start].spec_min()
        }),
        (region.end >= region.start) == (merge_scan(rs, region, start).0.end >= merge_scan(
            rs,
            region,
            start,
        ).0.start),
    decreases rs.len() - start,
{
    if 0 <= start < rs.len() && region.spec_should_merge(rs[start]) {
        let m1 = region.spec_merge_with(rs[start]);
        lemma_merge_scan_props(rs, m1, start + 1);
        let res = merge_scan(rs, region, start);
        if res.1 > start + 1 {
            lemma_wf_ordered(rs, start, start + 1);
        }
    }
}

/// `search_spec` is the only index that splits the regions into those ending
/// before `offset` and the rest.
pub proof fn lemma_search_spec_unique(rs: Seq<Selection>, offset: int, k: int)
    requires
        0 <= k <= rs.len(),
        forall|j: int| 0 <= j < k ==> (#[trigger] rs[j]).spec_max() < offset,
        k < rs.len() ==> rs[k].spec_max() >= offset,
    ensures
        search_spec(rs, offset) == k,
{
    lemma_search_spec_props(rs, offset);
    let s = search_spec(rs, offset);
    if s < k {
        assert(rs[s].spec_max() < offset);
        assert(rs[s].spec_max() >= offset);
    }
    if k < s {
        assert(rs[k].spec_max() < offset);
    }
}

/// Adding a region to a well-formed group yields a well-formed group: for
/// every adjacent pair of the result, the earlier region ends at or before
/// the later one starts, strictly before when either is a caret.
#[verifier::rlimit(50)]
pub proof fn lemma_add_region_wf(rs: Seq<Selection>, region: Selection)
    requires
        regions_wf(rs),
    ensures
        regions_wf(add_region_spec(rs, region)),
{
    lemma_search_spec_props(rs, region.spec_min() as int);
    let ix0 = search_spec(rs, region.spec_min() as int);
    if ix0 == rs.len() {
        let out = rs.push(region);
        assert forall|i: int| 0 <= i < out.len() - 1 implies pair_ok(#[trigger] out[i], out[i + 1]) by {
            if i < rs.len() - 1 {
                assert(pair_ok(rs[i], rs[i + 1]));
            } else {
                assert(out[i] == rs[i]);
                assert(rs[i].spec_max() < region.spec_min());
            }
        }
    } else {
        let first_at_or_before = rs[ix0].spec_min() <= region.spec_min();
        let first_merges = first_at_or_before && rs[ix0].spec_should_merge(region);
        let r1 = if first_merges {
            region.spec_merge_with(rs[ix0])
        } else {
            region
        };
        let ix = if first_at_or_before && !first_merges {
            ix0 + 1
        } else {
            ix0
        };
        let scan_start = if first_at_or_before {
            ix0 + 1
        } else {
            ix0
        };
        lemma_merge_scan_props(rs, r1, scan_start);
        let scan = merge_scan(rs, r1, scan_start);
        let merged = scan.0;
        let end_ix = scan.1;

        // The merged region begins at or after the left neighbour's end.
        assert(ix > 0 ==> pair_ok(rs[ix - 1], merged)) by {
            if ix > 0 {
                lemma_add_region_left_pair(rs, region, ix0, merged, end_ix);
            }
        }
        // The merged region ends at or before the right neighbour's start.
        assert(end_ix < rs.len() ==> pair_ok(merged, rs[end_ix]));

        if ix == end_ix {
            let out = rs.insert(ix, merged);
            assert forall|i: int| 0 <= i < out.len() - 1 implies pair_ok(
                #[trigger] out[i],
                out[i + 1],
            ) by {
                if i + 1 < ix {
                    assert(out[i] == rs[i] && out[i + 1] == rs[i + 1]);
                    assert(pair_ok(rs[i], rs[i + 1]));
                } else if i + 1 == ix {
                    assert(out[i] == rs[i] && out[i + 1] == merged);
                } else if i == ix {
                    assert(out[i] == merged && out[i + 1] == rs[i]);
                } else {
                    assert(out[i] == rs[i - 1] && out[i + 1] == rs[i]);
                    assert(pair_ok(rs[i - 1], rs[i]));
                }
            }
        } else {
            let out = rs.subrange(0, ix) + seq![merged] + rs.subrange(end_ix, rs.len() as int);
            assert forall|i: int| 0 <= i < out.len() - 1 implies pair_ok(
                #[trigger] out[i],
                out[i + 1],
            ) by {
                if i + 1 < ix {
                    assert(out[i] == rs[i] && out[i + 1] == rs[i + 1]);
                    assert(pair_ok(rs[i], rs[i + 1]));
                } else if i + 1 == ix {
                    assert(out[i] == rs[i] && out[i + 1] == merged);
                } else if i == ix {
                    assert(out[i] == merged && out[i + 1] == rs[end_ix]);
                } else {
                    assert(out[i] == rs[end_ix + (i - ix - 1)] && out[i + 1] == rs[end_ix + (i
                        - ix)]);
                    assert(pair_ok(rs[end_ix + (i - ix - 1)], rs[end_ix + (i - ix)]));
                }
            }
        }
    }
}

/// A scan that folded at least one region in leaves no cached column: the
/// last merge built the region afresh.
proof fn lemma_merge_scan_column(rs: Seq<Selection>, region: Selection, start: int)
    requires
        0 <= start <= rs.len(),
    ensures
        merge_scan(rs, region, start).1 >= start,
        merge_scan(rs, region, start).1 == start ==> merge_scan(rs, region, start).0 == region,
        merge_scan(rs, region, start).1 > start ==> merge_scan(rs, region, start).0.column
            is None,
    decreases rs.len() - start,
{
    if 0 <= start < rs.len() && region.spec_should_merge(rs[start]) {
        let m1 = region.spec_merge_with(rs[start]);
        lemma_merge_scan_column(rs, m1, start + 1);
        assert(merge_scan(rs, region, start) == merge_scan(rs, m1, start + 1));
        if merge_scan(rs, m1, start + 1).1 == start + 1 {
            assert(merge_scan(rs, m1, start + 1).0 == m1);
        }
    }
}

/// The group that results from adding each region of `list` in turn to an
/// empty group.
pub open spec fn group_of(list: Seq<Selection>) -> Seq<Selection>
    decreases list.len(),
{
    if list.len() == 0 {
        Seq::<Selection>::empty()
    } else {
        add_region_spec(group_of(list.drop_last()), list.last())
    }
}

/// A group built by insertions alone satisfies the group invariant.
pub proof fn lemma_group_of_wf(list: Seq<Selection>)
    ensures
        regions_wf(group_of(list)),
    decreases list.len(),
{
    if list.len() == 0 {
    } else {
        lemma_group_of_wf(list.drop_last());
        lemma_add_region_wf(group_of(list.drop_last()), list.last());
    }
}

/// Every region edge of the sequence comes from the given set of offsets.
pub open spec fn offsets_from(rs: Seq<Selection>, allowed: Set<int>) -> bool {
    forall|i: int|
        0 <= i < rs.len() ==> allowed.contains((#[trigger] rs[i]).start as int)
            && allowed.contains(rs[i].end as int)
}

/// Folding regions into a scan invents no offsets: the merged region's edges
/// come from the regions folded in.
proof fn lemma_merge_scan_offsets(
    rs: Seq<Selection>,
    region: Selection,
    start: int,
    allowed: Set<int>,
)
    requires
        offsets_from(rs, allowed),
        allowed.contains(region.start as int),
        allowed.contains(region.end as int),
        0 <= start <= rs.len(),
    ensures
        allowed.contains(merge_scan(rs, region, start).0.start as int),
        allowed.contains(merge_scan(rs, region, start).0.end as int),
    decreases rs.len() - start,
{
    if 0 <= start < rs.len() && region.spec_should_merge(rs[start]) {
        let m1 = region.spec_merge_with(rs[start]);
        lemma_merge_scan_offsets(rs, m1, start + 1, allowed);
    }
}

/// Inserting a region invents no offsets: every edge of the result comes from
/// the group or the new region.
pub proof fn lemma_add_region_offsets(rs: Seq<Selection>, region: Selection, allowed: Set<int>)
    requires
        regions_wf(rs),
        offsets_from(rs, allowed),
        allowed.contains(region.start as int),
        allowed.contains(region.end as int),
    ensures
        offsets_from(add_region_spec(rs, region), allowed),
{
    let ix0 = search_spec(rs, region.spec_min() as int);
    lemma_search_spec_props(rs, region.spec_min() as int);
    let out = add_region_spec(rs, region);
    if ix0 == rs.len() {
        assert forall|i: int|
            0 <= i < out.len() implies allowed.contains((#[trigger] out[i]).start as int)
            && allowed.contains(out[i].end as int) by {
            if i < rs.len() {
                assert(out[i] == rs[i]);
            }
        }
    } else {
        let first_at_or_before = rs[ix0].spec_min() <= region.spec_min();
        let first_merges = first_at_or_before && rs[ix0].spec_should_merge(region);
        let r1 = if first_merges {
            region.spec_merge_with(rs[ix0])
        } else {
            region
        };
        let ix = if first_at_or_before && !first_merges {
            ix0 + 1
        } else {
            ix0
        };
        let scan_start = if first_at_or_before {
            ix0 + 1
        } else {
            ix0
        };
        lemma_merge_scan_offsets(rs, r1, scan_start, allowed);
        let merged = merge_scan(rs, r1, scan_start).0;
        let end_ix = merge_scan(rs, r1, scan_start).1;
        lemma_merge_scan_props(rs, r1, scan_start);
        if ix == end_ix {
            assert forall|i: int|
                0 <= i < out.len() implies allowed.contains((#[trigger] out[i]).start as int)
                && allowed.contains(out[i].end as int) by {
                if i < ix {
                    assert(out[i] == rs[i]);
                } else if i == ix {
                    assert(out[i] == merged);
                } else {
                    assert(out[i] == rs[i - 1]);
                }
            }
        } else {
            assert forall|i: int|
                0 <= i < out.len() implies allowed.contains((#[trigger] out[i]).start as int)
                && allowed.contains(out[i].end as int) by {
                if i < ix {
                    assert(out[i] == rs[i]);
                } else if i == ix {
                    assert(out[i] == merged);
                } else {
                    assert(out[i] == rs[end_ix + (i - ix - 1)]);
                }
            }
        }
    }
}

/// A group built by insertions invents no offsets either.
pub proof fn lemma_group_of_offsets(list: Seq<Selection>, allowed: Set<int>)
    requires
        offsets_from(list, allowed),
    ensures
        offsets_from(group_of(list), allowed),
    decreases list.len(),
{
    if list.len() == 0 {
    } else {
        assert(offsets_from(list.drop_last(), allowed)) by {
            assert(forall|i: int|
                0 <= i < list.len() - 1 ==> list.drop_last()[i] == #[trigger] list[i]);
        }
        lemma_group_of_offsets(list.drop_last(), allowed);
        lemma_group_of_wf(list.drop_last());
        lemma_add_region_offsets(group_of(list.drop_last()), list.last(), allowed);
    }
}

/// The `(start, end)` pairs of the regions, in order.
pub open spec fn spans_of(rs: Seq<Selection>) -> Seq<(usize, usize)> {
    rs.map_values(|s: Selection| (s.start, s.end))
}

/// A region whose span contains another region's span must merge with it.
proof fn lemma_should_merge_covering(m: Selection, r: Selection)
    requires
        m.spec_min() <= r.spec_min(),
        r.spec_max() <= m.spec_max(),
    ensures
        m.spec_should_merge(r),
{
}

/// Merging a region into a column-free region that covers it and points the
/// same way gives that covering region back.
proof fn lemma_merge_covering(r: Selection, m: Selection)
    requires
        m.spec_min() <= r.spec_min(),
        r.spec_max() <= m.spec_max(),
        (r.end >= r.start) == (m.end >= m.start),
        m.column is None,
    ensures
        r.spec_merge_with(m) == m,
{
}

/// Inserting the exact same region twice leaves the group with the spans that
/// a single insertion produces: the duplicate collapses into the existing
/// merged region.
/// The insert case of the idempotence argument: the first add put `r` in
/// unchanged, and the duplicate folds into that copy.
#[verifier::rlimit(100)]
proof fn lemma_add_region_idem_insert(rs: Seq<Selection>, r: Selection)
    requires
        regions_wf(rs),
        ({
            let ix0 = search_spec(rs, r.spec_min() as int);
            &&& ix0 < rs.len()
            &&& ({
                let fab = rs[ix0].spec_min() <= r.spec_min();
                let fm = fab && rs[ix0].spec_should_merge(r);
                let r1 = if fm {
                    r.spec_merge_with(rs[ix0])
                } else {
                    r
                };
                let ix = if fab && !fm {
                    ix0 + 1
                } else {
                    ix0
                };
                let ss = if fab {
                    ix0 + 1
                } else {
                    ix0
                };
                ix == merge_scan(rs, r1, ss).1
            })
        }),
    ensures
        spans_of(add_region_spec(add_region_spec(rs, r), r)) =~= spans_of(add_region_spec(rs, r)),
{
    lemma_search_spec_props(rs, r.spec_min() as int);
    lemma_add_region_wf(rs, r);
    let g1 = add_region_spec(rs, r);
    let rmin = r.spec_min() as int;
    let ix0 = search_spec(rs, rmin);
    let fab = rs[ix0].spec_min() <= r.spec_min();
    let fm = fab && rs[ix0].spec_should_merge(r);
    let r1 = if fm {
        r.spec_merge_with(rs[ix0])
    } else {
        r
    };
    let ix = if fab && !fm {
        ix0 + 1
    } else {
        ix0
    };
    let ss = if fab {
        ix0 + 1
    } else {
        ix0
    };
    lemma_merge_scan_props(rs, r1, ss);
    let m = merge_scan(rs, r1, ss).0;
    let e = merge_scan(rs, r1, ss).1;
    assert(ix == e);
    assert(m == r1 && r1 == r);
    assert(g1 == rs.insert(ix, r));
    assert(g1[ix] == r);
    if fab {
        // r sits right after rs[ix0], which touches it without merging.
        assert(rs[ix0].spec_max() >= rmin);
        assert(!rs[ix0].spec_should_merge(r));
        assert(rs[ix0].spec_max() == r.spec_min());
        assert(!rs[ix0].spec_is_caret() && !r.spec_is_caret());
        assert(forall|j: int| 0 <= j < ix0 ==> (#[trigger] g1[j]) == rs[j]);
        assert(g1[ix0] == rs[ix0]);
        lemma_search_spec_unique(g1, rmin, ix0);
        // The duplicate is not merged into rs[ix0] either; the scan then
        // folds it into the copy at ix and stops.
        lemma_should_merge_covering(r, r);
        let rr = r.spec_merge_with(r);
        assert(merge_scan(g1, r, ix) == merge_scan(g1, rr, ix + 1));
        if ix + 1 < g1.len() {
            assert(g1[ix + 1] == rs[ix0 + 1]);
            assert(merge_scan(rs, r, ix0 + 1) == (r, ix0 + 1));
            assert(!r.spec_should_merge(rs[ix0 + 1]));
            assert(rr.spec_min() == r.spec_min() && rr.spec_max() == r.spec_max()
                && rr.spec_is_caret() == r.spec_is_caret());
            assert(!rr.spec_should_merge(g1[ix + 1]));
        }
        assert(merge_scan(g1, rr, ix + 1) == (rr, ix + 1));
        let g2 = add_region_spec(g1, r);
        assert(g2 == g1.subrange(0, ix) + seq![rr] + g1.subrange(ix + 1, g1.len() as int));
        assert(spans_of(g2) =~= spans_of(g1));
    } else {
        // r was inserted strictly before rs[ix0].
        assert(forall|j: int| 0 <= j < ix ==> (#[trigger] g1[j]) == rs[j]);
        lemma_search_spec_unique(g1, rmin, ix);
        lemma_should_merge_covering(r, r);
        let rr = r.spec_merge_with(r);
        assert(merge_scan(g1, rr, ix + 1) == (rr, ix + 1)) by {
            if ix + 1 < g1.len() {
                assert(g1[ix + 1] == rs[ix0]);
                assert(merge_scan(rs, r, ix0) == (r, ix0));
                assert(!r.spec_should_merge(rs[ix0]));
                assert(rr.spec_min() == r.spec_min() && rr.spec_max() == r.spec_max()
                    && rr.spec_is_caret() == r.spec_is_caret());
            }
        }
        let g2 = add_region_spec(g1, r);
        assert(g2 == g1.subrange(0, ix) + seq![rr] + g1.subrange(ix + 1, g1.len() as int));
        assert(spans_of(g2) =~= spans_of(g1));
    }
}

/// The replace case of the idempotence argument: the first add merged `r`
/// into a covering region, and the duplicate folds into it without a trace.
#[verifier::rlimit(100)]
proof fn lemma_add_region_idem_replace(rs: Seq<Selection>, r: Selection)
    requires
        regions_wf(rs),
        ({
            let ix0 = search_spec(rs, r.spec_min() as int);
            &&& ix0 < rs.len()
            &&& ({
                let fab = rs[ix0].spec_min() <= r.spec_min();
                let fm = fab && rs[ix0].spec_should_merge(r);
                let r1 = if fm {
                    r.spec_merge_with(rs[ix0])
                } else {
                    r
                };
                let ix = if fab && !fm {
                    ix0 + 1
                } else {
                    ix0
                };
                let ss = if fab {
                    ix0 + 1
                } else {
                    ix0
                };
                ix != merge_scan(rs, r1, ss).1
            })
        }),
    ensures
        spans_of(add_region_spec(add_region_spec(rs, r), r)) =~= spans_of(add_region_spec(rs, r)),
{
    lemma_search_spec_props(rs, r.spec_min() as int);
    lemma_add_region_wf(rs, r);
    let g1 = add_region_spec(rs, r);
    let rmin = r.spec_min() as int;
    let ix0 = search_spec(rs, rmin);
    let fab = rs[ix0].spec_min() <= r.spec_min();
    let fm = fab && rs[ix0].spec_should_merge(r);
    let r1 = if fm {
        r.spec_merge_with(rs[ix0])
    } else {
        r
    };
    let ix = if fab && !fm {
        ix0 + 1
    } else {
        ix0
    };
    let ss = if fab {
        ix0 + 1
    } else {
        ix0
    };
    lemma_merge_scan_props(rs, r1, ss);
    let m = merge_scan(rs, r1, ss).0;
    let e = merge_scan(rs, r1, ss).1;
    assert(ix != e);
    assert(g1 == rs.subrange(0, ix) + seq![m] + rs.subrange(e, rs.len() as int));
    assert(g1[ix] == m);
    assert(m.column is None) by {
        if e == ss {
            assert(fm);
        } else {
            lemma_merge_scan_column(rs, r1, ss);
        }
    }
    assert(m.spec_min() <= r.spec_min() && r.spec_max() <= m.spec_max()) by {
        if fm {
            assert(r1.spec_min() == rs[ix0].spec_min() && r1.spec_max() >= r.spec_max());
        } else {
        }
    }
    assert((r.end >= r.start) == (m.end >= m.start));
    lemma_should_merge_covering(m, r);
    lemma_merge_covering(r, m);
    let rr = r.spec_merge_with(m);
    assert(rr == m);
    // After m there stands rs[e], which m does not merge with.
    assert(merge_scan(g1, rr, ix + 1) == (rr, ix + 1)) by {
        if ix + 1 < g1.len() {
            assert(g1[ix + 1] == rs[e + (ix + 1) - ix - 1]);
            assert(g1[ix + 1] == rs[e]);
            assert(!m.spec_should_merge(rs[e]));
        }
    }
    if !fab || fm {
        // m stands where the probe lands: at ix0.
        assert(ix == ix0);
        assert(forall|j: int| 0 <= j < ix ==> (#[trigger] g1[j]) == rs[j]);
        assert(m.spec_max() >= rmin);
        lemma_search_spec_unique(g1, rmin, ix);
        assert(g1[ix].spec_min() <= r.spec_min());
        let g2 = add_region_spec(g1, r);
        assert(g2 == g1.subrange(0, ix) + seq![rr] + g1.subrange(ix + 1, g1.len() as int));
        assert(spans_of(g2) =~= spans_of(g1));
    } else {
        // fab && !fm: the probe lands on rs[ix0], which still refuses the
        // merge; the scan then folds the duplicate into m at ix.
        assert(ix == ix0 + 1);
        assert(rs[ix0].spec_max() == r.spec_min());
        assert(!rs[ix0].spec_is_caret() && !r.spec_is_caret());
        assert(forall|j: int| 0 <= j < ix0 ==> (#[trigger] g1[j]) == rs[j]);
        assert(g1[ix0] == rs[ix0]);
        lemma_search_spec_unique(g1, rmin, ix0);
        assert(!g1[ix0].spec_should_merge(r));
        assert(merge_scan(g1, r, ix) == merge_scan(g1, rr, ix + 1)) by {
            assert(m.spec_should_merge(r));
            lemma_should_merge_covering(r, r);
            assert(r.spec_should_merge(m)) by {
                if m.spec_min() < r.spec_max() {
                } else {
                    assert(m.spec_min() == r.spec_min() && r.spec_is_caret());
                }
            }
        }
        let g2 = add_region_spec(g1, r);
        assert(g2 == g1.subrange(0, ix0 + 1) + seq![rr] + g1.subrange(ix + 1, g1.len() as int));
        assert(spans_of(g2) =~= spans_of(g1));
    }
}

/// Inserting the exact same region twice leaves the group with the spans that
/// a single insertion produces: the duplicate collapses into the existing
/// merged region.
#[verifier::rlimit(100)]
pub proof fn lemma_add_region_idempotent(rs: Seq<Selection>, r: Selection)
    requires
        regions_wf(rs),
    ensures
        spans_of(add_region_spec(add_region_spec(rs, r), r)) =~= spans_of(add_region_spec(rs, r)),
{
    lemma_search_spec_props(rs, r.spec_min() as int);
    lemma_add_region_wf(rs, r);
    let g1 = add_region_spec(rs, r);
    let rmin = r.spec_min() as int;
    let ix0 = search_spec(rs, rmin);
    if ix0 == rs.len() {
        // First add appended r; the duplicate merges into it in place.
        let p = rs.len() as int;
        assert(g1 == rs.push(r));
        assert(g1[p] == r);
        lemma_search_spec_unique(g1, rmin, p);
        lemma_should_merge_covering(r, r);
        let r1p = r.spec_merge_with(r);
        assert(merge_scan(g1, r1p, p + 1) == (r1p, p + 1));
        let g2 = add_region_spec(g1, r);
        assert(g2 == g1.subrange(0, p) + seq![r1p] + g1.subrange(p + 1, g1.len() as int));
        assert(spans_of(g2) =~= spans_of(g1));
    } else {
        let fab = rs[ix0].spec_min() <= r.spec_min();
        let fm = fab && rs[ix0].spec_should_merge(r);
        let r1 = if fm {
            r.spec_merge_with(rs[ix0])
        } else {
            r
        };
        let ix = if fab && !fm {
            ix0 + 1
        } else {
            ix0
        };
        let ss = if fab {
            ix0 + 1
        } else {
            ix0
        };
        if ix == merge_scan(rs, r1, ss).1 {
            lemma_add_region_idem_insert(rs, r);
        } else {
            lemma_add_region_idem_replace(rs, r);
        }
    }
}

/// The pair formed by the region left of the insertion point and the merged
/// region satisfies the group invariant.
proof fn lemma_add_region_left_pair(
    rs: Seq<Selection>,
    region: Selection,
    ix0: int,
    merged: Selection,
    end_ix: int,
)
    requires
        regions_wf(rs),
        0 <= ix0 < rs.len(),
        ix0 == search_spec(rs, region.spec_min() as int),
        ({
            let first_at_or_before = rs[ix0].spec_min() <= region.spec_min();
            let first_merges = first_at_or_before && rs[ix0].spec_should_merge(region);
            let r1 = if first_merges {
                region.spec_merge_with(rs[ix0])
            } else {
                region
            };
            let scan_start = if first_at_or_before {
                ix0 + 1
            } else {
                ix0
            };
            (merged, end_ix) == merge_scan(rs, r1, scan_start)
        }),
        ({
            let first_at_or_before = rs[ix0].spec_min() <= region.spec_min();
            let first_merges = first_at_or_before && rs[ix0].spec_should_merge(region);
            let ix = if first_at_or_before && !first_merges {
                ix0 + 1
            } else {
                ix0
            };
            ix > 0
        }),
    ensures
        ({
            let first_at_or_before = rs[ix0].spec_min() <= region.spec_min();
            let first_merges = first_at_or_before && rs[ix0].spec_should_merge(region);
            let ix = if first_at_or_before && !first_merges {
                ix0 + 1
            } else {
                ix0
            };
            pair_ok(rs[ix - 1], merged)
        }),
{
    lemma_search_spec_props(rs, region.spec_min() as int);
    let first_at_or_before = rs[ix0].spec_min() <= region.spec_min();
    let first_merges = first_at_or_before && rs[ix0].spec_should_merge(region);
    let r1 = if first_merges {
        region.spec_merge_with(rs[ix0])
    } else {
        region
    };
    let scan_start = if first_at_or_before {
        ix0 + 1
    } else {
        ix0
    };
    lemma_merge_scan_props(rs, r1, scan_start);
    if first_merges {
        // Left neighbour is rs[ix0 - 1]; the merged region starts where
        // rs[ix0] starts, so the old adjacent pair carries over.
        assert(pair_ok(rs[ix0 - 1], rs[ix0]));
        if end_ix > scan_start {
            lemma_wf_ordered(rs, ix0, ix0 + 1);
        }
        assert(merged.spec_min() == rs[ix0].spec_min());
        if merged.spec_is_caret() {
            // Then the whole union is a single point, so rs[ix0] is a caret
            // at the same offset.
            assert(rs[ix0].spec_is_caret());
        }
    } else if first_at_or_before {
        // Left neighbour is rs[ix0] itself, which refused the merge.
        if end_ix > scan_start {
            assert(pair_ok(rs[ix0], rs[ix0 + 1]));
        }
        assert(merged.spec_min() >= rs[ix0].spec_max());
        if merged.spec_is_caret() {
            assert(region.spec_is_caret());
            assert(region.spec_min() != rs[ix0].spec_max());
        }
        if rs[ix0].spec_is_caret() && merged.spec_min() == rs[ix0].spec_max() {
            if end_ix > scan_start && rs[ix0 + 1].spec_min() == merged.spec_min() {
                assert(pair_ok(rs[ix0], rs[ix0 + 1]));
                assert(false);
            }
            assert(region.spec_min() == rs[ix0].spec_max());
            assert(rs[ix0].spec_should_merge(region));
            assert(false);
        }
    } else {
        // The new region starts strictly before rs[ix0]; the left neighbour
        // rs[ix0 - 1] ends strictly before the probe offset.
        assert(rs[ix0 - 1].spec_max() < region.spec_min());
        if end_ix > scan_start {
            assert(merged.spec_min() == if region.spec_min() <= rs[ix0].spec_min() {
                region.spec_min()
            } else {
                rs[ix0].spec_min()
            });
        }
        assert(merged.spec_min() == region.spec_min());
    }
}

} // verus!
