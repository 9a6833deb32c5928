//! Datatype descriptors and the layouts they denote.
//!
//! A descriptor is modelled by its layout: the kind of base scalar it is
//! built over and the byte offset of every base element one instance covers,
//! in typemap order.  The extent of a descriptor is the span from the lowest
//! byte covered to one past the highest; concatenated instances are placed
//! one extent apart.

use vstd::prelude::*;

verus! {

use crate::{Address, Count};

/// The base scalar kinds the equivalence registry is closed over.
#[derive(Copy, Clone, PartialEq, Eq, Structural, Debug)]
pub enum ScalarKind {
    Int8,
    Int16,
    Int32,
    Int64,
    UInt8,
    UInt16,
    UInt32,
    UInt64,
    Float32,
    Float64,
}

/// Size in bytes of one scalar of kind `k`.
pub open spec fn kind_size(k: ScalarKind) -> int {
    match k {
        ScalarKind::Int8 => 1,
        ScalarKind::Int16 => 2,
        ScalarKind::Int32 => 4,
        ScalarKind::Int64 => 8,
        ScalarKind::UInt8 => 1,
        ScalarKind::UInt16 => 2,
        ScalarKind::UInt32 => 4,
        ScalarKind::UInt64 => 8,
        ScalarKind::Float32 => 4,
        ScalarKind::Float64 => 8,
    }
}

/// Size in bytes of one scalar of kind `k`.
pub fn size_of_kind(k: ScalarKind) -> (s: i64)
    ensures
        s as int == kind_size(k),
        1 <= s <= 8,
{
    match k {
        ScalarKind::Int8 => 1,
        ScalarKind::Int16 => 2,
        ScalarKind::Int32 => 4,
        ScalarKind::Int64 => 8,
        ScalarKind::UInt8 => 1,
        ScalarKind::UInt16 => 2,
        ScalarKind::UInt32 => 4,
        ScalarKind::UInt64 => 8,
        ScalarKind::Float32 => 4,
        ScalarKind::Float64 => 8,
    }
}

/// The byte offsets of `s` as mathematical integers.
pub open spec fn int_offsets(s: Seq<i64>) -> Seq<int> {
    s.map_values(|x: i64| x as int)
}

/// All offsets of `s`, moved by `d` bytes.
pub open spec fn shift_all(s: Seq<int>, d: int) -> Seq<int> {
    s.map_values(|x: int| x + d)
}

/// Offsets covered by `n` consecutive instances of a layout whose own
/// offsets are `old`, the first instance starting at byte `start` and each
/// following instance one extent `ext` further.
pub open spec fn repeat_footprint(old: Seq<int>, ext: int, start: int, n: int) -> Seq<int>
    decreases n,
{
    if n <= 0 {
        Seq::empty()
    } else {
        shift_all(old, start) + repeat_footprint(old, ext, start + ext, n - 1)
    }
}

/// Offsets covered by a sequence of blocks: block `b` consists of
/// `lens[b]` consecutive instances of the `old` layout and starts at byte
/// `starts[b]`.
pub open spec fn placed_footprint(old: Seq<int>, ext: int, starts: Seq<int>, lens: Seq<int>) -> Seq<int>
    recommends
        starts.len() == lens.len(),
    decreases starts.len(),
{
    if starts.len() == 0 {
        Seq::empty()
    } else {
        repeat_footprint(old, ext, starts[0], lens[0])
            + placed_footprint(old, ext, starts.skip(1), lens.skip(1))
    }
}

/// Smallest entry of a non-empty offset sequence (zero when empty).
pub open spec fn fp_min(fp: Seq<int>) -> int
    decreases fp.len(),
{
    if fp.len() == 0 {
        0
    } else if fp.len() == 1 {
        fp[0]
    } else {
        let m = fp_min(fp.drop_first());
        if fp[0] <= m {
            fp[0]
        } else {
            m
        }
    }
}

/// Largest entry of a non-empty offset sequence (zero when empty).
pub open spec fn fp_max(fp: Seq<int>) -> int
    decreases fp.len(),
{
    if fp.len() == 0 {
        0
    } else if fp.len() == 1 {
        fp[0]
    } else {
        let m = fp_max(fp.drop_first());
        if fp[0] >= m {
            fp[0]
        } else {
            m
        }
    }
}

/// Lowest byte covered by one instance of a layout with offsets `fp`.
pub open spec fn layout_lb(fp: Seq<int>) -> int {
    if fp.len() == 0 {
        0
    } else {
        fp_min(fp)
    }
}

/// One past the highest byte covered by one instance of a layout with
/// offsets `fp` over a base scalar of `sz` bytes.
pub open spec fn layout_ub(fp: Seq<int>, sz: int) -> int {
    if fp.len() == 0 {
        0
    } else {
        fp_max(fp) + sz
    }
}

/// Span of one instance in bytes.
pub open spec fn layout_extent(fp: Seq<int>, sz: int) -> int {
    layout_ub(fp, sz) - layout_lb(fp)
}

/// Every offset of `fp`, and the end of the element it starts, is
/// representable as a byte address.
pub open spec fn offsets_fit(fp: Seq<int>, sz: int) -> bool {
    forall|i: int| 0 <= i < fp.len() ==> i64::MIN <= #[trigger] fp[i] && fp[i] + sz <= i64::MAX
}

/// The smallest entry bounds every entry from below and is attained.
pub proof fn lemma_fp_min(fp: Seq<int>)
    requires
        fp.len() > 0,
    ensures
        forall|i: int| 0 <= i < fp.len() ==> fp_min(fp) <= #[trigger] fp[i],
        exists|i: int| 0 <= i < fp.len() && #[trigger] fp[i] == fp_min(fp),
    decreases fp.len(),
{
    if fp.len() == 1 {
        assert(fp[0] == fp_min(fp));
    } else {
        lemma_fp_min(fp.drop_first());
        assert forall|i: int| 0 <= i < fp.len() implies fp_min(fp) <= #[trigger] fp[i] by {
            if i > 0 {
                assert(fp.drop_first()[i - 1] == fp[i]);
            }
        }
        if fp[0] > fp_min(fp.drop_first()) {
            let j = choose|j: int| 0 <= j < fp.drop_first().len()
                && #[trigger] fp.drop_first()[j] == fp_min(fp.drop_first());
            assert(fp[j + 1] == fp_min(fp));
        } else {
            assert(fp[0] == fp_min(fp));
        }
    }
}

/// The largest entry bounds every entry from above and is attained.
pub proof fn lemma_fp_max(fp: Seq<int>)
    requires
        fp.len() > 0,
    ensures
        forall|i: int| 0 <= i < fp.len() ==> #[trigger] fp[i] <= fp_max(fp),
        exists|i: int| 0 <= i < fp.len() && #[trigger] fp[i] == fp_max(fp),
    decreases fp.len(),
{
    if fp.len() == 1 {
        assert(fp[0] == fp_max(fp));
    } else {
        lemma_fp_max(fp.drop_first());
        assert forall|i: int| 0 <= i < fp.len() implies #[trigger] fp[i] <= fp_max(fp) by {
            if i > 0 {
                assert(fp.drop_first()[i - 1] == fp[i]);
            }
        }
        if fp[0] < fp_max(fp.drop_first()) {
            let j = choose|j: int| 0 <= j < fp.drop_first().len()
                && #[trigger] fp.drop_first()[j] == fp_max(fp.drop_first());
            assert(fp[j + 1] == fp_max(fp));
        } else {
            assert(fp[0] == fp_max(fp));
        }
    }
}

/// Appending one entry to a non-empty sequence refines the minimum.
pub proof fn lemma_fp_min_push(fp: Seq<int>, x: int)
    ensures
        fp_min(fp.push(x)) == if fp.len() == 0 || x < fp_min(fp) {
            x
        } else {
            fp_min(fp)
        },
    decreases fp.len(),
{
    if fp.len() == 0 {
        assert(fp.push(x) =~= seq![x]);
    } else {
        lemma_fp_min_push(fp.drop_first(), x);
        assert(fp.push(x).drop_first() =~= fp.drop_first().push(x));
    }
}

/// Appending one entry to a non-empty sequence refines the maximum.
pub proof fn lemma_fp_max_push(fp: Seq<int>, x: int)
    ensures
        fp_max(fp.push(x)) == if fp.len() == 0 || x > fp_max(fp) {
            x
        } else {
            fp_max(fp)
        },
    decreases fp.len(),
{
    if fp.len() == 0 {
        assert(fp.push(x) =~= seq![x]);
    } else {
        lemma_fp_max_push(fp.drop_first(), x);
        assert(fp.push(x).drop_first() =~= fp.drop_first().push(x));
    }
}

/// The counts of `s` as mathematical integers.
pub open spec fn int_counts(s: Seq<i32>) -> Seq<int> {
    s.map_values(|x: i32| x as int)
}

/// A repetition splits at any instance boundary.
pub proof fn lemma_repeat_split(old: Seq<int>, ext: int, start: int, j: int, n: int)
    requires
        0 <= j <= n,
    ensures
        repeat_footprint(old, ext, start, n) == repeat_footprint(old, ext, start, j)
            + repeat_footprint(old, ext, start + j * ext, n - j),
    decreases j,
{
    if j == 0 {
        assert(start + 0 * ext == start);
        assert(repeat_footprint(old, ext, start, 0) + repeat_footprint(old, ext, start, n)
            =~= repeat_footprint(old, ext, start, n));
    } else {
        lemma_repeat_split(old, ext, start + ext, j - 1, n - 1);
        assert(start + ext + (j - 1) * ext == start + j * ext) by (nonlinear_arith);
        assert((shift_all(old, start) + repeat_footprint(old, ext, start + ext, j - 1))
            + repeat_footprint(old, ext, start + j * ext, n - j)
            =~= shift_all(old, start) + (repeat_footprint(old, ext, start + ext, j - 1)
                + repeat_footprint(old, ext, start + j * ext, n - j)));
    }
}

/// A placed layout splits at any block boundary.
pub proof fn lemma_placed_split(old: Seq<int>, ext: int, starts: Seq<int>, lens: Seq<int>, b: int)
    requires
        0 <= b <= starts.len(),
        lens.len() == starts.len(),
    ensures
        placed_footprint(old, ext, starts, lens) == placed_footprint(
            old,
            ext,
            starts.take(b),
            lens.take(b),
        ) + placed_footprint(old, ext, starts.skip(b), lens.skip(b)),
    decreases b,
{
    if b == 0 {
        assert(starts.skip(0) =~= starts);
        assert(lens.skip(0) =~= lens);
        assert(placed_footprint(old, ext, starts.take(0), lens.take(0))
            + placed_footprint(old, ext, starts, lens) =~= placed_footprint(old, ext, starts, lens));
    } else {
        lemma_placed_split(old, ext, starts.skip(1), lens.skip(1), b - 1);
        assert(starts.skip(1).take(b - 1) =~= starts.take(b).skip(1));
        assert(lens.skip(1).take(b - 1) =~= lens.take(b).skip(1));
        assert(starts.skip(1).skip(b - 1) =~= starts.skip(b));
        assert(lens.skip(1).skip(b - 1) =~= lens.skip(b));
        assert(starts.take(b)[0] == starts[0]);
        assert(lens.take(b)[0] == lens[0]);
        assert((repeat_footprint(old, ext, starts[0], lens[0])
            + placed_footprint(old, ext, starts.take(b).skip(1), lens.take(b).skip(1)))
            + placed_footprint(old, ext, starts.skip(b), lens.skip(b))
            =~= repeat_footprint(old, ext, starts[0], lens[0])
                + (placed_footprint(old, ext, starts.take(b).skip(1), lens.take(b).skip(1))
                    + placed_footprint(old, ext, starts.skip(b), lens.skip(b))));
    }
}

/// A middle piece of a representable offset sequence is representable.
pub proof fn lemma_offsets_fit_sub(all: Seq<int>, pre: Seq<int>, mid: Seq<int>, post: Seq<int>, sz: int)
    requires
        offsets_fit(all, sz),
        all == pre + mid + post,
    ensures
        offsets_fit(mid, sz),
{
    assert forall|i: int| 0 <= i < mid.len() implies i64::MIN <= #[trigger] mid[i] && mid[i] + sz
        <= i64::MAX by {
        assert(all[pre.len() + i] == mid[i]);
    }
}

/// A datatype descriptor: something that denotes a memory layout over a base
/// scalar kind.
pub trait Datatype: Sized {
    /// Kind of the base scalar the layout is made of.
    spec fn base_kind(&self) -> ScalarKind;

    /// Byte offset of every base element of one instance, in typemap order.
    spec fn footprint(&self) -> Seq<int>;

    /// The layout is internally consistent and representable.
    spec fn wf(&self) -> bool;

    /// Span of one instance in bytes; consecutive instances are placed this
    /// far apart.
    spec fn spec_extent(&self) -> int;

    /// What well-formedness guarantees about the layout.
    proof fn lemma_wf(&self)
        requires
            self.wf(),
        ensures
            self.spec_extent() == layout_extent(self.footprint(), kind_size(self.base_kind())),
            offsets_fit(self.footprint(), kind_size(self.base_kind())),
            0 <= self.spec_extent() <= i64::MAX,
    ;

    /// Extent of the layout in bytes.
    fn extent(&self) -> (e: i64)
        requires
            self.wf(),
        ensures
            e as int == self.spec_extent(),
    ;

    /// Lowest byte covered by one instance.
    fn lower_bound(&self) -> (l: i64)
        requires
            self.wf(),
        ensures
            l as int == layout_lb(self.footprint()),
    ;

    /// Kind of the base scalar.
    fn base(&self) -> (k: ScalarKind)
        ensures
            k == self.base_kind(),
    ;

    /// Number of base elements one instance covers.
    fn element_count(&self) -> (n: usize)
        ensures
            n as int == self.footprint().len(),
    ;

    /// Byte offset of the `i`-th base element of one instance.
    fn element_offset(&self, i: usize) -> (o: i64)
        requires
            self.wf(),
            (i as int) < self.footprint().len(),
        ensures
            o as int == self.footprint()[i as int],
    ;
}

/// A pre-defined descriptor for one base scalar: non-owning, process-wide,
/// trivially copyable.
#[derive(Copy, Clone)]
pub struct SystemDatatype {
    /// Scalar kind this descriptor stands for.
    pub kind: ScalarKind,
}

impl SystemDatatype {
    /// The system descriptor of scalar kind `k`.
    pub fn of_kind(k: ScalarKind) -> (d: SystemDatatype)
        ensures
            d.spec_kind() == k,
            d.wf(),
    {
        SystemDatatype { kind: k }
    }

    /// Scalar kind this descriptor stands for.
    pub open spec fn spec_kind(&self) -> ScalarKind {
        self.kind
    }
}

impl Datatype for SystemDatatype {
    open spec fn base_kind(&self) -> ScalarKind {
        self.spec_kind()
    }

    open spec fn footprint(&self) -> Seq<int> {
        seq![0int]
    }

    open spec fn wf(&self) -> bool {
        true
    }

    open spec fn spec_extent(&self) -> int {
        layout_extent(self.footprint(), kind_size(self.spec_kind()))
    }

    proof fn lemma_wf(&self) {
        assert(self.footprint()[0] == 0);
        assert(fp_min(self.footprint()) == 0);
        assert(fp_max(self.footprint()) == 0);
    }

    fn extent(&self) -> (e: i64) {
        proof {
            assert(fp_min(self.footprint()) == 0);
            assert(fp_max(self.footprint()) == 0);
        }
        size_of_kind(self.kind)
    }

    fn lower_bound(&self) -> (l: i64) {
        proof {
            assert(fp_min(self.footprint()) == 0);
        }
        0
    }

    fn base(&self) -> (k: ScalarKind) {
        self.kind
    }

    fn element_count(&self) -> (n: usize) {
        1
    }

    fn element_offset(&self, i: usize) -> (o: i64) {
        0
    }
}

/// A user-defined descriptor, built by a combinator from an existing one.
///
/// One instance covers the base elements whose byte offsets are `offsets`,
/// in typemap order; `lb` and `ub` cache the byte bounds of one instance.
pub struct UserDatatype {
    base: ScalarKind,
    offsets: Vec<i64>,
    lb: i64,
    ub: i64,
}

impl Datatype for UserDatatype {
    closed spec fn base_kind(&self) -> ScalarKind {
        self.base
    }

    closed spec fn footprint(&self) -> Seq<int> {
        int_offsets(self.offsets@)
    }

    closed spec fn wf(&self) -> bool {
        &&& offsets_fit(self.footprint(), kind_size(self.base))
        &&& self.lb as int == layout_lb(self.footprint())
        &&& self.ub as int == layout_ub(self.footprint(), kind_size(self.base))
        &&& self.ub - self.lb <= i64::MAX
    }

    open spec fn spec_extent(&self) -> int {
        layout_extent(self.footprint(), kind_size(self.base_kind()))
    }

    proof fn lemma_wf(&self) {
        if self.footprint().len() > 0 {
            lemma_fp_min(self.footprint());
            lemma_fp_max(self.footprint());
            assert(fp_min(self.footprint()) <= self.footprint()[0]);
            assert(self.footprint()[0] <= fp_max(self.footprint()));
        }
    }

    fn extent(&self) -> (e: i64) {
        proof {
            self.lemma_wf();
        }
        self.ub - self.lb
    }

    fn lower_bound(&self) -> (l: i64) {
        self.lb
    }

    fn base(&self) -> (k: ScalarKind) {
        self.base
    }

    fn element_count(&self) -> (n: usize) {
        self.offsets.len()
    }

    fn element_offset(&self, i: usize) -> (o: i64) {
        self.offsets[i]
    }
}

impl UserDatatype {
    /// Constructs a new descriptor by concatenating `count` repetitions of
    /// `oldtype`.
    pub fn contiguous<D: Datatype>(count: Count, oldtype: &D) -> (r: UserDatatype)
        requires
            oldtype.wf(),
            0 <= count,
            offsets_fit(
                contiguous_footprint(oldtype.footprint(), oldtype.spec_extent(), count as int),
                kind_size(oldtype.base_kind()),
            ),
            layout_extent(
                contiguous_footprint(oldtype.footprint(), oldtype.spec_extent(), count as int),
                kind_size(oldtype.base_kind()),
            ) <= i64::MAX,
        ensures
            r.wf(),
            r.base_kind() == oldtype.base_kind(),
            r.footprint() == contiguous_footprint(
                oldtype.footprint(),
                oldtype.spec_extent(),
                count as int,
            ),
    {
        let ghost oldfp = oldtype.footprint();
        let ghost ext_g = oldtype.spec_extent();
        let mut starts: Vec<i64> = Vec::new();
        starts.push(0);
        let mut lens: Vec<Count> = Vec::new();
        lens.push(count);
        proof {
            assert(int_offsets(starts@) =~= seq![0int]);
            assert(int_counts(lens@) =~= seq![count as int]);
            assert(seq![0int].skip(1) =~= Seq::<int>::empty());
            assert(seq![count as int].skip(1) =~= Seq::<int>::empty());
            assert(placed_footprint(oldfp, ext_g, Seq::<int>::empty(), Seq::<int>::empty())
                == Seq::<int>::empty());
            assert(placed_footprint(oldfp, ext_g, seq![0int], seq![count as int])
                =~= repeat_footprint(oldfp, ext_g, 0, count as int));
        }
        from_blocks(oldtype, &starts, &lens)
    }

    /// Constructs a new descriptor out of `count` blocks of `blocklength`
    /// instances of `oldtype`, the starts of consecutive blocks placed
    /// `stride` instances apart.
    pub fn vector<D: Datatype>(count: Count, blocklength: Count, stride: Count, oldtype: &D) -> (r:
        UserDatatype)
        requires
            oldtype.wf(),
            0 <= count,
            0 <= blocklength,
            offsets_fit(strided_starts(count as int, stride * oldtype.spec_extent()), 0),
            offsets_fit(
                vector_footprint(
                    oldtype.footprint(),
                    oldtype.spec_extent(),
                    count as int,
                    blocklength as int,
                    stride as int,
                ),
                kind_size(oldtype.base_kind()),
            ),
            layout_extent(
                vector_footprint(
                    oldtype.footprint(),
                    oldtype.spec_extent(),
                    count as int,
                    blocklength as int,
                    stride as int,
                ),
                kind_size(oldtype.base_kind()),
            ) <= i64::MAX,
        ensures
            r.wf(),
            r.base_kind() == oldtype.base_kind(),
            r.footprint() == vector_footprint(
                oldtype.footprint(),
                oldtype.spec_extent(),
                count as int,
                blocklength as int,
                stride as int,
            ),
    {
        proof {
            oldtype.lemma_wf();
        }
        let ext: i64 = oldtype.extent();
        proof {
            assert(-0x80000000i128 * 0x7fffffffffffffffi128 <= (stride as int) * (ext as int)
                <= 0x80000000i128 * 0x7fffffffffffffffi128) by (nonlinear_arith)
                requires
                    -0x80000000 <= stride as int <= 0x80000000,
                    0 <= ext as int <= 0x7fffffffffffffff,
            ;
        }
        let step: i128 = (stride as i128) * (ext as i128);
        let starts: Vec<i64> = build_strided_starts(count, step);
        let lens: Vec<Count> = build_uniform_lens(count, blocklength);
        proof {
            lens_are_nonneg(lens@, count as int, blocklength as int);
        }
        from_blocks(oldtype, &starts, &lens)
    }

    /// Like `vector`, but `stride` is given in bytes rather than in
    /// instances of `oldtype`.
    pub fn heterogeneous_vector<D: Datatype>(
        count: Count,
        blocklength: Count,
        stride: Address,
        oldtype: &D,
    ) -> (r: UserDatatype)
        requires
            oldtype.wf(),
            0 <= count,
            0 <= blocklength,
            offsets_fit(strided_starts(count as int, stride as int), 0),
            offsets_fit(
                hvector_footprint(
                    oldtype.footprint(),
                    oldtype.spec_extent(),
                    count as int,
                    blocklength as int,
                    stride as int,
                ),
                kind_size(oldtype.base_kind()),
            ),
            layout_extent(
                hvector_footprint(
                    oldtype.footprint(),
                    oldtype.spec_extent(),
                    count as int,
                    blocklength as int,
                    stride as int,
                ),
                kind_size(oldtype.base_kind()),
            ) <= i64::MAX,
        ensures
            r.wf(),
            r.base_kind() == oldtype.base_kind(),
            r.footprint() == hvector_footprint(
                oldtype.footprint(),
                oldtype.spec_extent(),
                count as int,
                blocklength as int,
                stride as int,
            ),
    {
        proof {
            oldtype.lemma_wf();
        }
        let starts: Vec<i64> = build_strided_starts(count, stride as i128);
        let lens: Vec<Count> = build_uniform_lens(count, blocklength);
        proof {
            lens_are_nonneg(lens@, count as int, blocklength as int);
        }
        from_blocks(oldtype, &starts, &lens)
    }

    /// Constructs a new descriptor out of multiple blocks of individual
    /// length and displacement.  Block `i` is `blocklengths[i]` instances of
    /// `oldtype` long and displaced by `displacements[i]` instances of
    /// `oldtype`.
    pub fn indexed<D: Datatype>(
        blocklengths: &Vec<Count>,
        displacements: &Vec<Count>,
        oldtype: &D,
    ) -> (r: UserDatatype)
        requires
            oldtype.wf(),
            blocklengths@.len() == displacements@.len(),
            forall|i: int| 0 <= i < blocklengths@.len() ==> 0 <= #[trigger] blocklengths@[i],
            offsets_fit(
                scaled_displacements(int_counts(displacements@), oldtype.spec_extent()),
                0,
            ),
            offsets_fit(
                indexed_footprint(
                    oldtype.footprint(),
                    oldtype.spec_extent(),
                    int_counts(blocklengths@),
                    int_counts(displacements@),
                ),
                kind_size(oldtype.base_kind()),
            ),
            layout_extent(
                indexed_footprint(
                    oldtype.footprint(),
                    oldtype.spec_extent(),
                    int_counts(blocklengths@),
                    int_counts(displacements@),
                ),
                kind_size(oldtype.base_kind()),
            ) <= i64::MAX,
        ensures
            r.wf(),
            r.base_kind() == oldtype.base_kind(),
            r.footprint() == indexed_footprint(
                oldtype.footprint(),
                oldtype.spec_extent(),
                int_counts(blocklengths@),
                int_counts(displacements@),
            ),
    {
        proof {
            oldtype.lemma_wf();
        }
        let ext: i64 = oldtype.extent();
        let starts: Vec<i64> = build_scaled_starts(displacements, ext);
        from_blocks(oldtype, &starts, blocklengths)
    }

    /// Like `indexed`, but the displacements are given in bytes.
    pub fn heterogeneous_indexed<D: Datatype>(
        blocklengths: &Vec<Count>,
        displacements: &Vec<Address>,
        oldtype: &D,
    ) -> (r: UserDatatype)
        requires
            oldtype.wf(),
            blocklengths@.len() == displacements@.len(),
            forall|i: int| 0 <= i < blocklengths@.len() ==> 0 <= #[trigger] blocklengths@[i],
            offsets_fit(
                hindexed_footprint(
                    oldtype.footprint(),
                    oldtype.spec_extent(),
                    int_counts(blocklengths@),
                    int_offsets(displacements@),
                ),
                kind_size(oldtype.base_kind()),
            ),
            layout_extent(
                hindexed_footprint(
                    oldtype.footprint(),
                    oldtype.spec_extent(),
                    int_counts(blocklengths@),
                    int_offsets(displacements@),
                ),
                kind_size(oldtype.base_kind()),
            ) <= i64::MAX,
        ensures
            r.wf(),
            r.base_kind() == oldtype.base_kind(),
            r.footprint() == hindexed_footprint(
                oldtype.footprint(),
                oldtype.spec_extent(),
                int_counts(blocklengths@),
                int_offsets(displacements@),
            ),
    {
        proof {
            oldtype.lemma_wf();
        }
        from_blocks(oldtype, displacements, blocklengths)
    }

    /// Constructs a new descriptor out of blocks of the same length at
    /// individual displacements, displacements in instances of `oldtype`.
    pub fn indexed_block<D: Datatype>(
        blocklength: Count,
        displacements: &Vec<Count>,
        oldtype: &D,
    ) -> (r: UserDatatype)
        requires
            oldtype.wf(),
            0 <= blocklength,
            displacements@.len() <= i32::MAX,
            offsets_fit(
                scaled_displacements(int_counts(displacements@), oldtype.spec_extent()),
                0,
            ),
            offsets_fit(
                indexed_block_footprint(
                    oldtype.footprint(),
                    oldtype.spec_extent(),
                    blocklength as int,
                    int_counts(displacements@),
                ),
                kind_size(oldtype.base_kind()),
            ),
            layout_extent(
                indexed_block_footprint(
                    oldtype.footprint(),
                    oldtype.spec_extent(),
                    blocklength as int,
                    int_counts(displacements@),
                ),
                kind_size(oldtype.base_kind()),
            ) <= i64::MAX,
        ensures
            r.wf(),
            r.base_kind() == oldtype.base_kind(),
            r.footprint() == indexed_block_footprint(
                oldtype.footprint(),
                oldtype.spec_extent(),
                blocklength as int,
                int_counts(displacements@),
            ),
    {
        proof {
            oldtype.lemma_wf();
        }
        let ext: i64 = oldtype.extent();
        let starts: Vec<i64> = build_scaled_starts(displacements, ext);
        let n: Count = displacements.len() as Count;
        let lens: Vec<Count> = build_uniform_lens(n, blocklength);
        proof {
            lens_are_nonneg(lens@, n as int, blocklength as int);
        }
        from_blocks(oldtype, &starts, &lens)
    }

    /// Like `indexed_block`, but the displacements are given in bytes.
    pub fn heterogeneous_indexed_block<D: Datatype>(
        blocklength: Count,
        displacements: &Vec<Address>,
        oldtype: &D,
    ) -> (r: UserDatatype)
        requires
            oldtype.wf(),
            0 <= blocklength,
            displacements@.len() <= i32::MAX,
            offsets_fit(
                hindexed_block_footprint(
                    oldtype.footprint(),
                    oldtype.spec_extent(),
                    blocklength as int,
                    int_offsets(displacements@),
                ),
                kind_size(oldtype.base_kind()),
            ),
            layout_extent(
                hindexed_block_footprint(
                    oldtype.footprint(),
                    oldtype.spec_extent(),
                    blocklength as int,
                    int_offsets(displacements@),
                ),
                kind_size(oldtype.base_kind()),
            ) <= i64::MAX,
        ensures
            r.wf(),
            r.base_kind() == oldtype.base_kind(),
            r.footprint() == hindexed_block_footprint(
                oldtype.footprint(),
                oldtype.spec_extent(),
                blocklength as int,
                int_offsets(displacements@),
            ),
    {
        proof {
            oldtype.lemma_wf();
        }
        let n: Count = displacements.len() as Count;
        let lens: Vec<Count> = build_uniform_lens(n, blocklength);
        proof {
            lens_are_nonneg(lens@, n as int, blocklength as int);
        }
        from_blocks(oldtype, displacements, &lens)
    }

    /// Like `indexed`, but rejects mismatched argument lengths instead of
    /// requiring the caller to rule them out.
    pub fn try_indexed<D: Datatype>(
        blocklengths: &Vec<Count>,
        displacements: &Vec<Count>,
        oldtype: &D,
    ) -> (r: Option<UserDatatype>)
        requires
            oldtype.wf(),
            forall|i: int| 0 <= i < blocklengths@.len() ==> 0 <= #[trigger] blocklengths@[i],
            blocklengths@.len() == displacements@.len() ==> offsets_fit(
                scaled_displacements(int_counts(displacements@), oldtype.spec_extent()),
                0,
            ),
            blocklengths@.len() == displacements@.len() ==> offsets_fit(
                indexed_footprint(
                    oldtype.footprint(),
                    oldtype.spec_extent(),
                    int_counts(blocklengths@),
                    int_counts(displacements@),
                ),
                kind_size(oldtype.base_kind()),
            ),
            blocklengths@.len() == displacements@.len() ==> layout_extent(
                indexed_footprint(
                    oldtype.footprint(),
                    oldtype.spec_extent(),
                    int_counts(blocklengths@),
                    int_counts(displacements@),
                ),
                kind_size(oldtype.base_kind()),
            ) <= i64::MAX,
        ensures
            r is Some <==> blocklengths@.len() == displacements@.len(),
            r is Some ==> r->0.wf() && r->0.base_kind() == oldtype.base_kind()
                && r->0.footprint() == indexed_footprint(
                oldtype.footprint(),
                oldtype.spec_extent(),
                int_counts(blocklengths@),
                int_counts(displacements@),
            ),
    {
        if blocklengths.len() == displacements.len() {
            Some(Self::indexed(blocklengths, displacements, oldtype))
        } else {
            None
        }
    }

    /// Like `heterogeneous_indexed`, but rejects mismatched argument lengths
    /// instead of requiring the caller to rule them out.
    pub fn try_heterogeneous_indexed<D: Datatype>(
        blocklengths: &Vec<Count>,
        displacements: &Vec<Address>,
        oldtype: &D,
    ) -> (r: Option<UserDatatype>)
        requires
            oldtype.wf(),
            forall|i: int| 0 <= i < blocklengths@.len() ==> 0 <= #[trigger] blocklengths@[i],
            blocklengths@.len() == displacements@.len() ==> offsets_fit(
                hindexed_footprint(
                    oldtype.footprint(),
                    oldtype.spec_extent(),
                    int_counts(blocklengths@),
                    int_offsets(displacements@),
                ),
                kind_size(oldtype.base_kind()),
            ),
            blocklengths@.len() == displacements@.len() ==> layout_extent(
                hindexed_footprint(
                    oldtype.footprint(),
                    oldtype.spec_extent(),
                    int_counts(blocklengths@),
                    int_offsets(displacements@),
                ),
                kind_size(oldtype.base_kind()),
            ) <= i64::MAX,
        ensures
            r is Some <==> blocklengths@.len() == displacements@.len(),
            r is Some ==> r->0.wf() && r->0.base_kind() == oldtype.base_kind()
                && r->0.footprint() == hindexed_footprint(
                oldtype.footprint(),
                oldtype.spec_extent(),
                int_counts(blocklengths@),
                int_offsets(displacements@),
            ),
    {
        if blocklengths.len() == displacements.len() {
            Some(Self::heterogeneous_indexed(blocklengths, displacements, oldtype))
        } else {
            None
        }
    }

    /// Releases the descriptor.  A descriptor owns exactly one runtime
    /// handle; taking the value by move guarantees the release is issued
    /// exactly once and the descriptor cannot be used afterwards.
    pub fn free(self) {
    }
}

/// A direct equivalence exists between the implementing type and a
/// descriptor: values of the type are communicated as one instance of it.
pub trait Equivalence {
    /// The type of the equivalent descriptor.
    type Out: Datatype;

    /// The equivalent descriptor, as a specification value.
    spec fn spec_equivalent_datatype() -> Self::Out;

    /// Size in bytes one value of the type occupies in a region.
    spec fn spec_size_of() -> int;

    /// The descriptor to use when communicating values of this type.
    fn equivalent_datatype() -> (d: Self::Out)
        ensures
            d == Self::spec_equivalent_datatype(),
            d.wf(),
    ;

    /// Size in bytes one value of the type occupies in a region.
    fn size_of_value() -> (s: i64)
        ensures
            s as int == Self::spec_size_of(),
            1 <= s <= i64::MAX,
    ;
}

impl<'a, D: Datatype> Datatype for &'a D {
    open spec fn base_kind(&self) -> ScalarKind {
        (**self).base_kind()
    }

    open spec fn footprint(&self) -> Seq<int> {
        (**self).footprint()
    }

    open spec fn wf(&self) -> bool {
        (**self).wf()
    }

    open spec fn spec_extent(&self) -> int {
        (**self).spec_extent()
    }

    proof fn lemma_wf(&self) {
        (**self).lemma_wf();
    }

    fn extent(&self) -> (e: i64) {
        (**self).extent()
    }

    fn lower_bound(&self) -> (l: i64) {
        (**self).lower_bound()
    }

    fn base(&self) -> (k: ScalarKind) {
        (**self).base()
    }

    fn element_count(&self) -> (n: usize) {
        (**self).element_count()
    }

    fn element_offset(&self, i: usize) -> (o: i64) {
        (**self).element_offset(i)
    }
}

impl Equivalence for i8 {
    type Out = SystemDatatype;

    open spec fn spec_equivalent_datatype() -> SystemDatatype {
        SystemDatatype { kind: ScalarKind::Int8 }
    }

    open spec fn spec_size_of() -> int {
        1
    }

    fn equivalent_datatype() -> (d: SystemDatatype) {
        SystemDatatype::of_kind(ScalarKind::Int8)
    }

    fn size_of_value() -> (s: i64) {
        1
    }
}

impl Equivalence for i16 {
    type Out = SystemDatatype;

    open spec fn spec_equivalent_datatype() -> SystemDatatype {
        SystemDatatype { kind: ScalarKind::Int16 }
    }

    open spec fn spec_size_of() -> int {
        2
    }

    fn equivalent_datatype() -> (d: SystemDatatype) {
        SystemDatatype::of_kind(ScalarKind::Int16)
    }

    fn size_of_value() -> (s: i64) {
        2
    }
}

impl Equivalence for i32 {
    type Out = SystemDatatype;

    open spec fn spec_equivalent_datatype() -> SystemDatatype {
        SystemDatatype { kind: ScalarKind::Int32 }
    }

    open spec fn spec_size_of() -> int {
        4
    }

    fn equivalent_datatype() -> (d: SystemDatatype) {
        SystemDatatype::of_kind(ScalarKind::Int32)
    }

    fn size_of_value() -> (s: i64) {
        4
    }
}

impl Equivalence for i64 {
    type Out = SystemDatatype;

    open spec fn spec_equivalent_datatype() -> SystemDatatype {
        SystemDatatype { kind: ScalarKind::Int64 }
    }

    open spec fn spec_size_of() -> int {
        8
    }

    fn equivalent_datatype() -> (d: SystemDatatype) {
        SystemDatatype::of_kind(ScalarKind::Int64)
    }

    fn size_of_value() -> (s: i64) {
        8
    }
}

impl Equivalence for u8 {
    type Out = SystemDatatype;

    open spec fn spec_equivalent_datatype() -> SystemDatatype {
        SystemDatatype { kind: ScalarKind::UInt8 }
    }

    open spec fn spec_size_of() -> int {
        1
    }

    fn equivalent_datatype() -> (d: SystemDatatype) {
        SystemDatatype::of_kind(ScalarKind::UInt8)
    }

    fn size_of_value() -> (s: i64) {
        1
    }
}

impl Equivalence for u16 {
    type Out = SystemDatatype;

    open spec fn spec_equivalent_datatype() -> SystemDatatype {
        SystemDatatype { kind: ScalarKind::UInt16 }
    }

    open spec fn spec_size_of() -> int {
        2
    }

    fn equivalent_datatype() -> (d: SystemDatatype) {
        SystemDatatype::of_kind(ScalarKind::UInt16)
    }

    fn size_of_value() -> (s: i64) {
        2
    }
}

impl Equivalence for u32 {
    type Out = SystemDatatype;

    open spec fn spec_equivalent_datatype() -> SystemDatatype {
        SystemDatatype { kind: ScalarKind::UInt32 }
    }

    open spec fn spec_size_of() -> int {
        4
    }

    fn equivalent_datatype() -> (d: SystemDatatype) {
        SystemDatatype::of_kind(ScalarKind::UInt32)
    }

    fn size_of_value() -> (s: i64) {
        4
    }
}

impl Equivalence for u64 {
    type Out = SystemDatatype;

    open spec fn spec_equivalent_datatype() -> SystemDatatype {
        SystemDatatype { kind: ScalarKind::UInt64 }
    }

    open spec fn spec_size_of() -> int {
        8
    }

    fn equivalent_datatype() -> (d: SystemDatatype) {
        SystemDatatype::of_kind(ScalarKind::UInt64)
    }

    fn size_of_value() -> (s: i64) {
        8
    }
}

/// Uniform block lengths built from a non-negative length are non-negative.
proof fn lens_are_nonneg(lens: Seq<i32>, count: int, len: int)
    requires
        0 <= len,
        int_counts(lens) == uniform_lens(count, len),
    ensures
        forall|i: int| 0 <= i < lens.len() ==> 0 <= #[trigger] lens[i],
{
    assert(lens.len() == int_counts(lens).len());
    assert(int_counts(lens).len() == uniform_lens(count, len).len());
    assert forall|i: int| 0 <= i < lens.len() implies 0 <= #[trigger] lens[i] by {
        assert(int_counts(lens)[i] == lens[i] as int);
        assert(int_counts(lens)[i] == uniform_lens(count, len)[i]);
        assert(uniform_lens(count, len)[i] == len);
    }
}

/// Appends to `offsets` the offsets of `n` consecutive instances of
/// `oldtype`, the first starting at byte `start`.
#[verifier::loop_isolation(false)]
fn append_block<D: Datatype>(offsets: &mut Vec<i64>, oldtype: &D, start: i64, n: Count)
    requires
        oldtype.wf(),
        0 <= n,
        offsets_fit(
            repeat_footprint(
                oldtype.footprint(),
                oldtype.spec_extent(),
                start as int,
                n as int,
            ),
            kind_size(oldtype.base_kind()),
        ),
    ensures
        int_offsets(final(offsets)@) == int_offsets(old(offsets)@) + repeat_footprint(
            oldtype.footprint(),
            oldtype.spec_extent(),
            start as int,
            n as int,
        ),
{
    let ghost oldfp = oldtype.footprint();
    let ghost ext_g = oldtype.spec_extent();
    let ghost sz = kind_size(oldtype.base_kind());
    let ghost orig = int_offsets(offsets@);
    proof {
        oldtype.lemma_wf();
    }
    let ext: i64 = oldtype.extent();
    let nelems: usize = oldtype.element_count();
    let mut j: Count = 0;
    let mut cur: i128 = start as i128;
    while j < n
        invariant
            0 <= j <= n,
            cur == start as int + (j as int) * ext_g,
            int_offsets(offsets@) == orig + repeat_footprint(oldfp, ext_g, start as int, j as int),
        decreases n - j,
    {
        proof {
            lemma_repeat_split(oldfp, ext_g, start as int, j as int, n as int);
            assert(repeat_footprint(oldfp, ext_g, cur as int, n - j) == shift_all(
                oldfp,
                cur as int,
            ) + repeat_footprint(oldfp, ext_g, cur as int + ext_g, n - j - 1));
            assert(repeat_footprint(oldfp, ext_g, start as int, n as int) =~= repeat_footprint(
                oldfp,
                ext_g,
                start as int,
                j as int,
            ) + shift_all(oldfp, cur as int) + repeat_footprint(
                oldfp,
                ext_g,
                cur as int + ext_g,
                n - j - 1,
            ));
            lemma_offsets_fit_sub(
                repeat_footprint(oldfp, ext_g, start as int, n as int),
                repeat_footprint(oldfp, ext_g, start as int, j as int),
                shift_all(oldfp, cur as int),
                repeat_footprint(oldfp, ext_g, cur as int + ext_g, n - j - 1),
                sz,
            );
        }
        let ghost pre_inner = int_offsets(offsets@);
        let mut m: usize = 0;
        while m < nelems
            invariant
                0 <= m <= nelems,
                int_offsets(offsets@) == pre_inner + shift_all(oldfp, cur as int).take(m as int),
            decreases nelems - m,
        {
            let off: i64 = oldtype.element_offset(m);
            proof {
                assert(shift_all(oldfp, cur as int)[m as int] == oldfp[m as int] + cur);
                assert(0 <= (j as int) * ext_g <= 0x80000000i128 * 0x7fffffffffffffffi128)
                    by (nonlinear_arith)
                    requires
                        0 <= j as int <= 0x80000000,
                        0 <= ext_g <= 0x7fffffffffffffff,
                ;
            }
            let v: i128 = cur + off as i128;
            proof {
                assert(v == shift_all(oldfp, cur as int)[m as int]);
                assert(i64::MIN <= v <= i64::MAX);
            }
            let ghost snap = offsets@;
            offsets.push(v as i64);
            proof {
                assert(v as i64 as int == v as int);
                assert(int_offsets(offsets@) =~= int_offsets(snap).push(v as int));
                assert(shift_all(oldfp, cur as int).take(m as int + 1) =~= shift_all(
                    oldfp,
                    cur as int,
                ).take(m as int).push(shift_all(oldfp, cur as int)[m as int]));
                assert(int_offsets(offsets@) =~= pre_inner + shift_all(oldfp, cur as int).take(
                    m as int + 1,
                ));
            }
            m += 1;
        }
        proof {
            assert(shift_all(oldfp, cur as int).take(nelems as int) =~= shift_all(
                oldfp,
                cur as int,
            ));
            lemma_repeat_split(oldfp, ext_g, start as int, j as int, j as int + 1);
            assert(repeat_footprint(oldfp, ext_g, cur as int + ext_g, 0) == Seq::<int>::empty());
            assert(repeat_footprint(oldfp, ext_g, cur as int, 1) =~= shift_all(oldfp, cur as int));
            assert(0 <= (j as int + 1) * ext_g <= 0x80000000i128 * 0x7fffffffffffffffi128)
                by (nonlinear_arith)
                requires
                    0 <= j as int + 1 <= 0x80000000,
                    0 <= ext_g <= 0x7fffffffffffffff,
            ;
            assert((j as int + 1) * ext_g == (j as int) * ext_g + ext_g) by (nonlinear_arith);
        }
        j += 1;
        cur = cur + ext as i128;
    }
}

/// Computes the byte bounds of a layout from its offsets.
#[verifier::loop_isolation(false)]
fn compute_bounds(offsets: &Vec<i64>, sz: i64) -> (r: (i64, i64))
    requires
        1 <= sz <= 8,
        offsets_fit(int_offsets(offsets@), sz as int),
    ensures
        r.0 as int == layout_lb(int_offsets(offsets@)),
        r.1 as int == layout_ub(int_offsets(offsets@), sz as int),
{
    let ghost fp = int_offsets(offsets@);
    if offsets.len() == 0 {
        return (0, 0);
    }
    let mut lo: i64 = offsets[0];
    let mut hi: i64 = offsets[0];
    let mut i: usize = 1;
    proof {
        assert(fp.take(1) =~= seq![fp[0]]);
    }
    while i < offsets.len()
        invariant
            1 <= i <= offsets@.len(),
            lo as int == fp_min(fp.take(i as int)),
            hi as int == fp_max(fp.take(i as int)),
        decreases offsets@.len() - i,
    {
        proof {
            lemma_fp_min_push(fp.take(i as int), fp[i as int]);
            lemma_fp_max_push(fp.take(i as int), fp[i as int]);
            assert(fp.take(i as int).push(fp[i as int]) =~= fp.take(i as int + 1));
        }
        let x: i64 = offsets[i];
        if x < lo {
            lo = x;
        }
        if x > hi {
            hi = x;
        }
        i += 1;
    }
    proof {
        assert(fp.take(offsets@.len() as int) =~= fp);
        lemma_fp_max(fp);
        let ghost k = choose|k: int| 0 <= k < fp.len() && #[trigger] fp[k] == fp_max(fp);
        assert(fp[k] + sz <= i64::MAX);
    }
    (lo, hi + sz)
}

/// Builds a user descriptor whose layout is `lens[b]` consecutive instances
/// of `oldtype` starting at byte `starts[b]`, for each block `b` in order.
#[verifier::loop_isolation(false)]
fn from_blocks<D: Datatype>(oldtype: &D, starts: &Vec<i64>, lens: &Vec<Count>) -> (r: UserDatatype)
    requires
        oldtype.wf(),
        starts@.len() == lens@.len(),
        forall|i: int| 0 <= i < lens@.len() ==> 0 <= #[trigger] lens@[i],
        offsets_fit(
            placed_footprint(
                oldtype.footprint(),
                oldtype.spec_extent(),
                int_offsets(starts@),
                int_counts(lens@),
            ),
            kind_size(oldtype.base_kind()),
        ),
        layout_extent(
            placed_footprint(
                oldtype.footprint(),
                oldtype.spec_extent(),
                int_offsets(starts@),
                int_counts(lens@),
            ),
            kind_size(oldtype.base_kind()),
        ) <= i64::MAX,
    ensures
        r.wf(),
        r.base_kind() == oldtype.base_kind(),
        r.footprint() == placed_footprint(
            oldtype.footprint(),
            oldtype.spec_extent(),
            int_offsets(starts@),
            int_counts(lens@),
        ),
{
    let ghost oldfp = oldtype.footprint();
    let ghost ext_g = oldtype.spec_extent();
    let ghost sz = kind_size(oldtype.base_kind());
    let ghost istarts = int_offsets(starts@);
    let ghost ilens = int_counts(lens@);
    let ghost total = placed_footprint(oldfp, ext_g, istarts, ilens);
    proof {
        oldtype.lemma_wf();
    }
    let mut offsets: Vec<i64> = Vec::new();
    let nblocks: usize = starts.len();
    let mut b: usize = 0;
    proof {
        assert(istarts.take(0) =~= Seq::<int>::empty());
        assert(ilens.take(0) =~= Seq::<int>::empty());
    }
    while b < nblocks
        invariant
            0 <= b <= nblocks,
            int_offsets(offsets@) == placed_footprint(
                oldfp,
                ext_g,
                istarts.take(b as int),
                ilens.take(b as int),
            ),
        decreases nblocks - b,
    {
        proof {
            lemma_placed_split(oldfp, ext_g, istarts, ilens, b as int);
            assert(istarts.skip(b as int)[0] == istarts[b as int]);
            assert(ilens.skip(b as int)[0] == ilens[b as int]);
            assert(istarts.skip(b as int).skip(1) =~= istarts.skip(b as int + 1));
            assert(ilens.skip(b as int).skip(1) =~= ilens.skip(b as int + 1));
            assert(total =~= placed_footprint(oldfp, ext_g, istarts.take(b as int), ilens.take(b as int))
                + repeat_footprint(oldfp, ext_g, istarts[b as int], ilens[b as int])
                + placed_footprint(oldfp, ext_g, istarts.skip(b as int + 1), ilens.skip(b as int + 1)));
            lemma_offsets_fit_sub(
                total,
                placed_footprint(oldfp, ext_g, istarts.take(b as int), ilens.take(b as int)),
                repeat_footprint(oldfp, ext_g, istarts[b as int], ilens[b as int]),
                placed_footprint(oldfp, ext_g, istarts.skip(b as int + 1), ilens.skip(b as int + 1)),
                sz,
            );
        }
        append_block(&mut offsets, oldtype, starts[b], lens[b]);
        proof {
            lemma_placed_split(
                oldfp,
                ext_g,
                istarts.take(b as int + 1),
                ilens.take(b as int + 1),
                b as int,
            );
            assert(istarts.take(b as int + 1).take(b as int) =~= istarts.take(b as int));
            assert(ilens.take(b as int + 1).take(b as int) =~= ilens.take(b as int));
            assert(istarts.take(b as int + 1).skip(b as int) =~= seq![istarts[b as int]]);
            assert(ilens.take(b as int + 1).skip(b as int) =~= seq![ilens[b as int]]);
            assert(seq![istarts[b as int]].skip(1) =~= Seq::<int>::empty());
            assert(seq![ilens[b as int]].skip(1) =~= Seq::<int>::empty());
            assert(placed_footprint(oldfp, ext_g, Seq::<int>::empty(), Seq::<int>::empty())
                == Seq::<int>::empty());
            assert(placed_footprint(oldfp, ext_g, seq![istarts[b as int]], seq![ilens[b as int]])
                =~= repeat_footprint(oldfp, ext_g, istarts[b as int], ilens[b as int]));
        }
        b += 1;
    }
    proof {
        assert(istarts.take(nblocks as int) =~= istarts);
        assert(ilens.take(nblocks as int) =~= ilens);
    }
    let base: ScalarKind = oldtype.base();
    let szk: i64 = size_of_kind(base);
    let bounds: (i64, i64) = compute_bounds(&offsets, szk);
    UserDatatype { base, offsets, lb: bounds.0, ub: bounds.1 }
}

/// Offsets of `count` back-to-back instances of a layout.
pub open spec fn contiguous_footprint(old: Seq<int>, ext: int, count: int) -> Seq<int> {
    repeat_footprint(old, ext, 0, count)
}

/// `count` block starts spaced `step` bytes apart, beginning at zero.
pub open spec fn strided_starts(count: int, step: int) -> Seq<int> {
    Seq::new(count as nat, |k: int| k * step)
}

/// `count` copies of the same block length.
pub open spec fn uniform_lens(count: int, len: int) -> Seq<int> {
    Seq::new(count as nat, |k: int| len)
}

/// Displacements given in instances of the old layout, scaled to bytes.
pub open spec fn scaled_displacements(disps: Seq<int>, ext: int) -> Seq<int> {
    disps.map_values(|d: int| d * ext)
}

/// Offsets of `count` blocks of `blocklength` instances, block starts spaced
/// `stride` instances apart.
pub open spec fn vector_footprint(old: Seq<int>, ext: int, count: int, blocklength: int, stride: int) -> Seq<int> {
    placed_footprint(old, ext, strided_starts(count, stride * ext), uniform_lens(count, blocklength))
}

/// Offsets of `count` blocks of `blocklength` instances, block starts spaced
/// `stride` bytes apart.
pub open spec fn hvector_footprint(old: Seq<int>, ext: int, count: int, blocklength: int, stride: int) -> Seq<int> {
    placed_footprint(old, ext, strided_starts(count, stride), uniform_lens(count, blocklength))
}

/// Offsets of one block per (length, displacement) pair, displacements in
/// instances of the old layout.
pub open spec fn indexed_footprint(old: Seq<int>, ext: int, lens: Seq<int>, disps: Seq<int>) -> Seq<int> {
    placed_footprint(old, ext, scaled_displacements(disps, ext), lens)
}

/// Offsets of one block per (length, displacement) pair, displacements in
/// bytes.
pub open spec fn hindexed_footprint(old: Seq<int>, ext: int, lens: Seq<int>, disps: Seq<int>) -> Seq<int> {
    placed_footprint(old, ext, disps, lens)
}

/// Offsets of equal-length blocks at the given displacements, displacements
/// in instances of the old layout.
pub open spec fn indexed_block_footprint(old: Seq<int>, ext: int, blocklength: int, disps: Seq<int>) -> Seq<int> {
    placed_footprint(old, ext, scaled_displacements(disps, ext), uniform_lens(disps.len() as int, blocklength))
}

/// Offsets of equal-length blocks at the given displacements, displacements
/// in bytes.
pub open spec fn hindexed_block_footprint(old: Seq<int>, ext: int, blocklength: int, disps: Seq<int>) -> Seq<int> {
    placed_footprint(old, ext, disps, uniform_lens(disps.len() as int, blocklength))
}

/// Law: one contiguous repetition covers exactly the original layout, so a
/// descriptor built as one contiguous instance of `old` has the same element
/// footprint, bounds and extent as `old` itself.
pub proof fn lemma_contiguous_one_identity(old: Seq<int>, ext: int)
    ensures
        contiguous_footprint(old, ext, 1) == old,
        forall|sz: int| layout_extent(#[trigger] contiguous_footprint(old, ext, 1), sz)
            == layout_extent(old, sz),
{
    assert(repeat_footprint(old, ext, 0 + ext, 0) == Seq::<int>::empty());
    assert(contiguous_footprint(old, ext, 1) =~= shift_all(old, 0));
    assert(contiguous_footprint(old, ext, 1) =~= old);
}

/// Builds the start offsets `0, step, 2 * step, ...`.
#[verifier::loop_isolation(false)]
fn build_strided_starts(count: Count, step: i128) -> (r: Vec<i64>)
    requires
        0 <= count,
        -0x80000000i128 * 0x7fffffffffffffffi128 <= step <= 0x80000000i128 * 0x7fffffffffffffffi128,
        offsets_fit(strided_starts(count as int, step as int), 0),
    ensures
        int_offsets(r@) == strided_starts(count as int, step as int),
{
    let ghost target = strided_starts(count as int, step as int);
    let mut r: Vec<i64> = Vec::new();
    let mut k: Count = 0;
    proof {
        assert(int_offsets(r@) =~= target.take(0));
    }
    while k < count
        invariant
            0 <= k <= count,
            int_offsets(r@) == target.take(k as int),
        decreases count - k,
    {
        proof {
            assert(-0x80000000i128 * 0x80000000i128 * 0x7fffffffffffffffi128 <= (k as int) * (
            step as int) <= 0x80000000i128 * 0x80000000i128 * 0x7fffffffffffffffi128)
                by (nonlinear_arith)
                requires
                    0 <= k as int <= 0x80000000,
                    -0x80000000i128 * 0x7fffffffffffffffi128 <= step as int <= 0x80000000i128
                        * 0x7fffffffffffffffi128,
            ;
        }
        let v: i128 = (k as i128) * step;
        proof {
            assert(target[k as int] == (k as int) * (step as int));
            assert(i64::MIN <= v <= i64::MAX);
        }
        let ghost snap = r@;
        r.push(v as i64);
        proof {
            assert(v as i64 as int == v as int);
            assert(int_offsets(r@) =~= int_offsets(snap).push(v as int));
            assert(target.take(k as int + 1) =~= target.take(k as int).push(target[k as int]));
        }
        k += 1;
    }
    proof {
        assert(target.take(count as int) =~= target);
    }
    r
}

/// Builds `count` copies of the same block length.
#[verifier::loop_isolation(false)]
fn build_uniform_lens(count: Count, len: Count) -> (r: Vec<Count>)
    requires
        0 <= count,
    ensures
        int_counts(r@) == uniform_lens(count as int, len as int),
        r@.len() == count as int,
{
    let ghost target = uniform_lens(count as int, len as int);
    let mut r: Vec<Count> = Vec::new();
    let mut k: Count = 0;
    proof {
        assert(int_counts(r@) =~= target.take(0));
    }
    while k < count
        invariant
            0 <= k <= count,
            r@.len() == k as int,
            int_counts(r@) == target.take(k as int),
        decreases count - k,
    {
        let ghost snap = r@;
        r.push(len);
        proof {
            assert(int_counts(r@) =~= int_counts(snap).push(len as int));
            assert(target.take(k as int + 1) =~= target.take(k as int).push(target[k as int]));
        }
        k += 1;
    }
    proof {
        assert(target.take(count as int) =~= target);
    }
    r
}

/// Builds block starts from displacements given in instances of a layout
/// with extent `ext`.
#[verifier::loop_isolation(false)]
fn build_scaled_starts(disps: &Vec<Count>, ext: i64) -> (r: Vec<i64>)
    requires
        0 <= ext,
        offsets_fit(scaled_displacements(int_counts(disps@), ext as int), 0),
    ensures
        int_offsets(r@) == scaled_displacements(int_counts(disps@), ext as int),
{
    let ghost target = scaled_displacements(int_counts(disps@), ext as int);
    let mut r: Vec<i64> = Vec::new();
    let mut k: usize = 0;
    proof {
        assert(int_offsets(r@) =~= target.take(0));
    }
    while k < disps.len()
        invariant
            0 <= k <= disps@.len(),
            int_offsets(r@) == target.take(k as int),
        decreases disps@.len() - k,
    {
        let d: Count = disps[k];
        proof {
            assert(-0x80000000i128 * 0x7fffffffffffffffi128 <= (d as int) * (ext as int)
                <= 0x80000000i128 * 0x7fffffffffffffffi128) by (nonlinear_arith)
                requires
                    -0x80000000 <= d as int <= 0x80000000,
                    0 <= ext as int <= 0x7fffffffffffffff,
            ;
        }
        let v: i128 = (d as i128) * (ext as i128);
        proof {
            assert(int_counts(disps@)[k as int] == d as int);
            assert(target[k as int] == (d as int) * (ext as int));
            assert(i64::MIN <= v <= i64::MAX);
        }
        let ghost snap = r@;
        r.push(v as i64);
        proof {
            assert(v as i64 as int == v as int);
            assert(int_offsets(r@) =~= int_offsets(snap).push(v as int));
            assert(target.take(k as int + 1) =~= target.take(k as int).push(target[k as int]));
        }
        k += 1;
    }
    proof {
        assert(target.take(disps@.len() as int) =~= target);
    }
    r
}

} // verus!
