//! Buffer capabilities: what a communication call needs to know about a
//! memory region.
//!
//! A buffer is a region holding `count` instances of an associated datatype.
//! For any type with an equivalence to a descriptor, and for slices of such
//! types, the capabilities are derived: one value counts as one instance, a
//! slice counts as many instances as its length.  A view pairs a region with
//! a caller-chosen descriptor and count instead.

use vstd::prelude::*;

use conv::ConvUtil;

verus! {

use vstd::view::View as _;

use crate::Count;
use crate::datatype::{
    Datatype, Equivalence, kind_size, layout_extent, layout_lb, layout_ub, lemma_fp_min,
    lemma_fp_max, fp_min, fp_max,
};

/// Something that has an associated datatype descriptor.
pub trait AsDatatype {
    /// The type of the associated descriptor.
    type Out: Datatype;

    /// The associated descriptor, as a specification value.
    spec fn spec_as_datatype(&self) -> Self::Out;

    /// The associated descriptor.
    fn as_datatype(&self) -> (d: Self::Out)
        ensures
            d == self.spec_as_datatype(),
    ;
}

impl<T: Equivalence> AsDatatype for T {
    type Out = <T as Equivalence>::Out;

    open spec fn spec_as_datatype(&self) -> Self::Out {
        T::spec_equivalent_datatype()
    }

    fn as_datatype(&self) -> (d: Self::Out) {
        T::equivalent_datatype()
    }
}

impl<T: Equivalence> AsDatatype for [T] {
    type Out = <T as Equivalence>::Out;

    open spec fn spec_as_datatype(&self) -> Self::Out {
        T::spec_equivalent_datatype()
    }

    fn as_datatype(&self) -> (d: Self::Out) {
        T::equivalent_datatype()
    }
}

/// A countable collection of things.
pub trait Collection {
    /// How many things are in this collection.
    spec fn spec_count(&self) -> int;

    /// A collection never holds a negative number of things.
    proof fn lemma_count_nonneg(&self)
        ensures
            0 <= self.spec_count(),
    ;

    /// How many things are in this collection, as the runtime counts them.
    /// The count of a collection too long for the runtime's count width is
    /// not representable; such collections are rejected by `count_from_len`.
    fn count(&self) -> (c: Count)
        requires
            self.spec_count() <= i32::MAX as int,
        ensures
            c as int == self.spec_count(),
    ;
}

/// Relies on conv's `ConvUtil::value_as` for `i32` from `usize`: the
/// conversion preserves the value exactly and fails precisely when the value
/// exceeds `i32::MAX`.
#[verifier::external_body]
fn usize_value_as_count(len: usize) -> (r: Option<Count>)
    ensures
        r is Some <==> len as int <= i32::MAX as int,
        r is Some ==> r->0 as int == len as int,
{
    len.value_as::<Count>().ok()
}

/// Element count of a collection of `len` things: the length itself, when it
/// is representable in the runtime's count width, and nothing otherwise.
pub fn count_from_len(len: usize) -> (r: Option<Count>)
    ensures
        r is Some <==> len as int <= i32::MAX as int,
        r is Some ==> r->0 as int == len as int,
{
    usize_value_as_count(len)
}

impl<T: Equivalence> Collection for T {
    open spec fn spec_count(&self) -> int {
        1
    }

    proof fn lemma_count_nonneg(&self) {
    }

    fn count(&self) -> (c: Count) {
        1
    }
}

impl<T: Equivalence> Collection for [T] {
    open spec fn spec_count(&self) -> int {
        self@.len() as int
    }

    proof fn lemma_count_nonneg(&self) {
    }

    fn count(&self) -> (c: Count) {
        let r: Option<Count> = count_from_len(self.len());
        match r {
            Some(c) => c,
            None => {
                proof {
                    assert(false);
                }
                0
            },
        }
    }
}

/// A buffer: a memory region that contains `spec_count()` instances of the
/// associated datatype, readable by a communication call.
pub trait Buffer: Collection + AsDatatype {

}

/// A mutable buffer: a memory region that contains `spec_count()` instances
/// of the associated datatype, writable by a communication call.
pub trait BufferMut: Collection + AsDatatype {

}

impl<T: Equivalence> Buffer for T {

}

impl<T: Equivalence> Buffer for [T] {

}

impl<T: Equivalence> BufferMut for T {

}

impl<T: Equivalence> BufferMut for [T] {

}

/// Byte offset of an element of the `c`-th instance of a layout whose
/// instances are placed `ext` bytes apart, the element sitting at byte `off`
/// of its instance.
pub open spec fn instance_offset(c: int, ext: int, off: int) -> int {
    c * ext + off
}

/// `count` instances of a layout with offsets `fp` over a base scalar of
/// `sz` bytes, placed `ext` bytes apart, lie entirely inside a region of
/// `region_bytes` bytes.
pub open spec fn footprint_fits(fp: Seq<int>, sz: int, ext: int, count: int, region_bytes: int) -> bool {
    forall|c: int, i: int|
        0 <= c < count && 0 <= i < fp.len() ==> 0 <= #[trigger] instance_offset(c, ext, fp[i])
            && instance_offset(c, ext, fp[i]) + sz <= region_bytes
}

/// The fit of a whole footprint reduces to a check on its byte bounds: the
/// first instance must not start before the region and the last must not end
/// past it.
pub proof fn lemma_footprint_fits_check(fp: Seq<int>, sz: int, count: int, region_bytes: int)
    requires
        1 <= sz,
        0 <= count,
    ensures
        footprint_fits(fp, sz, layout_extent(fp, sz), count, region_bytes) <==> (count == 0
            || fp.len() == 0 || (0 <= layout_lb(fp) && (count - 1) * layout_extent(fp, sz)
            + layout_ub(fp, sz) <= region_bytes)),
{
    let ext = layout_extent(fp, sz);
    if count == 0 || fp.len() == 0 {
        assert(footprint_fits(fp, sz, ext, count, region_bytes));
    } else {
        lemma_fp_min(fp);
        lemma_fp_max(fp);
        let lb = layout_lb(fp);
        let ub = layout_ub(fp, sz);
        if 0 <= lb && (count - 1) * ext + ub <= region_bytes {
            assert forall|c: int, i: int| 0 <= c < count && 0 <= i < fp.len() implies 0
                <= #[trigger] instance_offset(c, ext, fp[i]) && instance_offset(c, ext, fp[i]) + sz
                <= region_bytes by {
                assert(lb <= fp[i] && fp[i] + sz <= ub);
                assert(0 <= c * ext && c * ext <= (count - 1) * ext) by (nonlinear_arith)
                    requires
                        0 <= c <= count - 1,
                        0 <= ext,
                ;
            }
        }
        if footprint_fits(fp, sz, ext, count, region_bytes) {
            let imin = choose|i: int| 0 <= i < fp.len() && #[trigger] fp[i] == fp_min(fp);
            assert(instance_offset(0, ext, fp[imin]) == lb);
            assert(0 <= instance_offset(0, ext, fp[imin]));
            let imax = choose|i: int| 0 <= i < fp.len() && #[trigger] fp[i] == fp_max(fp);
            assert(instance_offset(count - 1, ext, fp[imax]) + sz == (count - 1) * ext + ub);
            assert(instance_offset(count - 1, ext, fp[imax]) + sz <= region_bytes);
        }
    }
}

/// A buffer with a caller-chosen count and datatype over a borrowed region,
/// for layouts the static equivalence registry cannot express.
pub struct View<'d, 'b, D: Datatype, T: Equivalence> {
    datatype: &'d D,
    count: Count,
    buffer: &'b [T],
}

impl<'d, 'b, D: Datatype, T: Equivalence> View<'d, 'b, D, T> {
    /// What every view upholds: the chosen instances lie inside the
    /// borrowed region.
    #[verifier::type_invariant]
    pub closed spec fn inv(&self) -> bool {
        &&& self.datatype.wf()
        &&& 0 <= self.count
        &&& footprint_fits(
            self.datatype.footprint(),
            kind_size(self.datatype.base_kind()),
            self.datatype.spec_extent(),
            self.count as int,
            self.buffer@.len() * T::spec_size_of(),
        )
    }

    /// Returns a view of `buffer` containing `count` instances of
    /// `datatype`.  The instances must lie inside the buffer; the caller is
    /// responsible for this, exactly as for raw address arithmetic.
    pub fn with_count_and_datatype(buffer: &'b [T], count: Count, datatype: &'d D) -> (r: View<
        'd,
        'b,
        D,
        T,
    >)
        requires
            datatype.wf(),
            0 <= count,
            footprint_fits(
                datatype.footprint(),
                kind_size(datatype.base_kind()),
                datatype.spec_extent(),
                count as int,
                buffer@.len() * T::spec_size_of(),
            ),
        ensures
            r.spec_count() == count as int,
            r.spec_as_datatype() == datatype,
    {
        View { datatype, count, buffer }
    }

    /// Returns a view of `buffer` containing `count` instances of
    /// `datatype` after checking that the instances lie inside the buffer,
    /// and nothing when they do not.
    pub fn try_with_count_and_datatype(buffer: &'b [T], count: Count, datatype: &'d D) -> (r:
        Option<View<'d, 'b, D, T>>)
        requires
            datatype.wf(),
        ensures
            r is Some <==> 0 <= count && footprint_fits(
                datatype.footprint(),
                kind_size(datatype.base_kind()),
                datatype.spec_extent(),
                count as int,
                buffer@.len() * T::spec_size_of(),
            ),
            r is Some ==> r->0.spec_count() == count as int && r->0.spec_as_datatype() == datatype,
    {
        if count < 0 {
            return None;
        }
        if region_fits::<D, T>(buffer.len(), count, datatype) {
            Some(View { datatype, count, buffer })
        } else {
            None
        }
    }
}

/// Checks that `count` instances of `datatype` lie inside a region of `len`
/// values of `T`.
fn region_fits<D: Datatype, T: Equivalence>(len: usize, count: Count, datatype: &D) -> (r: bool)
    requires
        datatype.wf(),
        0 <= count,
    ensures
        r == footprint_fits(
            datatype.footprint(),
            kind_size(datatype.base_kind()),
            datatype.spec_extent(),
            count as int,
            len as int * T::spec_size_of(),
        ),
{
    let ghost fp = datatype.footprint();
    let ghost sz = kind_size(datatype.base_kind());
    proof {
        datatype.lemma_wf();
        lemma_footprint_fits_check(fp, sz, count as int, len as int * T::spec_size_of());
    }
    let tsize: i64 = T::size_of_value();
    proof {
        assert(0 <= len as int * tsize as int <= 0x10000000000000000i128 * 0x7fffffffffffffffi128)
            by (nonlinear_arith)
            requires
                0 <= len as int <= 0x10000000000000000,
                1 <= tsize as int <= 0x7fffffffffffffff,
        ;
    }
    let region: i128 = len as i128 * tsize as i128;
    if count == 0 {
        return true;
    }
    if datatype.element_count() == 0 {
        return true;
    }
    let lb: i64 = datatype.lower_bound();
    let ext: i64 = datatype.extent();
    let hi: i128 = lb as i128 + ext as i128;
    proof {
        assert(hi == layout_ub(fp, sz));
        assert(0 <= (count - 1) as int * ext as int <= 0x80000000i128 * 0x7fffffffffffffffi128)
            by (nonlinear_arith)
            requires
                0 <= (count - 1) as int <= 0x80000000,
                0 <= ext as int <= 0x7fffffffffffffff,
        ;
    }
    lb >= 0 && (count - 1) as i128 * ext as i128 + hi <= region
}

impl<'d, 'b, D: Datatype, T: Equivalence> AsDatatype for View<'d, 'b, D, T> {
    type Out = &'d D;

    closed spec fn spec_as_datatype(&self) -> &'d D {
        self.datatype
    }

    fn as_datatype(&self) -> (d: &'d D) {
        self.datatype
    }
}

impl<'d, 'b, D: Datatype, T: Equivalence> Collection for View<'d, 'b, D, T> {
    closed spec fn spec_count(&self) -> int {
        if self.count < 0 {
            0
        } else {
            self.count as int
        }
    }

    proof fn lemma_count_nonneg(&self) {
    }

    fn count(&self) -> (c: Count) {
        proof {
            use_type_invariant(self);
        }
        self.count
    }
}

impl<'d, 'b, D: Datatype, T: Equivalence> Buffer for View<'d, 'b, D, T> {

}

/// A mutable buffer with a caller-chosen count and datatype over a borrowed
/// region, for layouts the static equivalence registry cannot express.
pub struct MutView<'d, 'b, D: Datatype, T: Equivalence> {
    datatype: &'d D,
    count: Count,
    buffer: &'b mut [T],
}

impl<'d, 'b, D: Datatype, T: Equivalence> MutView<'d, 'b, D, T> {
    /// What every mutable view upholds: the chosen instances lie inside the
    /// borrowed region.
    #[verifier::type_invariant]
    closed spec fn inv(&self) -> bool {
        &&& self.datatype.wf()
        &&& 0 <= self.count
        &&& footprint_fits(
            self.datatype.footprint(),
            kind_size(self.datatype.base_kind()),
            self.datatype.spec_extent(),
            self.count as int,
            self.buffer@.len() * T::spec_size_of(),
        )
    }

    /// Returns a mutable view of `buffer` containing `count` instances of
    /// `datatype`.  The instances must lie inside the buffer; the caller is
    /// responsible for this, exactly as for raw address arithmetic.
    pub fn with_count_and_datatype(buffer: &'b mut [T], count: Count, datatype: &'d D) -> (r:
        MutView<'d, 'b, D, T>)
        requires
            datatype.wf(),
            0 <= count,
            footprint_fits(
                datatype.footprint(),
                kind_size(datatype.base_kind()),
                datatype.spec_extent(),
                count as int,
                buffer@.len() * T::spec_size_of(),
            ),
        ensures
            r.spec_count() == count as int,
            r.spec_as_datatype() == datatype,
    {
        MutView { datatype, count, buffer }
    }

    /// Returns a mutable view of `buffer` containing `count` instances of
    /// `datatype` after checking that the instances lie inside the buffer,
    /// and nothing when they do not.
    pub fn try_with_count_and_datatype(buffer: &'b mut [T], count: Count, datatype: &'d D) -> (r:
        Option<MutView<'d, 'b, D, T>>)
        requires
            datatype.wf(),
        ensures
            r is Some <==> 0 <= count && footprint_fits(
                datatype.footprint(),
                kind_size(datatype.base_kind()),
                datatype.spec_extent(),
                count as int,
                old(buffer)@.len() * T::spec_size_of(),
            ),
            r is Some ==> r->0.spec_count() == count as int && r->0.spec_as_datatype() == datatype,
    {
        if count < 0 {
            return None;
        }
        if region_fits::<D, T>(buffer.len(), count, datatype) {
            Some(MutView { datatype, count, buffer })
        } else {
            None
        }
    }
}

impl<'d, 'b, D: Datatype, T: Equivalence> AsDatatype for MutView<'d, 'b, D, T> {
    type Out = &'d D;

    closed spec fn spec_as_datatype(&self) -> &'d D {
        self.datatype
    }

    fn as_datatype(&self) -> (d: &'d D) {
        self.datatype
    }
}

impl<'d, 'b, D: Datatype, T: Equivalence> Collection for MutView<'d, 'b, D, T> {
    closed spec fn spec_count(&self) -> int {
        if self.count < 0 {
            0
        } else {
            self.count as int
        }
    }

    proof fn lemma_count_nonneg(&self) {
    }

    fn count(&self) -> (c: Count) {
        proof {
            use_type_invariant(self);
        }
        self.count
    }
}

impl<'d, 'b, D: Datatype, T: Equivalence> BufferMut for MutView<'d, 'b, D, T> {

}

} // verus!
