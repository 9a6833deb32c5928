//! Partitioned buffers: a buffer divided into per-participant regions.
//!
//! A partitioning assigns each participant a count of elements and a
//! displacement from the start of the underlying buffer.  No partition may
//! reach past the buffer; the constructors check this before any
//! communication is attempted.

use vstd::prelude::*;

verus! {

use crate::Count;
use crate::buffer::{AsDatatype, Buffer, BufferMut, Collection};

/// Every (count, displacement) pair stays within the first `n` elements of
/// the underlying buffer.
pub open spec fn partition_within(counts: Seq<Count>, displs: Seq<Count>, n: int) -> bool {
    forall|i: int| 0 <= i < counts.len() ==> #[trigger] (counts[i] + displs[i]) <= n
}

/// Describes how a buffer is partitioned: the count of elements and the
/// displacement from the start of the buffer, for each partition.
pub trait Partitioned {
    /// The count of elements in each partition.
    spec fn spec_counts(&self) -> Seq<Count>;

    /// The displacement of each partition from the start of the buffer.
    spec fn spec_displs(&self) -> Seq<Count>;

    /// The count of elements in each partition.
    fn counts(&self) -> (c: &Vec<Count>)
        ensures
            c@ == self.spec_counts(),
    ;

    /// The displacement of each partition from the start of the buffer.
    fn displs(&self) -> (d: &Vec<Count>)
        ensures
            d@ == self.spec_displs(),
    ;
}

/// A buffer that is partitioned.
pub trait PartitionedBuffer: Partitioned + AsDatatype {

}

/// A mutable buffer that is partitioned.
pub trait PartitionedBufferMut: Partitioned + AsDatatype {

}

/// Checks that every (count, displacement) pair stays within the first `n`
/// elements.
fn check_within(counts: &Vec<Count>, displs: &Vec<Count>, n: Count) -> (r: bool)
    requires
        counts@.len() == displs@.len(),
    ensures
        r == partition_within(counts@, displs@, n as int),
{
    let mut i: usize = 0;
    while i < counts.len()
        invariant
            0 <= i <= counts@.len(),
            counts@.len() == displs@.len(),
            forall|j: int| 0 <= j < i ==> #[trigger] (counts@[j] + displs@[j]) <= n as int,
        decreases counts@.len() - i,
    {
        let c: Count = counts[i];
        let d: Count = displs[i];
        if (c as i64) + (d as i64) > (n as i64) {
            return false;
        }
        i += 1;
    }
    true
}

/// Adds a partitioning to an existing buffer.
pub struct Partition<'b, B: Buffer + ?Sized> {
    buf: &'b B,
    counts: Vec<Count>,
    displs: Vec<Count>,
}

impl<'b, B: Buffer + ?Sized> Partition<'b, B> {
    /// Partitions `buf` using `counts` and `displs`.  Every partition must
    /// stay within the buffer; a violation is a defect in the calling code,
    /// rejected before any communication is attempted.
    pub fn new(buf: &'b B, counts: Vec<Count>, displs: Vec<Count>) -> (r: Partition<'b, B>)
        requires
            buf.spec_count() <= i32::MAX as int,
            counts@.len() == displs@.len(),
            partition_within(counts@, displs@, buf.spec_count()),
        ensures
            r.spec_counts() == counts@,
            r.spec_displs() == displs@,
            r.spec_as_datatype() == buf.spec_as_datatype(),
    {
        Partition { buf, counts, displs }
    }

    /// Partitions `buf` using `counts` and `displs` after checking that the
    /// tables have equal length and every partition stays within the buffer,
    /// and rejects them otherwise.
    pub fn try_new(buf: &'b B, counts: Vec<Count>, displs: Vec<Count>) -> (r: Option<
        Partition<'b, B>,
    >)
        requires
            buf.spec_count() <= i32::MAX as int,
        ensures
            r is Some <==> counts@.len() == displs@.len() && partition_within(
                counts@,
                displs@,
                buf.spec_count(),
            ),
            r is Some ==> r->0.spec_counts() == counts@ && r->0.spec_displs() == displs@
                && r->0.spec_as_datatype() == buf.spec_as_datatype(),
    {
        if counts.len() != displs.len() {
            return None;
        }
        proof {
            buf.lemma_count_nonneg();
        }
        let n: Count = buf.count();
        if check_within(&counts, &displs, n) {
            Some(Partition { buf, counts, displs })
        } else {
            None
        }
    }
}

impl<'b, B: Buffer + ?Sized> Partitioned for Partition<'b, B> {
    closed spec fn spec_counts(&self) -> Seq<Count> {
        self.counts@
    }

    closed spec fn spec_displs(&self) -> Seq<Count> {
        self.displs@
    }

    fn counts(&self) -> (c: &Vec<Count>) {
        &self.counts
    }

    fn displs(&self) -> (d: &Vec<Count>) {
        &self.displs
    }
}

impl<'b, B: Buffer + ?Sized> AsDatatype for Partition<'b, B> {
    type Out = <B as AsDatatype>::Out;

    closed spec fn spec_as_datatype(&self) -> Self::Out {
        self.buf.spec_as_datatype()
    }

    fn as_datatype(&self) -> (d: Self::Out) {
        self.buf.as_datatype()
    }
}

impl<'b, B: Buffer + ?Sized> PartitionedBuffer for Partition<'b, B> {

}

/// Adds a partitioning to an existing mutable buffer.
pub struct PartitionMut<'b, B: BufferMut + ?Sized> {
    buf: &'b mut B,
    counts: Vec<Count>,
    displs: Vec<Count>,
}

impl<'b, B: BufferMut + ?Sized> PartitionMut<'b, B> {
    /// Partitions `buf` using `counts` and `displs`.  Every partition must
    /// stay within the buffer; a violation is a defect in the calling code,
    /// rejected before any communication is attempted.
    pub fn new(buf: &'b mut B, counts: Vec<Count>, displs: Vec<Count>) -> (r: PartitionMut<'b, B>)
        requires
            buf.spec_count() <= i32::MAX as int,
            counts@.len() == displs@.len(),
            partition_within(counts@, displs@, buf.spec_count()),
        ensures
            r.spec_counts() == counts@,
            r.spec_displs() == displs@,
    {
        PartitionMut { buf, counts, displs }
    }

    /// Partitions `buf` using `counts` and `displs` after checking that the
    /// tables have equal length and every partition stays within the buffer,
    /// and rejects them otherwise.
    pub fn try_new(buf: &'b mut B, counts: Vec<Count>, displs: Vec<Count>) -> (r: Option<
        PartitionMut<'b, B>,
    >)
        requires
            buf.spec_count() <= i32::MAX as int,
        ensures
            r is Some <==> counts@.len() == displs@.len() && partition_within(
                counts@,
                displs@,
                old(buf).spec_count(),
            ),
            r is Some ==> r->0.spec_counts() == counts@ && r->0.spec_displs() == displs@,
    {
        if counts.len() != displs.len() {
            return None;
        }
        proof {
            buf.lemma_count_nonneg();
        }
        let n: Count = buf.count();
        if check_within(&counts, &displs, n) {
            Some(PartitionMut { buf, counts, displs })
        } else {
            None
        }
    }
}

impl<'b, B: BufferMut + ?Sized> Partitioned for PartitionMut<'b, B> {
    closed spec fn spec_counts(&self) -> Seq<Count> {
        self.counts@
    }

    closed spec fn spec_displs(&self) -> Seq<Count> {
        self.displs@
    }

    fn counts(&self) -> (c: &Vec<Count>) {
        &self.counts
    }

    fn displs(&self) -> (d: &Vec<Count>) {
        &self.displs
    }
}

impl<'b, B: BufferMut + ?Sized> AsDatatype for PartitionMut<'b, B> {
    type Out = <B as AsDatatype>::Out;

    closed spec fn spec_as_datatype(&self) -> Self::Out {
        self.buf.spec_as_datatype()
    }

    fn as_datatype(&self) -> (d: Self::Out) {
        self.buf.as_datatype()
    }
}

impl<'b, B: BufferMut + ?Sized> PartitionedBufferMut for PartitionMut<'b, B> {

}

} // verus!
