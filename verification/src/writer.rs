//! Building an index of any type.
use vstd::prelude::*;
use crate::config;
use crate::config::{validate_config, IndexType, VectorIndexConfig};
use crate::error;
use crate::error::{invalid_input, Error, ErrorView};
use crate::flat;
use crate::flat::{write_ivfflat_index, IVFFlatIndex, IVFFLAT_WRITE_BUFFER_SIZE};
use crate::inverted_lists;
use crate::inverted_lists::{DiskAnnIndex, IVFPQIndex, IVFRQIndex};
use crate::layout;
use crate::sq;
use crate::sq::{write_ivfsq_index, IVFSQIndex};
use crate::text;
use crate::text::decimal_text;
use crate::trainer::VectorIndexTraining;
use crate::validate;
use crate::validate::validate_vectors;

verus! {

/// An index that is being built.
pub enum VectorIndexWriter {
    IvfFlat(IVFFlatIndex),
    IvfSq(IVFSQIndex),
    IvfPq(IVFPQIndex),
    IvfRq(IVFRQIndex),
    DiskAnn(DiskAnnIndex),
}

/// Where vectors go, as found out by comparing them with centroids: the list of each
/// vector, and for quantized vectors their codes. Other indexes keep their vectors in the
/// order in which they come.
pub enum Placement {
    Lists(Vec<usize>),
    Codes { lists: Vec<usize>, codes: Vec<u8> },
    InOrder,
}

/// What the writer of an index gives out.
pub enum IndexOutput {
    /// The parts of the file, in order.
    Parts(Vec<Vec<u8>>),
    /// The file of such an index is written elsewhere.
    Elsewhere,
}

/// Whether every list is one of `nlist` lists.
pub open spec fn in_lists(lists: Seq<usize>, nlist: usize) -> bool {
    forall|i: int| 0 <= i < lists.len() ==> #[trigger] lists[i] < nlist
}

/// What [`VectorIndexWriter::check_vectors`] answers.
pub open spec fn checked_rows(ids: Seq<i64>, data: Seq<u32>, n: usize, dimension: usize) -> Result<
    (),
    ErrorView,
> {
    match validate::checked_vectors(data, n, dimension, "vector data"@) {
        Err(error) => Err(error),
        Ok(_) => if ids.len() != n {
            Err(
                error::input_error(
                    "ids length "@ + text::decimal(ids.len()) + " does not match vector count "@
                        + text::decimal(n as nat),
                ),
            )
        } else {
            Ok(())
        },
    }
}

/// Whether a writer is the empty index of a configuration.
pub open spec fn is_empty_index(writer: VectorIndexWriter, config: VectorIndexConfig) -> bool {
    match (writer, config) {
        (
            VectorIndexWriter::IvfFlat(index),
            VectorIndexConfig::IvfFlat {
                dimension,
                nlist,
                metric,
                use_approximate_coarse_assignment,
            },
        ) => {
            &&& index.wf()
            &&& index.d == dimension
            &&& index.nlist == nlist
            &&& index.metric == metric
            &&& index.use_approximate_coarse_assignment == use_approximate_coarse_assignment
            &&& index.quantizer_centroids@.len() == 0
            &&& forall|i: int| 0 <= i < nlist ==> (#[trigger] index.ids@[i])@.len() == 0
        },
        (
            VectorIndexWriter::IvfSq(index),
            VectorIndexConfig::IvfSq {
                dimension,
                nlist,
                metric,
                use_approximate_coarse_assignment,
            },
        ) => {
            &&& index.wf()
            &&& index.d == dimension
            &&& index.nlist == nlist
            &&& index.metric == metric
            &&& index.use_approximate_coarse_assignment == use_approximate_coarse_assignment
            &&& index.quantizer_centroids@.len() == 0
            &&& forall|i: int| 0 <= i < nlist ==> (#[trigger] index.ids@[i])@.len() == 0
        },
        (
            VectorIndexWriter::IvfPq(index),
            VectorIndexConfig::IvfPq {
                dimension,
                nlist,
                m,
                metric,
                use_opq,
                use_approximate_coarse_assignment,
            },
        ) => {
            &&& index.d == dimension
            &&& index.nlist == nlist
            &&& index.m == m
            &&& index.metric == metric
            &&& index.use_opq == use_opq
            &&& index.use_approximate_coarse_assignment == use_approximate_coarse_assignment
            &&& index.ids@.len() == 0
            &&& index.vectors@.len() == 0
        },
        (
            VectorIndexWriter::IvfRq(index),
            VectorIndexConfig::IvfRq {
                dimension,
                nlist,
                bits,
                metric,
                use_approximate_coarse_assignment,
            },
        ) => {
            &&& index.d == dimension
            &&& index.nlist == nlist
            &&& index.bits == bits
            &&& index.metric == metric
            &&& index.use_approximate_coarse_assignment == use_approximate_coarse_assignment
            &&& index.ids@.len() == 0
            &&& index.vectors@.len() == 0
        },
        (
            VectorIndexWriter::DiskAnn(index),
            VectorIndexConfig::DiskAnn { dimension, metric, pq_m, pq_bits, build },
        ) => {
            &&& index.d == dimension
            &&& index.metric == metric
            &&& index.pq_m == pq_m
            &&& index.pq_bits == pq_bits
            &&& index.build == build
            &&& index.ids@.len() == 0
            &&& index.vectors@.len() == 0
        },
        _ => false,
    }
}

impl VectorIndexWriter {
    /// Whether the index is sound.
    pub open spec fn wf(&self) -> bool {
        match self {
            VectorIndexWriter::IvfFlat(index) => index.wf(),
            VectorIndexWriter::IvfSq(index) => index.wf(),
            _ => true,
        }
    }

    /// The index type.
    pub open spec fn kind(&self) -> IndexType {
        match self {
            VectorIndexWriter::IvfFlat(_) => IndexType::IvfFlat,
            VectorIndexWriter::IvfSq(_) => IndexType::IvfSq,
            VectorIndexWriter::IvfPq(_) => IndexType::IvfPq,
            VectorIndexWriter::IvfRq(_) => IndexType::IvfRq,
            VectorIndexWriter::DiskAnn(_) => IndexType::DiskAnn,
        }
    }

    /// The dimension.
    pub open spec fn d(&self) -> usize {
        match self {
            VectorIndexWriter::IvfFlat(index) => index.d,
            VectorIndexWriter::IvfSq(index) => index.d,
            VectorIndexWriter::IvfPq(index) => index.d,
            VectorIndexWriter::IvfRq(index) => index.d,
            VectorIndexWriter::DiskAnn(index) => index.d,
        }
    }

    /// Takes the index over that was trained.
    pub fn new(training: VectorIndexTraining) -> (writer: Self)
        ensures
            writer == training.writer(),
    {
        training.into_writer()
    }

    /// The empty index of a configuration.
    pub fn from_config(config: VectorIndexConfig) -> (result: Result<Self, Error>)
        ensures
            match (result, config::checked_config(config)) {
                (Ok(writer), Ok(_)) => is_empty_index(writer, config) && writer.wf()
                    && writer.kind() == config::type_of(config) && writer.d()
                    == config::dimension_of(config),
                (Err(error), Err(wanted)) => error@ == wanted,
                _ => false,
            },
    {
        if let Err(error) = validate_config(&config) {
            return Err(error);
        }
        Ok(
            match config {
                VectorIndexConfig::IvfFlat {
                    dimension,
                    nlist,
                    metric,
                    use_approximate_coarse_assignment,
                } => {
                    let mut index = IVFFlatIndex::new(dimension, nlist, metric);
                    index.set_approximate_coarse_assignment(use_approximate_coarse_assignment);
                    VectorIndexWriter::IvfFlat(index)
                },
                VectorIndexConfig::IvfSq {
                    dimension,
                    nlist,
                    metric,
                    use_approximate_coarse_assignment,
                } => {
                    let mut index = IVFSQIndex::new(dimension, nlist, metric);
                    index.set_approximate_coarse_assignment(use_approximate_coarse_assignment);
                    VectorIndexWriter::IvfSq(index)
                },
                VectorIndexConfig::IvfPq {
                    dimension,
                    nlist,
                    m,
                    metric,
                    use_opq,
                    use_approximate_coarse_assignment,
                } => {
                    let mut index = IVFPQIndex::new(dimension, nlist, m, metric, use_opq);
                    index.set_approximate_coarse_assignment(use_approximate_coarse_assignment);
                    VectorIndexWriter::IvfPq(index)
                },
                VectorIndexConfig::IvfRq {
                    dimension,
                    nlist,
                    bits,
                    metric,
                    use_approximate_coarse_assignment,
                } => {
                    let mut index = IVFRQIndex::with_bits(dimension, nlist, bits, metric);
                    index.set_approximate_coarse_assignment(use_approximate_coarse_assignment);
                    VectorIndexWriter::IvfRq(index)
                },
                VectorIndexConfig::DiskAnn { dimension, metric, pq_m, pq_bits, build } => {
                    VectorIndexWriter::DiskAnn(
                        DiskAnnIndex::with_pq_bits(dimension, metric, pq_m, pq_bits, build),
                    )
                },
            },
        )
    }

    /// The index type.
    pub fn index_type(&self) -> (index_type: IndexType)
        ensures
            index_type == self.kind(),
    {
        match self {
            VectorIndexWriter::IvfFlat(_) => IndexType::IvfFlat,
            VectorIndexWriter::IvfSq(_) => IndexType::IvfSq,
            VectorIndexWriter::IvfPq(_) => IndexType::IvfPq,
            VectorIndexWriter::IvfRq(_) => IndexType::IvfRq,
            VectorIndexWriter::DiskAnn(_) => IndexType::DiskAnn,
        }
    }

    /// The dimension.
    pub fn dimension(&self) -> (dimension: usize)
        ensures
            dimension == self.d(),
    {
        match self {
            VectorIndexWriter::IvfFlat(index) => index.d,
            VectorIndexWriter::IvfSq(index) => index.d,
            VectorIndexWriter::IvfPq(index) => index.d,
            VectorIndexWriter::IvfRq(index) => index.d,
            VectorIndexWriter::DiskAnn(index) => index.d,
        }
    }

    /// Checks vectors that are to be added.
    pub fn check_vectors(&self, ids: &[i64], data: &[u32], n: usize) -> (result: Result<(), Error>)
        ensures
            error::outcome(result) == checked_rows(ids@, data@, n, self.d()),
    {
        if let Err(error) = validate_vectors(data, n, self.dimension(), "vector data") {
            return Err(error);
        }
        assert(ids.len() == ids@.len());
        if ids.len() != n {
            let mut message = "ids length ".to_owned();
            message.append(decimal_text(ids.len() as u64).as_str());
            message.append(" does not match vector count ");
            message.append(decimal_text(n as u64).as_str());
            return Err(invalid_input(message));
        }
        Ok(())
    }

    /// Whether a placement says where `n` vectors go in this index.
    pub open spec fn places(&self, placement: &Placement, n: usize) -> bool {
        match self {
            VectorIndexWriter::IvfFlat(index) => placement matches Placement::Lists(lists)
                && lists@.len() == n && in_lists(lists@, index.nlist),
            VectorIndexWriter::IvfSq(index) => placement matches Placement::Codes { lists, codes }
                && lists@.len() == n && codes@.len() == n * index.d && in_lists(
                lists@,
                index.nlist,
            ),
            _ => true,
        }
    }

    /// Whether this index is another one with vectors added.
    pub open spec fn extends(
        &self,
        before: &VectorIndexWriter,
        ids: Seq<i64>,
        data: Seq<u32>,
        placement: &Placement,
    ) -> bool {
        match (self, before, placement) {
            (
                VectorIndexWriter::IvfFlat(after),
                VectorIndexWriter::IvfFlat(before),
                Placement::Lists(lists),
            ) => after.same_but_lists(before) && inverted_lists::lists_extended(
                before.ids@,
                before.vectors@,
                after.ids@,
                after.vectors@,
                ids,
                data,
                before.d as nat,
                lists@,
                ids.len(),
            ),
            (
                VectorIndexWriter::IvfSq(after),
                VectorIndexWriter::IvfSq(before),
                Placement::Codes { lists, codes },
            ) => after.same_but_lists(before) && inverted_lists::lists_extended(
                before.ids@,
                before.codes@,
                after.ids@,
                after.codes@,
                ids,
                codes@,
                before.d as nat,
                lists@,
                ids.len(),
            ),
            (VectorIndexWriter::IvfPq(after), VectorIndexWriter::IvfPq(before), _) => {
                &&& after.ids@ == before.ids@ + ids
                &&& after.vectors@ == before.vectors@ + data
                &&& after.same_but_vectors(before)
            },
            (VectorIndexWriter::IvfRq(after), VectorIndexWriter::IvfRq(before), _) => {
                &&& after.ids@ == before.ids@ + ids
                &&& after.vectors@ == before.vectors@ + data
                &&& after.same_but_vectors(before)
            },
            (VectorIndexWriter::DiskAnn(after), VectorIndexWriter::DiskAnn(before), _) => {
                &&& after.ids@ == before.ids@ + ids
                &&& after.vectors@ == before.vectors@ + data
                &&& after.d == before.d
                &&& after.metric == before.metric
                &&& after.pq_m == before.pq_m
                &&& after.pq_bits == before.pq_bits
                &&& after.build == before.build
            },
            _ => false,
        }
    }

    /// Adds vectors. Those of an IVF-FLAT or IVF-SQ index go to their lists, and others behind
    /// the vectors that are there.
    pub fn add_vectors(&mut self, ids: &[i64], data: &[u32], n: usize, placement: &Placement) -> (result:
        Result<(), Error>)
        requires
            old(self).wf(),
            old(self).places(placement, n),
        ensures
            final(self).wf(),
            match (result, checked_rows(ids@, data@, n, old(self).d())) {
                (Ok(_), Ok(_)) => final(self).extends(old(self), ids@, data@, placement),
                (Err(error), Err(wanted)) => error@ == wanted && *final(self) == *old(self),
                _ => false,
            },
    {
        if let Err(error) = self.check_vectors(ids, data, n) {
            return Err(error);
        }
        match self {
            VectorIndexWriter::IvfFlat(index) => {
                if let Placement::Lists(lists) = placement {
                    index.add(data, ids, lists.as_slice());
                }
            },
            VectorIndexWriter::IvfSq(index) => {
                if let Placement::Codes { lists, codes } = placement {
                    index.add(codes.as_slice(), ids, lists.as_slice());
                }
            },
            VectorIndexWriter::IvfPq(index) => {
                index.add(data, ids);
            },
            VectorIndexWriter::IvfRq(index) => {
                index.add(data, ids);
            },
            VectorIndexWriter::DiskAnn(index) => {
                index.add(data, ids);
            },
        }
        Ok(())
    }

    /// Writes the index to a file, from a position on.
    pub fn write(&self, position: u64) -> (result: Result<IndexOutput, Error>)
        ensures
            match self {
                VectorIndexWriter::IvfFlat(index) => match (result, flat::file(index, position)) {
                    (Ok(IndexOutput::Parts(parts)), Ok(bytes)) => {
                        &&& layout::joined(layout::contents(parts@)) == bytes
                        &&& flat::parts_bounded(
                            layout::contents(parts@),
                            index,
                            IVFFLAT_WRITE_BUFFER_SIZE as nat,
                        )
                    },
                    (Err(error), Err(wanted)) => error@ == wanted,
                    _ => false,
                },
                VectorIndexWriter::IvfSq(index) => match (result, sq::file(index, position)) {
                    (Ok(IndexOutput::Parts(parts)), Ok(bytes)) => layout::joined(
                        layout::contents(parts@),
                    ) == bytes,
                    (Err(error), Err(wanted)) => error@ == wanted,
                    _ => false,
                },
                _ => result matches Ok(IndexOutput::Elsewhere),
            },
    {
        match self {
            VectorIndexWriter::IvfFlat(index) => match write_ivfflat_index(index, position) {
                Err(error) => Err(error),
                Ok(parts) => Ok(IndexOutput::Parts(parts)),
            },
            VectorIndexWriter::IvfSq(index) => match write_ivfsq_index(index, position) {
                Err(error) => Err(error),
                Ok(parts) => Ok(IndexOutput::Parts(parts)),
            },
            _ => Ok(IndexOutput::Elsewhere),
        }
    }
}

} // verus!
