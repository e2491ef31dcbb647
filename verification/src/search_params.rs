//! Search parameters and the search width that they come to.
use vstd::prelude::*;
use crate::autotune;
use crate::autotune::{infer_diskann_l_search, infer_ivf_nprobe_with_filter_expansion_cap};
use crate::error;
use crate::error::{invalid_input, validate_positive, Error, ErrorView};

verus! {

/// The bytes that tables which a batch shares may take, where nothing else is asked for.
pub const DEFAULT_IVFPQ_BATCH_TABLE_REUSE_MAX_BYTES: usize = 0x2000_0000;

/// Whether the queries of a batch share distance tables.
#[derive(Clone, Copy, Debug, PartialEq, Eq, Structural)]
pub enum IvfPqBatchTableReuseMode {
    Auto,
    Off,
}

/// What the width of a search stands for.
#[derive(Clone, Copy, Debug, PartialEq, Eq, Structural)]
pub enum SearchWidth {
    Auto,
    IvfNProbe,
    DiskAnnLSearch,
}

/// What a search is asked for.
#[derive(Clone, Copy, Debug, PartialEq, Eq, Structural)]
pub struct VectorSearchParams {
    pub top_k: usize,
    pub search_width: SearchWidth,
    pub width: usize,
    /// Caps the factor by which a filter widens the first round of an automatic IVF
    /// search. `None` leaves it unlimited. A lower factor means less work in the first
    /// round, and perhaps a lower recall. Later rounds may exceed the cap, but there are
    /// later rounds only where the filtered results do not fill `top_k`.
    pub max_initial_filter_expansion_factor: Option<usize>,
    pub ivfpq_batch_table_reuse: IvfPqBatchTableReuseMode,
    pub ivfpq_batch_table_reuse_max_bytes: usize,
}

/// Parameters with nothing but a number of rows and a width.
pub open spec fn plain_params(top_k: usize, search_width: SearchWidth, width: usize) -> VectorSearchParams {
    VectorSearchParams {
        top_k,
        search_width,
        width,
        max_initial_filter_expansion_factor: None,
        ivfpq_batch_table_reuse: IvfPqBatchTableReuseMode::Auto,
        ivfpq_batch_table_reuse_max_bytes: DEFAULT_IVFPQ_BATCH_TABLE_REUSE_MAX_BYTES,
    }
}

/// What [`VectorSearchParams::validate`] answers.
pub open spec fn checked_params(params: VectorSearchParams) -> Result<(), ErrorView> {
    match error::positive(params.top_k as nat, "top_k"@) {
        Err(error) => Err(error),
        Ok(_) => match checked_factor(params) {
            Err(error) => Err(error),
            Ok(_) => error::positive(
                params.ivfpq_batch_table_reuse_max_bytes as nat,
                "IVF-PQ batch table reuse max bytes"@,
            ),
        },
    }
}

/// What the check of the filter expansion factor says.
pub open spec fn checked_factor(params: VectorSearchParams) -> Result<(), ErrorView> {
    match params.max_initial_filter_expansion_factor {
        None => Ok(()),
        Some(factor) => match error::positive(
            factor as nat,
            "maximum initial filter expansion factor"@,
        ) {
            Err(error) => Err(error),
            Ok(_) => if params.search_width != SearchWidth::Auto {
                Err(
                    error::input_error(
                        "maximum initial filter expansion factor requires automatic IVF search"@,
                    ),
                )
            } else {
                Ok(())
            },
        },
    }
}

/// What [`VectorSearchParams::resolve_ivf_nprobe`] answers.
pub open spec fn resolved_nprobe(
    params: VectorSearchParams,
    nlist: usize,
    vector_count: usize,
    matching_count: Option<usize>,
) -> Result<usize, ErrorView> {
    match params.search_width {
        SearchWidth::Auto => autotune::inferred_nprobe(
            nlist,
            vector_count,
            params.top_k,
            matching_count,
            params.max_initial_filter_expansion_factor,
        ),
        SearchWidth::IvfNProbe => if params.width == 0 {
            Err(error::input_error("nprobe must be greater than 0"@))
        } else if params.width < nlist {
            Ok(params.width)
        } else {
            Ok(nlist)
        },
        SearchWidth::DiskAnnLSearch => Err(
            error::input_error("DiskANN l_search cannot be used with an IVF index"@),
        ),
    }
}

/// The larger of a width and the number of rows asked for.
pub open spec fn at_least_top_k(width: usize, top_k: usize) -> usize {
    if width < top_k {
        top_k
    } else {
        width
    }
}

/// What [`VectorSearchParams::resolve_diskann_l_search_with`] answers.
pub open spec fn resolved_l_search(params: VectorSearchParams, calibrated: Option<usize>) -> Result<
    usize,
    ErrorView,
> {
    if params.max_initial_filter_expansion_factor is Some {
        Err(
            error::input_error(
                "maximum initial filter expansion factor is only valid for IVF indexes"@,
            ),
        )
    } else {
        match params.search_width {
            SearchWidth::Auto => match autotune::inferred_l_search(params.top_k) {
                Err(error) => Err(error),
                Ok(inferred) => Ok(
                    at_least_top_k(
                        match calibrated {
                            Some(calibrated) => calibrated,
                            None => inferred,
                        },
                        params.top_k,
                    ),
                ),
            },
            SearchWidth::DiskAnnLSearch => if params.width == 0 {
                Err(error::input_error("l_search must be greater than 0"@))
            } else {
                Ok(at_least_top_k(params.width, params.top_k))
            },
            SearchWidth::IvfNProbe => Err(
                error::input_error("IVF nprobe cannot be used with a DiskANN index"@),
            ),
        }
    }
}

impl VectorSearchParams {
    /// A search of a number of lists.
    pub fn new(top_k: usize, nprobe: usize) -> (params: Self)
        ensures
            params == plain_params(top_k, SearchWidth::IvfNProbe, nprobe),
    {
        VectorSearchParams {
            top_k,
            search_width: SearchWidth::IvfNProbe,
            width: nprobe,
            max_initial_filter_expansion_factor: None,
            ivfpq_batch_table_reuse: IvfPqBatchTableReuseMode::Auto,
            ivfpq_batch_table_reuse_max_bytes: DEFAULT_IVFPQ_BATCH_TABLE_REUSE_MAX_BYTES,
        }
    }

    /// A search of a graph with a number of candidates.
    pub fn with_l_search(top_k: usize, l_search: usize) -> (params: Self)
        ensures
            params == plain_params(top_k, SearchWidth::DiskAnnLSearch, l_search),
    {
        VectorSearchParams {
            top_k,
            search_width: SearchWidth::DiskAnnLSearch,
            width: l_search,
            max_initial_filter_expansion_factor: None,
            ivfpq_batch_table_reuse: IvfPqBatchTableReuseMode::Auto,
            ivfpq_batch_table_reuse_max_bytes: DEFAULT_IVFPQ_BATCH_TABLE_REUSE_MAX_BYTES,
        }
    }

    /// A search whose width is inferred.
    pub fn automatic(top_k: usize) -> (params: Self)
        ensures
            params == plain_params(top_k, SearchWidth::Auto, 0),
    {
        VectorSearchParams {
            top_k,
            search_width: SearchWidth::Auto,
            width: 0,
            max_initial_filter_expansion_factor: None,
            ivfpq_batch_table_reuse: IvfPqBatchTableReuseMode::Auto,
            ivfpq_batch_table_reuse_max_bytes: DEFAULT_IVFPQ_BATCH_TABLE_REUSE_MAX_BYTES,
        }
    }

    /// Limits the factor by which a filter widens the first round of an automatic IVF
    /// search. A factor of 1 keeps the width of a search without a filter.
    pub fn with_max_initial_filter_expansion_factor(self, factor: usize) -> (params: Self)
        ensures
            params == (VectorSearchParams {
                max_initial_filter_expansion_factor: Some(factor),
                ..self
            }),
    {
        VectorSearchParams { max_initial_filter_expansion_factor: Some(factor), ..self }
    }

    /// Chooses whether the queries of a batch share distance tables.
    pub fn with_ivfpq_batch_table_reuse(self, mode: IvfPqBatchTableReuseMode) -> (params: Self)
        ensures
            params == (VectorSearchParams { ivfpq_batch_table_reuse: mode, ..self }),
    {
        VectorSearchParams { ivfpq_batch_table_reuse: mode, ..self }
    }

    /// Chooses how many bytes tables that a batch shares may take.
    pub fn with_ivfpq_batch_table_reuse_max_bytes(self, max_bytes: usize) -> (params: Self)
        ensures
            params == (VectorSearchParams { ivfpq_batch_table_reuse_max_bytes: max_bytes, ..self }),
    {
        VectorSearchParams { ivfpq_batch_table_reuse_max_bytes: max_bytes, ..self }
    }

    /// The number of lists, where it is stated.
    pub fn configured_ivf_nprobe(self) -> (nprobe: Option<usize>)
        ensures
            nprobe == (if self.search_width == SearchWidth::IvfNProbe {
                Some(self.width)
            } else {
                None
            }),
    {
        if self.search_width == SearchWidth::IvfNProbe {
            Some(self.width)
        } else {
            None
        }
    }

    /// The number of candidates of a graph search, where it is stated.
    pub fn configured_diskann_l_search(self) -> (l_search: Option<usize>)
        ensures
            l_search == (if self.search_width == SearchWidth::DiskAnnLSearch {
                Some(self.width)
            } else {
                None
            }),
    {
        if self.search_width == SearchWidth::DiskAnnLSearch {
            Some(self.width)
        } else {
            None
        }
    }

    /// Checks what does not depend on an index.
    pub fn validate(self) -> (result: Result<(), Error>)
        ensures
            error::outcome(result) == checked_params(self),
    {
        if let Err(error) = validate_positive(self.top_k, "top_k") {
            return Err(error);
        }
        if let Some(factor) = self.max_initial_filter_expansion_factor {
            if let Err(error) = validate_positive(
                factor,
                "maximum initial filter expansion factor",
            ) {
                return Err(error);
            }
            if self.search_width != SearchWidth::Auto {
                return Err(
                    invalid_input(
                        "maximum initial filter expansion factor requires automatic IVF search".to_owned(),
                    ),
                );
            }
        }
        validate_positive(
            self.ivfpq_batch_table_reuse_max_bytes,
            "IVF-PQ batch table reuse max bytes",
        )
    }

    /// The number of lists that the first round of a search probes.
    pub fn resolve_ivf_nprobe(
        self,
        nlist: usize,
        vector_count: usize,
        matching_count: Option<usize>,
    ) -> (result: Result<usize, Error>)
        ensures
            error::outcome(result) == resolved_nprobe(self, nlist, vector_count, matching_count),
    {
        match self.search_width {
            SearchWidth::Auto => infer_ivf_nprobe_with_filter_expansion_cap(
                nlist,
                vector_count,
                self.top_k,
                matching_count,
                self.max_initial_filter_expansion_factor,
            ),
            SearchWidth::IvfNProbe => if self.width == 0 {
                Err(invalid_input("nprobe must be greater than 0".to_owned()))
            } else if self.width < nlist {
                Ok(self.width)
            } else {
                Ok(nlist)
            },
            SearchWidth::DiskAnnLSearch => Err(
                invalid_input("DiskANN l_search cannot be used with an IVF index".to_owned()),
            ),
        }
    }

    /// The number of candidates of a graph search without calibration.
    pub fn resolve_diskann_l_search(self) -> (result: Result<usize, Error>)
        ensures
            error::outcome(result) == resolved_l_search(self, None),
    {
        self.resolve_diskann_l_search_with(None)
    }

    /// The number of candidates of a graph search. What was calibrated comes before what is
    /// inferred, but not before what is stated.
    pub fn resolve_diskann_l_search_with(self, calibrated: Option<usize>) -> (result: Result<
        usize,
        Error,
    >)
        ensures
            error::outcome(result) == resolved_l_search(self, calibrated),
    {
        if self.max_initial_filter_expansion_factor.is_some() {
            return Err(
                invalid_input(
                    "maximum initial filter expansion factor is only valid for IVF indexes".to_owned(),
                ),
            );
        }
        let width: usize = match self.search_width {
            SearchWidth::Auto => match infer_diskann_l_search(self.top_k) {
                Err(error) => return Err(error),
                Ok(inferred) => match calibrated {
                    Some(calibrated) => calibrated,
                    None => inferred,
                },
            },
            SearchWidth::DiskAnnLSearch => {
                if self.width == 0 {
                    return Err(invalid_input("l_search must be greater than 0".to_owned()));
                }
                self.width
            },
            SearchWidth::IvfNProbe => {
                return Err(
                    invalid_input("IVF nprobe cannot be used with a DiskANN index".to_owned()),
                );
            },
        };
        if width < self.top_k {
            Ok(self.top_k)
        } else {
            Ok(width)
        }
    }
}

/// With valid parameters, the first round of a search probes at least one list and never
/// more lists than there are.
pub proof fn law_nprobe_is_in_range(
    params: VectorSearchParams,
    nlist: usize,
    vector_count: usize,
    matching_count: Option<usize>,
)
    requires
        checked_params(params) is Ok,
        nlist > 0,
        resolved_nprobe(params, nlist, vector_count, matching_count) is Ok,
    ensures
        1 <= resolved_nprobe(params, nlist, vector_count, matching_count)->Ok_0 <= nlist,
{
    if params.search_width == SearchWidth::Auto {
        let base = autotune::unfiltered_nprobe(
            nlist as nat,
            vector_count as nat,
            params.top_k as nat,
        );
        let factor = autotune::expansion(
            vector_count as nat,
            matching_count,
            params.max_initial_filter_expansion_factor,
        );
        assert(base * factor >= 1) by (nonlinear_arith)
            requires
                base >= 1,
                factor >= 1,
        ;
    }
}

/// A graph search keeps at least as many candidates as rows are asked for.
pub proof fn law_l_search_covers_top_k(params: VectorSearchParams, calibrated: Option<usize>)
    ensures
        resolved_l_search(params, calibrated) matches Ok(l_search) ==> l_search >= params.top_k,
{
}

} // verus!
