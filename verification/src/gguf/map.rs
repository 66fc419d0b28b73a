//! Memory-mapped GGUF checkpoint access.
//!
//! A read-only file mapping is used as a byte slice and goes through the same header and
//! tensor-directory parser as an owned buffer. Callers can obtain **page-aligned** tensor
//! byte ranges so that a later GPU layer can pin pages.

use crate::error::{ErrorView, ParserError};
use crate::gguf::layout;
use crate::gguf::layout::{
    find_tensor, parse_layout, tensor_payload_bytes, GgufLayout, GgufMetadata, LayoutView,
};
use crate::gguf::limits;
use crate::gguf::limits::ParseLimits;
use crate::gguf::tensor::Tensor;
use crate::ordered;
use crate::ordered::{same_keys, StringMap};
use crate::text;
use vstd::prelude::*;
use vstd::slice::slice_subrange;

verus! {

/// Page size assumed when the system does not report one.
pub const FALLBACK_PAGE_SIZE: usize = 4096;

/// GGUF layout backed by a read-only file mapping instead of an owned `Vec<u8>`.
///
/// Header, KV metadata, and the tensor directory are identical to
/// [`GgufLayout`]. Tensor payloads are borrowed from the mapping.
#[derive(Debug)]
pub struct GgufLayoutMmap<'a> {
    /// Path the checkpoint was mapped from (kept for error messages).
    pub path: String,
    /// Parsed KV metadata.
    pub metadata: GgufMetadata,
    /// Name -> tensor directory entry.
    pub tensors: StringMap<Tensor>,
    /// Byte alignment specified by the file (default 32).
    pub alignment: usize,
    /// Absolute byte offset within the mapping where tensor payloads begin.
    pub tensor_data_offset: usize,
    /// The mapped file.
    pub mmap: &'a [u8],
}

/// Page-aligned view covering a tensor payload inside a mapping.
///
/// `pages` starts at an OS-page boundary of the mapping and covers the tensor; it may
/// include bytes before/after the payload (and may be truncated at EOF
/// when the file is smaller than a page). [`Self::tensor_bytes`] returns
/// the exact payload.
#[derive(Debug, Clone, Copy)]
pub struct PageAlignedTensorBytes<'a> {
    /// Page-aligned (or file-start) range covering the tensor.
    pub pages: &'a [u8],
    /// Offset of the exact tensor payload within [`Self::pages`].
    pub tensor_offset: usize,
    /// Exact tensor payload length in bytes.
    pub tensor_len: usize,
    /// Page size used to compute the range.
    pub page_size: usize,
}

impl<'a> PageAlignedTensorBytes<'a> {
    /// The payload lies inside the pages.
    pub open spec fn well_formed(self) -> bool {
        self.tensor_offset + self.tensor_len <= self.pages@.len()
    }

    /// Exact tensor payload, equivalent to [`GgufLayoutMmap::tensor_bytes`].
    pub fn tensor_bytes(self) -> (r: &'a [u8])
        requires
            self.well_formed(),
        ensures
            r@ == self.pages@.subrange(
                self.tensor_offset as int,
                self.tensor_offset + self.tensor_len,
            ),
    {
        assert(self.pages.len() == self.pages@.len());
        slice_subrange(self.pages, self.tensor_offset, self.tensor_offset + self.tensor_len)
    }
}

/// The page size to use, given the one that the system reports, if any.
pub fn os_page_size(reported: Option<usize>) -> (r: usize)
    ensures
        r == (match reported {
            Some(n) => if n > 0 {
                n
            } else {
                FALLBACK_PAGE_SIZE
            },
            None => FALLBACK_PAGE_SIZE,
        }),
        r > 0,
{
    match reported {
        Some(n) => if n > 0 {
            n
        } else {
            FALLBACK_PAGE_SIZE
        },
        None => FALLBACK_PAGE_SIZE,
    }
}

/// The smaller of two numbers.
pub open spec fn at_most(value: nat, limit: nat) -> nat {
    if value < limit {
        value
    } else {
        limit
    }
}

/// Round `value` up to a multiple of `alignment`, but not beyond `limit`.
pub fn align_up_saturating(value: usize, alignment: usize, limit: usize) -> (r: usize)
    ensures
        r == at_most(limits::align_up(value as nat, alignment as nat), limit as nat),
{
    if alignment <= 1 {
        return if value < limit {
            value
        } else {
            limit
        };
    }
    proof {
        lemma_ceiling(value as nat, alignment as nat);
    }
    let blocks: usize = if value % alignment == 0 {
        value / alignment
    } else {
        value / alignment + 1
    };
    match blocks.checked_mul(alignment) {
        None => limit,
        Some(n) => if n < limit {
            n
        } else {
            limit
        },
    }
}

proof fn lemma_ceiling(value: nat, alignment: nat)
    requires
        alignment > 1,
    ensures
        limits::align_up(value, alignment) == (if value % alignment == 0 {
            (value / alignment) * alignment
        } else {
            (value / alignment + 1) * alignment
        }),
        value / alignment <= value,
        value % alignment != 0 ==> value / alignment + 1 <= value,
{
    let a = alignment as int;
    let q = value as int / a;
    let r = value as int % a;
    vstd::arithmetic::div_mod::lemma_fundamental_div_mod(value as int, a);
    vstd::arithmetic::div_mod::lemma_mod_bound(value as int, a);
    assert(a * q == q * a) by (nonlinear_arith);
    if r == 0 {
        vstd::arithmetic::div_mod::lemma_fundamental_div_mod_converse(value + a - 1, a, q, a - 1);
    } else {
        assert((q + 1) * a == q * a + a) by (nonlinear_arith);
        vstd::arithmetic::div_mod::lemma_fundamental_div_mod_converse(
            value + a - 1,
            a,
            q + 1,
            r - 1,
        );
    }
    assert(q <= value && (r != 0 ==> q + 1 <= value)) by (nonlinear_arith)
        requires
            value as int == a * q + r,
            a > 1,
            0 <= r < a,
            0 <= q,
    ;
}

/// The page-aligned range of a tensor: an error exactly when its payload is outside the
/// mapping or the page size is zero.
pub open spec fn page_error(
    mapped: Seq<u8>,
    path: Seq<char>,
    tensor: Tensor,
    page_size: usize,
) -> Option<ErrorView> {
    match layout::payload(mapped, path, tensor@) {
        Err(e) => Some(e),
        Ok(_) => if page_size == 0 {
            Some(ErrorView::InvalidLayout { path, reason: "invalid OS page size: 0"@ })
        } else {
            None
        },
    }
}

impl<'a> GgufLayoutMmap<'a> {
    /// The parsed header that this layout holds.
    pub open spec fn header(self) -> LayoutView {
        LayoutView {
            metadata: self.metadata@,
            tensors: ordered::value_views(self.tensors@),
            alignment: self.alignment,
            data_offset: self.tensor_data_offset,
        }
    }

    /// The mapped bytes.
    pub open spec fn mapped(self) -> Seq<u8> {
        self.mmap@
    }

    /// Parse the header, KV metadata and tensor directory of a mapped file without
    /// copying it.
    pub fn from_mapping(mmap: &'a [u8], path: String, limits: ParseLimits) -> (r: Result<
        GgufLayoutMmap<'a>,
        ParserError,
    >)
        ensures
            match r {
                Ok(m) => {
                    &&& layout::parsed_layout(mmap@, path@, limits) == Ok::<LayoutView, ErrorView>(
                        m.header(),
                    )
                    &&& m.path@ == path@
                    &&& m.mapped() == mmap@
                },
                Err(e) => layout::parsed_layout(mmap@, path@, limits) == Err::<
                    LayoutView,
                    ErrorView,
                >(e@),
            },
    {
        match parse_layout(mmap, path.as_str(), limits) {
            Err(e) => Err(e),
            Ok((metadata, tensors, alignment, tensor_data_offset)) => Ok(
                GgufLayoutMmap { path, metadata, tensors, alignment, tensor_data_offset, mmap },
            ),
        }
    }

    /// Length of the mapped file in bytes.
    pub fn len(&self) -> (r: usize)
        ensures
            r == self.mapped().len(),
    {
        self.mmap.len()
    }

    /// Whether the mapping is empty.
    pub fn is_empty(&self) -> (r: bool)
        ensures
            r == (self.mapped().len() == 0),
    {
        self.mmap.len() == 0
    }

    /// Borrowed view of the entire mapped file.
    pub fn as_bytes(&self) -> (r: &'a [u8])
        ensures
            r@ == self.mapped(),
    {
        self.mmap
    }

    /// Return a borrowed slice of the raw tensor payload bytes.
    pub fn tensor_bytes(&self, tensor: &Tensor) -> (r: Result<&'a [u8], ParserError>)
        ensures
            layout::slice_outcome(r) == layout::payload(self.mapped(), self.path@, tensor@),
    {
        tensor_payload_bytes(self.mmap, self.path.as_str(), tensor)
    }

    /// Lookup a tensor by exact name.
    pub fn tensor(&self, name: &str) -> (r: Result<&Tensor, ParserError>)
        ensures
            layout::lookup_outcome(r) == layout::lookup(self.tensors@, self.path@, name@),
    {
        find_tensor(&self.tensors, &self.path, name)
    }

    /// Page-aligned byte range covering `tensor`, suitable for a later
    /// host-register in another crate. Does not register anything here.
    pub fn tensor_page_aligned_bytes(&self, tensor: &Tensor, page_size: usize) -> (r: Result<
        PageAlignedTensorBytes<'a>,
        ParserError,
    >)
        ensures
            match r {
                Err(e) => page_error(self.mapped(), self.path@, *tensor, page_size) == Some(e@),
                Ok(p) => {
                    let start = tensor.absolute_offset as nat;
                    let end = start + tensor.byte_len as nat;
                    let first = start - start % page_size as nat;
                    let last = at_most(
                        limits::align_up(end, page_size as nat),
                        self.mapped().len(),
                    );
                    &&& page_error(self.mapped(), self.path@, *tensor, page_size) is None
                    &&& p.pages@ == self.mapped().subrange(first, last as int)
                    &&& p.tensor_offset == start % page_size as nat
                    &&& p.tensor_len == tensor.byte_len
                    &&& p.page_size == page_size
                    &&& p.well_formed()
                    &&& layout::payload(self.mapped(), self.path@, tensor@) == Ok::<
                        Seq<u8>,
                        ErrorView,
                    >(
                        p.pages@.subrange(
                            p.tensor_offset as int,
                            p.tensor_offset + p.tensor_len,
                        ),
                    )
                },
            },
    {
        match tensor_payload_bytes(self.mmap, self.path.as_str(), tensor) {
            Err(e) => {
                return Err(e);
            },
            Ok(_) => {},
        }
        if page_size == 0 {
            return Err(
                crate::error::invalid_layout(
                    self.path.as_str(),
                    "invalid OS page size: 0".to_owned(),
                ),
            );
        }
        let start: usize = tensor.absolute_offset;
        let end: usize = start + tensor.byte_len;
        proof {
            vstd::arithmetic::div_mod::lemma_mod_decreases(start as nat, page_size as nat);
            vstd::arithmetic::div_mod::lemma_mod_bound(start as int, page_size as int);
        }
        let tensor_offset: usize = start % page_size;
        let first: usize = start - tensor_offset;
        let last: usize = align_up_saturating(end, page_size, self.mmap.len());
        proof {
            limits::law_align_up_is_least_multiple(end as nat, page_size as nat, 0);
        }
        let pages = slice_subrange(self.mmap, first, last);
        assert(pages@.subrange(tensor_offset as int, tensor_offset + tensor.byte_len)
            =~= self.mapped().subrange(start as int, end as int));
        Ok(
            PageAlignedTensorBytes {
                pages,
                tensor_offset,
                tensor_len: tensor.byte_len,
                page_size,
            },
        )
    }

    /// Compare directory metadata with an owned [`GgufLayout`] of the same file:
    /// alignment, data section, tensor names and architecture.
    pub fn directory_matches(&self, owned: &GgufLayout) -> (r: bool)
        ensures
            r == (self.alignment == owned.alignment && self.tensor_data_offset
                == owned.tensor_data_offset && self.tensors@.dom() == owned.tensors@.dom()
                && self.metadata@.arch() == owned.metadata@.arch()),
    {
        self.alignment == owned.alignment && self.tensor_data_offset == owned.tensor_data_offset
            && same_keys(&self.tensors, &owned.tensors) && text::equal(
            self.metadata.architecture(),
            owned.metadata.architecture(),
        )
    }
}

/// Mapped and owned parses of the same bytes agree: both succeed with the same header or
/// both fail with the same error.
pub proof fn law_mapped_header_is_owned_header(
    mapped: GgufLayoutMmap<'_>,
    owned: GgufLayout,
    bytes: Seq<u8>,
    path: Seq<char>,
    limits: ParseLimits,
)
    requires
        layout::parsed_layout(bytes, path, limits) == Ok::<LayoutView, ErrorView>(mapped.header()),
        layout::parsed_layout(bytes, path, limits) == Ok::<LayoutView, ErrorView>(owned.header()),
    ensures
        mapped.header() == owned.header(),
        mapped.tensors@.dom() == owned.tensors@.dom(),
        mapped.metadata@.arch() == owned.metadata@.arch(),
{
    assert(mapped.tensors@.dom() =~= mapped.header().tensors.dom());
    assert(owned.tensors@.dom() =~= owned.header().tensors.dom());
}

} // verus!
