//! The plot descriptor: filename parsing, size validation, conversion mode
//! selection and output naming.
//!
//! A plot file's name carries its structural parameters as `_`-separated
//! decimal segments: `{id}_{offset}_{nonces}_{stagger}[...]`.  Only the
//! "optimized" layout, where the stagger size equals the nonce count, can be
//! converted, and the file must hold exactly `nonces * NONCE_SIZE` bytes.
//!
//! The caller owns the filesystem: it checks that the source path is a
//! regular file and whether a supplied output directory is a directory, then
//! hands this module the base file name, the file's size in bytes, and the
//! outcome of the directory check.

use crate::digits::{
    dec_i64_val, dec_str, dec_val, is_dec_i64, is_dec_u64, parse_i64_dec, parse_u64_dec,
    push_dec_u64, u64_digits, u64_to_dec_string,
};
use vstd::prelude::*;
use vstd::string::StringExecFns;
use vstd::string::StringSliceAdditionalSpecFns;

verus! {

/// Number of scoops in one nonce's data.
pub const SCOOPS_IN_NONCE: u64 = 4096;

/// Size in bytes of one Shabal-256 digest.
pub const SHABAL256_HASH_SIZE: u64 = 32;

/// Size in bytes of one scoop entry: two digests, a first and a second half.
pub const SCOOP_SIZE: u64 = SHABAL256_HASH_SIZE * 2;

/// Total bytes one nonce occupies in the file.
pub const NONCE_SIZE: u64 = SCOOP_SIZE * SCOOPS_IN_NONCE;

/// Index of the first byte at or after `from` that holds a `_` separator,
/// or `s.len()` when there is none.
pub open spec fn next_sep(s: Seq<u8>, from: int) -> int
    decreases s.len() - from,
    when 0 <= from <= s.len()
{
    if from >= s.len() {
        s.len() as int
    } else if s[from] == 95 {
        from
    } else {
        next_sep(s, from + 1)
    }
}

/// First byte of the `k`-th `_`-separated segment.
pub open spec fn seg_start(s: Seq<u8>, k: nat) -> int
    decreases k,
{
    if k == 0 {
        0
    } else {
        next_sep(s, seg_start(s, (k - 1) as nat)) + 1
    }
}

/// One past the last byte of the `k`-th `_`-separated segment.
pub open spec fn seg_end(s: Seq<u8>, k: nat) -> int {
    next_sep(s, seg_start(s, k))
}

/// The name splits into at least `k + 1` `_`-separated segments.
pub open spec fn has_seg(s: Seq<u8>, k: nat) -> bool
    decreases k,
{
    if k == 0 {
        true
    } else {
        has_seg(s, (k - 1) as nat) && seg_end(s, (k - 1) as nat) < s.len()
    }
}

/// The `k`-th `_`-separated segment.
pub open spec fn seg(s: Seq<u8>, k: nat) -> Seq<u8> {
    s.subrange(seg_start(s, k), seg_end(s, k))
}

/// The name splits into at least four segments whose first four parse as
/// `u64`, `u64`, `i64` and `i64`.
pub open spec fn valid_plot_name(n: Seq<u8>) -> bool {
    &&& has_seg(n, 3)
    &&& is_dec_u64(seg(n, 0))
    &&& is_dec_u64(seg(n, 1))
    &&& is_dec_i64(seg(n, 2))
    &&& is_dec_i64(seg(n, 3))
}

/// Numeric owner identifier carried by the name's first segment.
pub open spec fn name_id(n: Seq<u8>) -> nat {
    dec_val(u64_digits(seg(n, 0)))
}

/// Starting nonce offset carried by the name's second segment.
pub open spec fn name_offset(n: Seq<u8>) -> nat {
    dec_val(u64_digits(seg(n, 1)))
}

/// Nonce count carried by the name's third segment.
pub open spec fn name_nonces(n: Seq<u8>) -> int {
    dec_i64_val(seg(n, 2))
}

/// Stagger size carried by the name's fourth segment.
pub open spec fn name_stagger(n: Seq<u8>) -> int {
    dec_i64_val(seg(n, 3))
}

/// Which part of the file name failed to parse.
#[derive(Debug, Clone, Copy, PartialEq, Eq)]
pub enum NameField {
    /// Fewer than four `_`-separated segments.
    Format,
    /// The first segment is not a decimal `u64`.
    Id,
    /// The second segment is not a decimal `u64`.
    Offset,
    /// The third segment is not a decimal `i64`.
    Nonces,
    /// The fourth segment is not a decimal `i64`.
    Stagger,
}

/// Why a plot descriptor could not be constructed.
#[derive(Debug, Clone, Copy, PartialEq, Eq)]
pub enum PlotError {
    /// The file name does not follow the `{id}_{offset}_{nonces}_{stagger}`
    /// convention; says which field failed.
    MalformedFilename(NameField),
    /// The stagger size differs from the nonce count: the plot is not
    /// "optimized" and cannot be converted.
    UnsupportedLayout,
    /// The file does not hold exactly `nonces * NONCE_SIZE` bytes.
    SizeMismatch { expected: i128, actual: u64 },
    /// The supplied output directory is not a directory.
    InvalidOutputDirectory,
}

/// A validated plot descriptor: the structural parameters of one optimized
/// PoC1 plot file, constructed once per invocation and immutable thereafter.
#[derive(Debug, Clone, Copy)]
pub struct Plot {
    /// Numeric owner/account identifier.
    pub id: u64,
    /// Starting nonce offset.
    pub offset: u64,
    /// Number of nonces stored in the file.
    pub nonces: i64,
    /// Size of the underlying file in bytes.
    pub size: u64,
    /// True when no output directory was supplied: the conversion happens
    /// in place and the source is renamed afterwards.
    pub inline: bool,
}

/// Index of the next `_` separator at or after `from`, or `s.len()`.
fn find_sep(s: &[u8], from: usize) -> (r: usize)
    requires
        from <= s@.len(),
    ensures
        r == next_sep(s@, from as int),
        from <= r <= s@.len(),
{
    let mut i: usize = from;
    while i < s.len()
        invariant
            from <= i <= s@.len(),
            next_sep(s@, from as int) == next_sep(s@, i as int),
        decreases s@.len() - i,
    {
        if s[i] == 95 {
            assert(next_sep(s@, i as int) == i as int);
            return i;
        }
        assert(next_sep(s@, i as int) == next_sep(s@, i + 1));
        i = i + 1;
    }
    assert(next_sep(s@, i as int) == i as int);
    i
}

impl Plot {
    /// The descriptor invariant: a nonnegative nonce count whose implied
    /// size is exactly the file's size.
    pub open spec fn wf(&self) -> bool {
        &&& self.nonces >= 0
        &&& self.size == self.nonces * (NONCE_SIZE as int)
    }

    /// Parses and validates a plot descriptor.
    ///
    /// `file_name` is the base name of the source file, which must already
    /// exist as a regular file; `file_size` is its size in bytes.
    /// `out_dir_is_dir` reports on the optional output directory: `None`
    /// when none was supplied (conversion then happens in place), and
    /// otherwise whether the supplied path is a directory.
    ///
    /// Pure validation: reads nothing and mutates nothing.  Each rejected
    /// input gets the error naming the first expectation it violates, in
    /// the order the checks run: output directory, name format, layout,
    /// size.
    pub fn new(file_name: &str, file_size: u64, out_dir_is_dir: Option<bool>) -> (r: Result<
        Plot,
        PlotError,
    >)
        ensures
            ({
                let n = file_name.spec_bytes();
                match r {
                    Ok(p) => {
                        &&& out_dir_is_dir != Some(false)
                        &&& valid_plot_name(n)
                        &&& name_nonces(n) == name_stagger(n)
                        &&& file_size == name_nonces(n) * (NONCE_SIZE as int)
                        &&& p.id == name_id(n)
                        &&& p.offset == name_offset(n)
                        &&& p.nonces == name_nonces(n)
                        &&& p.size == file_size
                        &&& p.inline == out_dir_is_dir.is_none()
                        &&& p.wf()
                    },
                    Err(e) => match e {
                        PlotError::InvalidOutputDirectory => out_dir_is_dir == Some(false),
                        PlotError::MalformedFilename(f) => {
                            &&& out_dir_is_dir != Some(false)
                            &&& match f {
                                NameField::Format => !has_seg(n, 3),
                                NameField::Id => has_seg(n, 3) && !is_dec_u64(seg(n, 0)),
                                NameField::Offset => has_seg(n, 3) && is_dec_u64(seg(n, 0))
                                    && !is_dec_u64(seg(n, 1)),
                                NameField::Nonces => has_seg(n, 3) && is_dec_u64(seg(n, 0))
                                    && is_dec_u64(seg(n, 1)) && !is_dec_i64(seg(n, 2)),
                                NameField::Stagger => has_seg(n, 3) && is_dec_u64(seg(n, 0))
                                    && is_dec_u64(seg(n, 1)) && is_dec_i64(seg(n, 2))
                                    && !is_dec_i64(seg(n, 3)),
                            }
                        },
                        PlotError::UnsupportedLayout => {
                            &&& out_dir_is_dir != Some(false)
                            &&& valid_plot_name(n)
                            &&& name_nonces(n) != name_stagger(n)
                        },
                        PlotError::SizeMismatch { expected, actual } => {
                            &&& out_dir_is_dir != Some(false)
                            &&& valid_plot_name(n)
                            &&& name_nonces(n) == name_stagger(n)
                            &&& expected == name_nonces(n) * (NONCE_SIZE as int)
                            &&& actual == file_size
                            &&& file_size != name_nonces(n) * (NONCE_SIZE as int)
                        },
                    },
                }
            }),
    {
        if out_dir_is_dir == Some(false) {
            return Err(PlotError::InvalidOutputDirectory);
        }
        let b = file_name.as_bytes();
        let ghost n = file_name.spec_bytes();

        let u1 = find_sep(b, 0);
        assert(seg_end(n, 0) == u1);
        if u1 == b.len() {
            assert(!has_seg(n, 1));
            assert(!has_seg(n, 2));
            assert(!has_seg(n, 3));
            return Err(PlotError::MalformedFilename(NameField::Format));
        }
        let u2 = find_sep(b, u1 + 1);
        assert(seg_start(n, 1) == u1 + 1);
        assert(seg_end(n, 1) == u2);
        if u2 == b.len() {
            assert(!has_seg(n, 2));
            assert(!has_seg(n, 3));
            return Err(PlotError::MalformedFilename(NameField::Format));
        }
        let u3 = find_sep(b, u2 + 1);
        assert(seg_start(n, 2) == u2 + 1);
        assert(seg_end(n, 2) == u3);
        if u3 == b.len() {
            assert(!has_seg(n, 3));
            return Err(PlotError::MalformedFilename(NameField::Format));
        }
        let u4 = find_sep(b, u3 + 1);
        assert(seg_start(n, 3) == u3 + 1);
        assert(seg_end(n, 3) == u4);
        assert(has_seg(n, 0));
        assert(has_seg(n, 1));
        assert(has_seg(n, 2));
        assert(has_seg(n, 3));

        let s0 = &b[0..u1];
        assert(s0@ =~= seg(n, 0));
        let id = match parse_u64_dec(s0) {
            Some(v) => v,
            None => {
                return Err(PlotError::MalformedFilename(NameField::Id));
            },
        };
        let s1 = &b[u1 + 1..u2];
        assert(s1@ =~= seg(n, 1));
        let offset = match parse_u64_dec(s1) {
            Some(v) => v,
            None => {
                return Err(PlotError::MalformedFilename(NameField::Offset));
            },
        };
        let s2 = &b[u2 + 1..u3];
        assert(s2@ =~= seg(n, 2));
        let nonces = match parse_i64_dec(s2) {
            Some(v) => v,
            None => {
                return Err(PlotError::MalformedFilename(NameField::Nonces));
            },
        };
        let s3 = &b[u3 + 1..u4];
        assert(s3@ =~= seg(n, 3));
        let stagger = match parse_i64_dec(s3) {
            Some(v) => v,
            None => {
                return Err(PlotError::MalformedFilename(NameField::Stagger));
            },
        };

        if nonces != stagger {
            return Err(PlotError::UnsupportedLayout);
        }

        let expected: i128 = (nonces as i128) * (NONCE_SIZE as i128);
        if (file_size as i128) != expected {
            return Err(PlotError::SizeMismatch { expected, actual: file_size });
        }

        proof {
            assert(nonces >= 0) by (nonlinear_arith)
                requires
                    nonces * (NONCE_SIZE as int) == file_size,
                    file_size >= 0,
                    NONCE_SIZE == 262144,
            ;
        }
        Ok(
            Plot {
                id,
                offset,
                nonces,
                size: file_size,
                inline: out_dir_is_dir.is_none(),
            },
        )
    }

    /// The canonical PoC2 output name: `{id}_{offset}_{nonces}` - the
    /// stagger segment of the source name is dropped.
    pub fn poc2_name(&self) -> (r: String)
        requires
            self.wf(),
        ensures
            r@ == dec_str(self.id as nat) + seq!['_'] + dec_str(self.offset as nat) + seq!['_']
                + dec_str(self.nonces as nat),
    {
        let mut s = u64_to_dec_string(self.id);
        proof {
            reveal_strlit("_");
        }
        s.append("_");
        push_dec_u64(self.offset, &mut s);
        s.append("_");
        push_dec_u64(self.nonces as u64, &mut s);
        proof {
            assert(s@ =~= dec_str(self.id as nat) + seq!['_'] + dec_str(self.offset as nat)
                + seq!['_'] + dec_str(self.nonces as nat));
        }
        s
    }
}

} // verus!

