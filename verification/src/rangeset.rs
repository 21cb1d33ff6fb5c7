//! Block ranges and ordered range sets, with the parser for their compact
//! comma-separated encoding `count,start1,end1,start2,end2,...`.
use crate::bytes::dec_val;
use crate::bytes::is_uint_token;
use crate::bytes::parse_u64;
use crate::bytes::split_bytes;
use crate::bytes::split_on;
use crate::error::Error;
use vstd::prelude::*;

verus! {

/// A half-open interval `[start, end)` of block indices. A meaningful range
/// has `start < end`.
#[derive(Debug, Clone, Copy, PartialEq, Eq, Structural, Default)]
pub struct Range {
    pub start: u64,
    pub end: u64,
}

impl Range {
    /// True of ranges that cover at least one block.
    pub open spec fn wf(self) -> bool {
        self.start < self.end
    }

    pub fn new(start: u64, end: u64) -> (r: Range)
        ensures
            r == (Range { start, end }),
    {
        Range { start, end }
    }

    /// The two bounds as a pair, start first.
    pub fn inner(&self) -> (r: (u64, u64))
        ensures
            r == (self.start, self.end),
    {
        (self.start, self.end)
    }

    pub fn start(&self) -> (r: u64)
        ensures
            r == self.start,
    {
        self.start
    }

    pub fn end(&self) -> (r: u64)
        ensures
            r == self.end,
    {
        self.end
    }

    /// Number of blocks the range covers.
    pub fn len(&self) -> (r: u64)
        requires
            self.start <= self.end,
        ensures
            r == self.end - self.start,
    {
        self.end - self.start
    }
}

/// An ordered sequence of ranges; order is load-bearing, since it fixes the
/// order in which `new` commands draw bytes from the data stream. Ranges are
/// kept exactly as declared: no sorting, no merging, duplicates and overlaps
/// included.
#[derive(Debug, Clone, Default)]
pub struct RangeSet {
    pub pairs: Vec<Range>,
}

impl View for RangeSet {
    type V = Seq<Range>;

    open spec fn view(&self) -> Seq<Range> {
        self.pairs@
    }
}

/// The tokens of a range-set encoding: the pieces between commas.
pub open spec fn range_tokens(s: Seq<u8>) -> Seq<Seq<u8>> {
    split_on(s, 44)
}

/// The ranges encoded by a token list, pairwise after the leading count.
pub open spec fn ranges_of_tokens(toks: Seq<Seq<u8>>) -> Seq<Range> {
    Seq::new(
        ((toks.len() - 1) / 2) as nat,
        |k: int|
            Range {
                start: dec_val(toks[1 + 2 * k]) as u64,
                end: dec_val(toks[2 + 2 * k]) as u64,
            },
    )
}

/// What a range-set encoding means: `Some(ranges)` for a valid encoding,
/// `None` when there are fewer than three tokens, a token is not a decimal
/// `u64`, the declared count is zero, odd, or differs from the number of
/// remaining tokens, or a pair does not satisfy `start < end`.
pub open spec fn parse_range_set_spec(s: Seq<u8>) -> Option<Seq<Range>> {
    let toks = range_tokens(s);
    if toks.len() < 3 {
        None
    } else if !(forall|i: int|
        0 <= i < toks.len() ==> is_uint_token(#[trigger] toks[i], u64::MAX as nat)) {
        None
    } else {
        let count = dec_val(toks[0]);
        if count == 0 || count % 2 != 0 || count != toks.len() - 1 {
            None
        } else {
            let ranges = ranges_of_tokens(toks);
            if forall|k: int| 0 <= k < ranges.len() ==> (#[trigger] ranges[k]).wf() {
                Some(ranges)
            } else {
                None
            }
        }
    }
}

impl RangeSet {
    /// True when every range covers at least one block.
    pub open spec fn wf(self) -> bool {
        forall|k: int| 0 <= k < self@.len() ==> (#[trigger] self@[k]).wf()
    }

    pub fn new(pairs: Vec<Range>) -> (r: RangeSet)
        ensures
            r@ == pairs@,
    {
        RangeSet { pairs }
    }

    /// The ranges, in declaration order.
    pub fn pairs(&self) -> (r: &Vec<Range>)
        ensures
            r@ == self@,
    {
        &self.pairs
    }

    /// A cursor over the ranges, in declaration order.
    pub fn iter(&self) -> (r: Iter<'_>)
        ensures
            r.pairs@ == self@,
            r.index == 0,
    {
        Iter { pairs: &self.pairs, index: 0 }
    }

    /// Parse the comma-separated encoding. Returns the ranges exactly as
    /// `parse_range_set_spec` reads them, and `MalformedRangeSet` exactly on
    /// the encodings that function rejects.
    pub fn parse(text: &[u8]) -> (r: Result<RangeSet, Error>)
        ensures
            match r {
                Ok(rs) => parse_range_set_spec(text@) == Some(rs@) && rs.wf(),
                Err(e) => parse_range_set_spec(text@) is None && e@
                    == crate::error::ErrorSpec::MalformedRangeSet,
            },
    {
        let toks = split_bytes(text, 44);
        let ghost tseq = range_tokens(text@);
        proof {
            assert(toks@.map_values(|t: Vec<u8>| t@) == tseq);
        }
        if toks.len() < 3 {
            return Err(Error::MalformedRangeSet);
        }
        let ntoks = toks.len();
        let mut vals: Vec<u64> = Vec::new();
        let mut i: usize = 0;
        while i < ntoks
            invariant
                0 <= i <= ntoks,
                ntoks == toks@.len(),
                ntoks >= 3,
                vals@.len() == i,
                tseq == range_tokens(text@),
                toks@.map_values(|t: Vec<u8>| t@) == tseq,
                forall|j: int|
                    0 <= j < i ==> is_uint_token(#[trigger] tseq[j], u64::MAX as nat)
                        && vals@[j] == dec_val(tseq[j]),
            decreases ntoks - i,
        {
            proof {
                assert(toks@[i as int]@ == tseq[i as int]);
            }
            match parse_u64(toks[i].as_slice()) {
                Some(v) => {
                    vals.push(v);
                },
                None => {
                    proof {
                        assert(!is_uint_token(tseq[i as int], u64::MAX as nat));
                    }
                    return Err(Error::MalformedRangeSet);
                },
            }
            i = i + 1;
        }
        let count = vals[0];
        if count == 0 || count % 2 != 0 || count != (toks.len() - 1) as u64 {
            return Err(Error::MalformedRangeSet);
        }
        let npairs: usize = (toks.len() - 1) / 2;
        let ghost expected = ranges_of_tokens(tseq);
        proof {
            assert(expected.len() == npairs);
        }
        let mut pairs: Vec<Range> = Vec::new();
        let mut k: usize = 0;
        proof {
            assert(pairs@ =~= expected.take(0));
        }
        while k < npairs
            invariant
                0 <= k <= npairs,
                ntoks == tseq.len(),
                ntoks >= 3,
                npairs == (ntoks - 1) / 2,
                2 * npairs == ntoks - 1,
                vals@.len() == ntoks,
                tseq == range_tokens(text@),
                dec_val(tseq[0]) == tseq.len() - 1,
                dec_val(tseq[0]) % 2 == 0,
                dec_val(tseq[0]) != 0,
                forall|j: int|
                    0 <= j < tseq.len() ==> is_uint_token(#[trigger] tseq[j], u64::MAX as nat)
                        && vals@[j] == dec_val(tseq[j]),
                expected == ranges_of_tokens(tseq),
                pairs@ == expected.take(k as int),
                forall|j: int| 0 <= j < k ==> (#[trigger] expected[j]).wf(),
            decreases npairs - k,
        {
            let s = vals[1 + 2 * k];
            let e = vals[2 + 2 * k];
            if s >= e {
                proof {
                    assert(expected[k as int] == (Range { start: s, end: e }));
                    assert(!expected[k as int].wf());
                }
                return Err(Error::MalformedRangeSet);
            }
            pairs.push(Range { start: s, end: e });
            proof {
                assert(expected[k as int] == (Range { start: s, end: e }));
                assert(pairs@ =~= expected.take(k as int + 1));
            }
            k = k + 1;
        }
        proof {
            assert(pairs@ =~= expected);
        }
        Ok(RangeSet { pairs })
    }
}

/// A cursor over a range set's ranges, front to back.
pub struct Iter<'a> {
    pub pairs: &'a Vec<Range>,
    pub index: usize,
}

impl<'a> Iter<'a> {
    /// The next range in declaration order, or `None` once all are seen.
    pub fn next(&mut self) -> (r: Option<&'a Range>)
        ensures
            old(self).pairs == final(self).pairs,
            match r {
                Some(rg) => old(self).index < old(self).pairs@.len() && *rg
                    == old(self).pairs@[old(self).index as int] && final(self).index == old(
                    self,
                ).index + 1,
                None => old(self).index >= old(self).pairs@.len() && final(self).index == old(
                    self,
                ).index,
            },
    {
        if self.index < self.pairs.len() {
            let result = Some(&self.pairs[self.index]);
            self.index = self.index + 1;
            result
        } else {
            None
        }
    }
}

/// Round trip of a valid encoding: the parsed ranges reproduce, pair by pair
/// and in order, exactly the pairs the token list declares, and the declared
/// count is exactly twice the number of parsed ranges.
pub proof fn lemma_range_set_round_trip(s: Seq<u8>, ranges: Seq<Range>)
    requires
        parse_range_set_spec(s) == Some(ranges),
    ensures
        ranges.len() == (range_tokens(s).len() - 1) / 2,
        dec_val(range_tokens(s)[0]) == 2 * ranges.len(),
        forall|k: int|
            0 <= k < ranges.len() ==> (#[trigger] ranges[k]).start == dec_val(
                range_tokens(s)[1 + 2 * k],
            ) && ranges[k].end == dec_val(range_tokens(s)[2 + 2 * k]),
{
    let toks = range_tokens(s);
    let count = dec_val(toks[0]);
    assert(count == toks.len() - 1 && count % 2 == 0);
    assert(ranges == ranges_of_tokens(toks));
    assert forall|k: int| 0 <= k < ranges.len() implies (#[trigger] ranges[k]).start == dec_val(
        toks[1 + 2 * k],
    ) && ranges[k].end == dec_val(toks[2 + 2 * k]) by {
        assert(is_uint_token(toks[1 + 2 * k], u64::MAX as nat));
        assert(is_uint_token(toks[2 + 2 * k], u64::MAX as nat));
    }
}

/// A declared count that is zero, odd, or different from the number of
/// remaining tokens makes the whole encoding invalid.
pub proof fn lemma_bad_count_rejected(s: Seq<u8>)
    requires
        range_tokens(s).len() >= 3,
        dec_val(range_tokens(s)[0]) == 0 || dec_val(range_tokens(s)[0]) % 2 != 0 || dec_val(
            range_tokens(s)[0],
        ) != range_tokens(s).len() - 1,
    ensures
        parse_range_set_spec(s) is None,
{
}

} // verus!
