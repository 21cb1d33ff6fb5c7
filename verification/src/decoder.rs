//! The replay engine: sizing the destination image from the highest block any
//! command references, and turning `new` commands into sequential reads of
//! the source stream written at scattered destination offsets.
use crate::error::Error;
use crate::error::ErrorSpec;
use crate::rangeset::Range;
use crate::transfer_list::cmd_ranges;
use crate::transfer_list::commands_wf;
use crate::transfer_list::Command;
use crate::transfer_list::CommandModel;
use crate::transfer_list::TransferList;
use crate::BLOCK_SIZE;
use vstd::prelude::*;

verus! {

/// One destination write: `length` bytes of the source stream, taken in
/// stream order, land at byte `offset` of the image.
#[derive(Debug, Clone, Copy, PartialEq, Eq, Structural)]
pub struct WriteOp {
    pub offset: u64,
    pub length: u64,
}

/// The largest `end` bound among a sequence of ranges, or zero when there is
/// none.
pub open spec fn set_max_end(rs: Seq<Range>) -> nat
    decreases rs.len(),
{
    if rs.len() == 0 {
        0
    } else {
        let m = set_max_end(rs.drop_last());
        if rs.last().end > m {
            rs.last().end as nat
        } else {
            m
        }
    }
}

/// The largest `end` bound among all ranges of all commands.
pub open spec fn cmds_max_end(cs: Seq<CommandModel>) -> nat
    decreases cs.len(),
{
    if cs.len() == 0 {
        0
    } else {
        let m = cmds_max_end(cs.drop_last());
        let m2 = set_max_end(cmd_ranges(cs.last()));
        if m2 > m {
            m2
        } else {
            m
        }
    }
}

/// How many ranges the commands hold in all, whatever their kind.
pub open spec fn range_count(cs: Seq<CommandModel>) -> nat
    decreases cs.len(),
{
    if cs.len() == 0 {
        0
    } else {
        range_count(cs.drop_last()) + cmd_ranges(cs.last()).len()
    }
}

/// The size in bytes of the reconstructed image: the block size times the
/// highest block any range of any command references.
pub open spec fn image_size(cs: Seq<CommandModel>) -> nat {
    (BLOCK_SIZE * cmds_max_end(cs)) as nat
}

/// The ranges of the `New` commands only, in command order and, within a
/// command, in declaration order.
pub open spec fn new_ranges(cs: Seq<CommandModel>) -> Seq<Range>
    decreases cs.len(),
{
    if cs.len() == 0 {
        Seq::empty()
    } else {
        new_ranges(cs.drop_last()) + (match cs.last() {
            CommandModel::New(rs) => rs,
            _ => Seq::<Range>::empty(),
        })
    }
}

/// The write op a range stands for, in byte units.
pub open spec fn range_op(r: Range) -> WriteOp {
    WriteOp {
        offset: (r.start * BLOCK_SIZE) as u64,
        length: ((r.end - r.start) * BLOCK_SIZE) as u64,
    }
}

/// The ordered write plan of a command list: one op per range of each `New`
/// command; `Erase` and `Zero` contribute nothing.
pub open spec fn ops_of(cs: Seq<CommandModel>) -> Seq<WriteOp> {
    new_ranges(cs).map_values(|r: Range| range_op(r))
}

/// Total number of source bytes the ops consume.
pub open spec fn ops_total_len(ops: Seq<WriteOp>) -> nat
    decreases ops.len(),
{
    if ops.len() == 0 {
        0
    } else {
        (ops_total_len(ops.drop_last()) + ops.last().length) as nat
    }
}

/// `img` with `data` overwriting the bytes from `off` on.
pub open spec fn splice(img: Seq<u8>, off: int, data: Seq<u8>) -> Seq<u8> {
    img.subrange(0, off) + data + img.subrange(off + data.len(), img.len() as int)
}

/// An all-zero image of `n` bytes, as pre-allocation leaves the destination.
pub open spec fn zero_image(n: nat) -> Seq<u8> {
    Seq::new(n, |i: int| 0u8)
}

/// Replay of the write plan against an image: each op in order writes the
/// next `length` source bytes, starting at the read position `pos`, to its
/// offset. Returns the final image and final read position.
pub open spec fn replay_ops(img: Seq<u8>, src: Seq<u8>, pos: nat, ops: Seq<WriteOp>) -> (
    Seq<u8>,
    nat,
)
    decreases ops.len(),
{
    if ops.len() == 0 {
        (img, pos)
    } else {
        let op = ops[0];
        replay_ops(
            splice(img, op.offset as int, src.subrange(pos as int, pos + op.length)),
            src,
            (pos + op.length) as nat,
            ops.drop_first(),
        )
    }
}

/// What reconstruction returns: `EmptyTransferList` when no range exists to
/// size the image from; `TruncatedSource` when the source holds fewer bytes
/// than the `New` ranges need in all; else the replayed image, starting from
/// all zeroes.
pub open spec fn decode_spec(cs: Seq<CommandModel>, src: Seq<u8>) -> Result<Seq<u8>, ErrorSpec> {
    if range_count(cs) == 0 {
        Err(ErrorSpec::EmptyTransferList)
    } else if ops_total_len(ops_of(cs)) > src.len() {
        Err(ErrorSpec::TruncatedSource)
    } else {
        Ok(replay_ops(zero_image(image_size(cs)), src, 0, ops_of(cs)).0)
    }
}

/// Every range's `end` is bounded by the set's maximum.
pub proof fn lemma_set_max_end_ge(rs: Seq<Range>, j: int)
    requires
        0 <= j < rs.len(),
    ensures
        rs[j].end <= set_max_end(rs),
    decreases rs.len(),
{
    if j == rs.len() - 1 {
    } else {
        lemma_set_max_end_ge(rs.drop_last(), j);
        assert(rs.drop_last()[j] == rs[j]);
    }
}

/// The command-list maximum dominates each command's own maximum.
pub proof fn lemma_cmds_max_end_ge(cs: Seq<CommandModel>, i: int)
    requires
        0 <= i < cs.len(),
    ensures
        set_max_end(cmd_ranges(cs[i])) <= cmds_max_end(cs),
    decreases cs.len(),
{
    if i == cs.len() - 1 {
    } else {
        lemma_cmds_max_end_ge(cs.drop_last(), i);
        assert(cs.drop_last()[i] == cs[i]);
    }
}

/// The image size bounds every block any command references: each range ends
/// at or before block `cmds_max_end(cs)`.
pub proof fn lemma_max_end_bounds(cs: Seq<CommandModel>)
    ensures
        forall|i: int, j: int|
            0 <= i < cs.len() && 0 <= j < cmd_ranges(#[trigger] cs[i]).len() ==> (
            #[trigger] cmd_ranges(cs[i])[j]).end <= cmds_max_end(cs),
{
    assert forall|i: int, j: int|
        0 <= i < cs.len() && 0 <= j < cmd_ranges(#[trigger] cs[i]).len() implies (
    #[trigger] cmd_ranges(cs[i])[j]).end <= cmds_max_end(cs) by {
        lemma_set_max_end_ge(cmd_ranges(cs[i]), j);
        lemma_cmds_max_end_ge(cs, i);
    }
}

/// The image size is tight: when any range exists at all, some range's `end`
/// equals `cmds_max_end(cs)`.
pub proof fn lemma_max_end_reached(cs: Seq<CommandModel>)
    requires
        range_count(cs) > 0,
    ensures
        exists|i: int, j: int|
            0 <= i < cs.len() && 0 <= j < cmd_ranges(#[trigger] cs[i]).len() && (#[trigger] cmd_ranges(
                cs[i],
            )[j]).end == cmds_max_end(cs),
    decreases cs.len(),
{
    let last = cmd_ranges(cs.last());
    let m = cmds_max_end(cs.drop_last());
    let m2 = set_max_end(last);
    if m2 > m || range_count(cs.drop_last()) == 0 {
        if range_count(cs.drop_last()) == 0 {
            lemma_no_ranges_zero_max(cs.drop_last());
            assert(m == 0);
        }
        assert(last.len() > 0);
        lemma_set_max_end_reached(last);
        let j = choose|j: int| 0 <= j < last.len() && (#[trigger] last[j]).end == m2;
        assert(cmd_ranges(cs[cs.len() - 1])[j].end == cmds_max_end(cs));
    } else {
        lemma_max_end_reached(cs.drop_last());
        let (i, j): (int, int) = choose|i: int, j: int|
            0 <= i < cs.drop_last().len() && 0 <= j < cmd_ranges(
                #[trigger] cs.drop_last()[i],
            ).len() && (#[trigger] cmd_ranges(cs.drop_last()[i])[j]).end == cmds_max_end(
                cs.drop_last(),
            );
        assert(cs.drop_last()[i] == cs[i]);
        assert(cmd_ranges(cs[i])[j].end == cmds_max_end(cs));
    }
}

/// A command list with no ranges at all references no block.
pub proof fn lemma_no_ranges_zero_max(cs: Seq<CommandModel>)
    requires
        range_count(cs) == 0,
    ensures
        cmds_max_end(cs) == 0,
    decreases cs.len(),
{
    if cs.len() > 0 {
        lemma_no_ranges_zero_max(cs.drop_last());
    }
}

/// A non-empty range sequence reaches its maximum.
proof fn lemma_set_max_end_reached(rs: Seq<Range>)
    requires
        rs.len() > 0,
    ensures
        exists|j: int| 0 <= j < rs.len() && (#[trigger] rs[j]).end == set_max_end(rs),
    decreases rs.len(),
{
    let m = set_max_end(rs.drop_last());
    if rs.last().end > m || rs.len() == 1 {
        assert(rs[rs.len() - 1].end == set_max_end(rs));
    } else {
        lemma_set_max_end_reached(rs.drop_last());
        let j = choose|j: int| 0 <= j < rs.drop_last().len() && rs.drop_last()[j].end == m;
        assert(rs[j] == rs.drop_last()[j]);
        assert(rs[j].end == set_max_end(rs));
    }
}

/// Every planned write lies inside the image, and every planned range is
/// non-degenerate, whenever the commands are well-formed.
pub proof fn lemma_new_ranges_bounds(cs: Seq<CommandModel>)
    requires
        commands_wf(cs),
    ensures
        forall|k: int|
            0 <= k < new_ranges(cs).len() ==> (#[trigger] new_ranges(cs)[k]).wf() && new_ranges(
                cs,
            )[k].end <= cmds_max_end(cs),
    decreases cs.len(),
{
    if cs.len() > 0 {
        let dl = cs.drop_last();
        assert(commands_wf(dl)) by {
            assert forall|i: int| 0 <= i < dl.len() implies crate::transfer_list::cmd_wf(
                #[trigger] dl[i],
            ) by {
                assert(dl[i] == cs[i]);
            }
        }
        lemma_new_ranges_bounds(dl);
        let tail = match cs.last() {
            CommandModel::New(rs) => rs,
            _ => Seq::<Range>::empty(),
        };
        assert forall|k: int| 0 <= k < new_ranges(cs).len() implies (#[trigger] new_ranges(
            cs,
        )[k]).wf() && new_ranges(cs)[k].end <= cmds_max_end(cs) by {
            if k < new_ranges(dl).len() {
                assert(new_ranges(cs)[k] == new_ranges(dl)[k]);
                assert(cmds_max_end(dl) <= cmds_max_end(cs));
            } else {
                let j = k - new_ranges(dl).len();
                assert(new_ranges(cs)[k] == tail[j]);
                assert(crate::transfer_list::cmd_wf(cs[cs.len() - 1]));
                assert(tail[j] == cmd_ranges(cs[cs.len() - 1])[j]);
                lemma_set_max_end_ge(cmd_ranges(cs[cs.len() - 1]), j);
            }
        }
    }
}

/// A total over a longer prefix of the plan is no smaller.
pub proof fn lemma_ops_total_prefix(ops: Seq<WriteOp>, j: int)
    requires
        0 <= j <= ops.len(),
    ensures
        ops_total_len(ops.take(j)) <= ops_total_len(ops),
    decreases ops.len() - j,
{
    if j == ops.len() {
        assert(ops.take(j) =~= ops);
    } else {
        assert(ops.take(j + 1).drop_last() =~= ops.take(j));
        assert(ops.take(j + 1).last() == ops[j]);
        lemma_ops_total_prefix(ops, j + 1);
    }
}

/// Replaying one more op applies exactly that op to the image and position
/// the earlier ops left behind.
pub proof fn lemma_replay_push(
    img: Seq<u8>,
    src: Seq<u8>,
    pos: nat,
    ops: Seq<WriteOp>,
    op: WriteOp,
)
    ensures
        ({
            let before = replay_ops(img, src, pos, ops);
            replay_ops(img, src, pos, ops.push(op)) == (
                splice(
                    before.0,
                    op.offset as int,
                    src.subrange(before.1 as int, before.1 + op.length),
                ),
                (before.1 + op.length) as nat,
            )
        }),
    decreases ops.len(),
{
    reveal_with_fuel(replay_ops, 2);
    if ops.len() == 0 {
        assert(ops.push(op)[0] == op);
        assert(ops.push(op).drop_first() =~= Seq::<WriteOp>::empty());
    } else {
        assert(ops.push(op)[0] == ops[0]);
        assert(ops.push(op).drop_first() =~= ops.drop_first().push(op));
        let op0 = ops[0];
        lemma_replay_push(
            splice(img, op0.offset as int, src.subrange(pos as int, pos + op0.length)),
            src,
            (pos + op0.length) as nat,
            ops.drop_first(),
            op,
        );
    }
}

/// The source stream is consumed exactly once, left to right: replay advances
/// the read position by exactly the total length of the plan, so bytes are
/// never re-read and never skipped.
pub proof fn lemma_replay_consumes(img: Seq<u8>, src: Seq<u8>, pos: nat, ops: Seq<WriteOp>)
    ensures
        replay_ops(img, src, pos, ops).1 == pos + ops_total_len(ops),
    decreases ops.len(),
{
    if ops.len() > 0 {
        let dl = ops.drop_last();
        lemma_replay_consumes(img, src, pos, dl);
        lemma_replay_push(img, src, pos, dl, ops.last());
        assert(dl.push(ops.last()) =~= ops);
    }
}

/// Replaying the op at index `k` writes exactly `length` bytes at exactly
/// `offset`, and those bytes are the source bytes right after the ones the
/// previous ops consumed.
pub proof fn lemma_replay_op_effect(
    img: Seq<u8>,
    src: Seq<u8>,
    pos: nat,
    ops: Seq<WriteOp>,
    k: int,
)
    requires
        0 <= k < ops.len(),
    ensures
        ({
            let before = replay_ops(img, src, pos, ops.take(k));
            let after = replay_ops(img, src, pos, ops.take(k + 1));
            &&& after.0 == splice(
                before.0,
                ops[k].offset as int,
                src.subrange(before.1 as int, before.1 + ops[k].length),
            )
            &&& after.1 == before.1 + ops[k].length
            &&& before.1 == pos + ops_total_len(ops.take(k))
        }),
{
    lemma_replay_push(img, src, pos, ops.take(k), ops[k]);
    assert(ops.take(k).push(ops[k]) =~= ops.take(k + 1));
    lemma_replay_consumes(img, src, pos, ops.take(k));
}

/// What one splice does, byte for byte: the written window equals the data,
/// every byte outside it is untouched, and the image size does not change.
pub proof fn lemma_splice_effect(img: Seq<u8>, off: int, data: Seq<u8>)
    requires
        0 <= off,
        off + data.len() <= img.len(),
    ensures
        splice(img, off, data).len() == img.len(),
        splice(img, off, data).subrange(off, off + data.len() as int) == data,
        forall|j: int|
            0 <= j < img.len() && !(off <= j < off + data.len()) ==> splice(img, off, data)[j]
                == img[j],
{
    assert(splice(img, off, data).subrange(off, off + data.len() as int) =~= data);
}

/// `Erase` and `Zero` commands do no I/O: appending one to a command list
/// changes neither the write plan nor the number of source bytes consumed.
pub proof fn lemma_erase_zero_no_io(cs: Seq<CommandModel>, c: CommandModel)
    requires
        !(c is New),
    ensures
        ops_of(cs.push(c)) == ops_of(cs),
        ops_total_len(ops_of(cs.push(c))) == ops_total_len(ops_of(cs)),
        image_size(cs.push(c)) == if BLOCK_SIZE * set_max_end(cmd_ranges(c)) > image_size(cs) {
            (BLOCK_SIZE * set_max_end(cmd_ranges(c))) as int
        } else {
            image_size(cs) as int
        },
{
    assert(cs.push(c).drop_last() =~= cs);
    assert(cs.push(c).last() == c);
    assert(new_ranges(cs.push(c)) =~= new_ranges(cs));
    assert(ops_of(cs.push(c)) =~= ops_of(cs));
    let m = cmds_max_end(cs);
    let m2 = set_max_end(cmd_ranges(c));
    if m2 > m {
        vstd::arithmetic::mul::lemma_mul_inequality(m as int, m2 as int, BLOCK_SIZE as int);
        vstd::arithmetic::mul::lemma_mul_is_commutative(m as int, BLOCK_SIZE as int);
        vstd::arithmetic::mul::lemma_mul_is_commutative(m2 as int, BLOCK_SIZE as int);
    } else {
        vstd::arithmetic::mul::lemma_mul_inequality(m2 as int, m as int, BLOCK_SIZE as int);
        vstd::arithmetic::mul::lemma_mul_is_commutative(m as int, BLOCK_SIZE as int);
        vstd::arithmetic::mul::lemma_mul_is_commutative(m2 as int, BLOCK_SIZE as int);
    }
}

/// Copy `len` source bytes from `src[pos..]` into `img` at `off`.
fn write_at(img: &mut Vec<u8>, off: usize, src: &[u8], pos: usize, len: usize)
    requires
        off + len <= old(img)@.len(),
        pos + len <= src@.len(),
    ensures
        final(img)@ == splice(old(img)@, off as int, src@.subrange(pos as int, (pos + len) as int)),
{
    let il = img.len();
    let sl = src.len();
    let mut k: usize = 0;
    while k < len
        invariant
            0 <= k <= len,
            il == img@.len(),
            sl == src@.len(),
            off + len <= img@.len(),
            pos + len <= src@.len(),
            img@.len() == old(img)@.len(),
            forall|j: int| off <= j < off + k ==> img@[j] == src@[pos + (j - off)],
            forall|j: int|
                0 <= j < img@.len() && !(off <= j < off + k) ==> img@[j] == old(img)@[j],
        decreases len - k,
    {
        img[off + k] = src[pos + k];
        k = k + 1;
    }
    proof {
        assert(img@ =~= splice(old(img)@, off as int, src@.subrange(pos as int, (pos + len) as int)));
    }
}

/// The replay engine: holds the parsed transfer list and a quiet flag; the
/// write plan and the in-memory replay are both derived from the commands.
pub struct SparseDecoder {
    pub transfer_list: TransferList,
    pub quiet: bool,
}

impl SparseDecoder {
    /// True when the held transfer list is well-formed.
    pub open spec fn wf(self) -> bool {
        self.transfer_list.wf()
    }

    /// The commands the decoder replays, as spec values.
    pub open spec fn cmds(self) -> Seq<CommandModel> {
        self.transfer_list@.commands
    }

    pub fn new(transfer_list: TransferList) -> (r: SparseDecoder)
        ensures
            r.transfer_list == transfer_list,
            !r.quiet,
    {
        SparseDecoder { transfer_list, quiet: false }
    }

    /// Suppress progress notices; replay behaviour is unchanged.
    pub fn enable_quiet(&mut self)
        ensures
            final(self).quiet,
            final(self).transfer_list == old(self).transfer_list,
    {
        self.quiet = true;
    }

    /// Whether progress notices are suppressed.
    pub fn is_quiet(&self) -> (r: bool)
        ensures
            r == self.quiet,
    {
        self.quiet
    }

    /// The transfer list being replayed.
    pub fn transfer_list(&self) -> (r: &TransferList)
        ensures
            r == &self.transfer_list,
    {
        &self.transfer_list
    }

    /// One pass over all ranges: the highest `end` bound referenced, and
    /// whether any range exists at all.
    pub fn scan(&self) -> (r: (u64, bool))
        ensures
            r.0 == cmds_max_end(self.cmds()),
            r.1 == (range_count(self.cmds()) > 0),
    {
        let cmds = self.transfer_list.commands();
        let ghost cs = self.cmds();
        proof {
            assert(cmds@.map_values(|c: Command| c@) == cs);
        }
        let n = cmds.len();
        let mut maxend: u64 = 0;
        let mut any: bool = false;
        let mut i: usize = 0;
        proof {
            assert(cs.take(0) =~= Seq::<CommandModel>::empty());
        }
        while i < n
            invariant
                0 <= i <= n,
                n == cmds@.len(),
                cmds@.map_values(|c: Command| c@) == cs,
                maxend == cmds_max_end(cs.take(i as int)),
                any == (range_count(cs.take(i as int)) > 0),
            decreases n - i,
        {
            let rs = cmds[i].rangeset();
            let ghost ranges = cmd_ranges(cs[i as int]);
            proof {
                assert(cmds@[i as int]@ == cs[i as int]);
                assert(rs@ == ranges);
            }
            let m = rs.pairs().len();
            if m > 0 {
                any = true;
            }
            let mut j: usize = 0;
            let ghost base = cmds_max_end(cs.take(i as int));
            proof {
                assert(ranges.take(0) =~= Seq::<Range>::empty());
            }
            while j < m
                invariant
                    0 <= j <= m,
                    m == ranges.len(),
                    rs@ == ranges,
                    maxend == if set_max_end(ranges.take(j as int)) > base {
                        set_max_end(ranges.take(j as int))
                    } else {
                        base
                    },
                decreases m - j,
            {
                let r = rs.pairs()[j];
                proof {
                    assert(ranges.take(j as int + 1).drop_last() =~= ranges.take(j as int));
                    assert(ranges.take(j as int + 1).last() == ranges[j as int]);
                }
                if r.end > maxend {
                    maxend = r.end;
                }
                j = j + 1;
            }
            proof {
                assert(ranges.take(m as int) =~= ranges);
                assert(cs.take(i as int + 1).drop_last() =~= cs.take(i as int));
                assert(cs.take(i as int + 1).last() == cs[i as int]);
            }
            i = i + 1;
        }
        proof {
            assert(cs.take(n as int) =~= cs);
        }
        (maxend, any)
    }

    /// `plan`, with its machine limits tested at run time instead of
    /// required: `None` when the transfer list holds a reversed or empty
    /// range, or references a block so high that the image size overflows a
    /// 64-bit byte count; otherwise exactly what `plan` returns.
    pub fn try_plan(&self) -> (r: Option<Result<(u64, Vec<WriteOp>), Error>>)
        ensures
            match r {
                Some(p) => {
                    &&& self.wf()
                    &&& image_size(self.cmds()) <= u64::MAX
                    &&& match p {
                        Ok(q) => {
                            &&& q.0 == image_size(self.cmds())
                            &&& q.1@ == ops_of(self.cmds())
                            &&& range_count(self.cmds()) > 0
                        },
                        Err(e) => e@ == ErrorSpec::EmptyTransferList && range_count(self.cmds())
                            == 0,
                    }
                },
                None => !(self.wf() && image_size(self.cmds()) <= u64::MAX),
            },
    {
        if !self.transfer_list.check_wf() {
            return None;
        }
        let (maxend, _any) = self.scan();
        match BLOCK_SIZE.checked_mul(maxend) {
            Some(_) => Some(self.plan()),
            None => None,
        }
    }

    /// Compute the image size and the ordered write plan. The size is the
    /// block size times the highest referenced block; the plan holds one op
    /// per `New` range, in replay order. `EmptyTransferList` exactly when no
    /// command holds any range.
    pub fn plan(&self) -> (r: Result<(u64, Vec<WriteOp>), Error>)
        requires
            self.wf(),
            image_size(self.cmds()) <= u64::MAX,
        ensures
            match r {
                Ok(p) => {
                    &&& p.0 == image_size(self.cmds())
                    &&& p.1@ == ops_of(self.cmds())
                    &&& range_count(self.cmds()) > 0
                    &&& forall|k: int|
                        0 <= k < p.1@.len() ==> (#[trigger] p.1@[k]).offset + p.1@[k].length
                            <= image_size(self.cmds()) && p.1@[k].length > 0
                },
                Err(e) => e@ == ErrorSpec::EmptyTransferList && range_count(self.cmds()) == 0,
            },
    {
        let cmds = self.transfer_list.commands();
        let ghost cs = self.cmds();
        proof {
            assert(cmds@.map_values(|c: Command| c@) == cs);
        }
        let n = cmds.len();
        let (maxend, any) = self.scan();
        if !any {
            return Err(Error::EmptyTransferList);
        }
        let size = BLOCK_SIZE * maxend;
        proof {
            assert(size == image_size(cs));
            lemma_new_ranges_bounds(cs);
        }
        let mut ops: Vec<WriteOp> = Vec::new();
        let mut i2: usize = 0;
        proof {
            assert(cs.take(0) =~= Seq::<CommandModel>::empty());
            assert(ops@ =~= ops_of(cs.take(0))) by {
                assert(new_ranges(cs.take(0)) =~= Seq::<Range>::empty());
                assert(ops_of(cs.take(0)) =~= Seq::<WriteOp>::empty());
            }
        }
        while i2 < n
            invariant
                0 <= i2 <= n,
                n == cmds@.len(),
                cmds@.map_values(|c: Command| c@) == cs,
                commands_wf(cs),
                maxend == cmds_max_end(cs),
                BLOCK_SIZE * maxend <= u64::MAX,
                ops@ == ops_of(cs.take(i2 as int)),
            decreases n - i2,
        {
            let is_new = match cmds[i2] {
                Command::New(_) => true,
                _ => false,
            };
            let ghost ranges = cmd_ranges(cs[i2 as int]);
            proof {
                assert(cmds@[i2 as int]@ == cs[i2 as int]);
            }
            if is_new {
                let rs = cmds[i2].rangeset();
                proof {
                    assert(rs@ == ranges);
                }
                let m = rs.pairs().len();
                let mut j: usize = 0;
                proof {
                    assert(ranges.take(0) =~= Seq::<Range>::empty());
                    assert(ops@ =~= ops_of(cs.take(i2 as int)) + ranges.take(0).map_values(
                        |r: Range| range_op(r),
                    ));
                }
                while j < m
                    invariant
                        0 <= j <= m,
                        m == ranges.len(),
                        rs@ == ranges,
                        commands_wf(cs),
                        cs[i2 as int] is New,
                        0 <= i2 < cs.len(),
                        ranges == cmd_ranges(cs[i2 as int]),
                        maxend == cmds_max_end(cs),
                        BLOCK_SIZE * maxend <= u64::MAX,
                        ops@ == ops_of(cs.take(i2 as int)) + ranges.take(j as int).map_values(
                            |r: Range| range_op(r),
                        ),
                    decreases m - j,
                {
                    let r = rs.pairs()[j];
                    proof {
                        assert(crate::transfer_list::cmd_wf(cs[i2 as int]));
                        assert(ranges[j as int].wf());
                        lemma_set_max_end_ge(ranges, j as int);
                        lemma_cmds_max_end_ge(cs, i2 as int);
                        assert(r.end <= maxend);
                        vstd::arithmetic::mul::lemma_mul_inequality(
                            r.end as int,
                            maxend as int,
                            BLOCK_SIZE as int,
                        );
                        vstd::arithmetic::mul::lemma_mul_is_commutative(
                            r.end as int,
                            BLOCK_SIZE as int,
                        );
                        vstd::arithmetic::mul::lemma_mul_is_commutative(
                            maxend as int,
                            BLOCK_SIZE as int,
                        );
                        assert(r.end * BLOCK_SIZE <= u64::MAX);
                        assert(r.start * BLOCK_SIZE + (r.end - r.start) * BLOCK_SIZE == r.end
                            * BLOCK_SIZE) by (nonlinear_arith);
                    }
                    let off = r.start * BLOCK_SIZE;
                    let len = (r.end - r.start) * BLOCK_SIZE;
                    ops.push(WriteOp { offset: off, length: len });
                    proof {
                        assert(ranges.take(j as int + 1) =~= ranges.take(j as int).push(
                            ranges[j as int],
                        ));
                        assert(ops@ =~= ops_of(cs.take(i2 as int)) + ranges.take(j as int
                            + 1).map_values(|r: Range| range_op(r)));
                    }
                    j = j + 1;
                }
                proof {
                    assert(ranges.take(m as int) =~= ranges);
                }
            }
            proof {
                assert(cs.take(i2 as int + 1).drop_last() =~= cs.take(i2 as int));
                assert(cs.take(i2 as int + 1).last() == cs[i2 as int]);
                let tail = match cs[i2 as int] {
                    CommandModel::New(rs) => rs,
                    _ => Seq::<Range>::empty(),
                };
                assert(new_ranges(cs.take(i2 as int + 1)) == new_ranges(cs.take(i2 as int))
                    + tail);
                if !(cs[i2 as int] is New) {
                    assert(new_ranges(cs.take(i2 as int + 1)) =~= new_ranges(cs.take(i2 as int)));
                }
                assert(ops@ =~= ops_of(cs.take(i2 as int + 1)));
            }
            i2 = i2 + 1;
        }
        proof {
            assert(cs.take(n as int) =~= cs);
            lemma_new_ranges_bounds(cs);
            assert forall|k: int| 0 <= k < ops@.len() implies (#[trigger] ops@[k]).offset
                + ops@[k].length <= image_size(cs) && ops@[k].length > 0 by {
                let r = new_ranges(cs)[k];
                assert(ops@[k] == range_op(r));
                assert(r.wf() && r.end <= cmds_max_end(cs));
                vstd::arithmetic::mul::lemma_mul_inequality(
                    r.end as int,
                    cmds_max_end(cs) as int,
                    BLOCK_SIZE as int,
                );
                vstd::arithmetic::mul::lemma_mul_is_commutative(r.end as int, BLOCK_SIZE as int);
                vstd::arithmetic::mul::lemma_mul_is_commutative(
                    cmds_max_end(cs) as int,
                    BLOCK_SIZE as int,
                );
                assert(r.start * BLOCK_SIZE + (r.end - r.start) * BLOCK_SIZE == r.end
                    * BLOCK_SIZE) by (nonlinear_arith);
                assert((r.end - r.start) * BLOCK_SIZE > 0) by (nonlinear_arith)
                    requires
                        r.end > r.start,
                ;
            }
        }
        Ok((size, ops))
    }

    /// Replay the whole transfer against an in-memory source, producing the
    /// reconstructed image exactly as `decode_spec` describes it: sized from
    /// the highest referenced block, zero everywhere no `New` range lands,
    /// and each `New` range filled with the next source bytes in order.
    pub fn decode(&self, source: &[u8]) -> (r: Result<Vec<u8>, Error>)
        requires
            self.wf(),
            image_size(self.cmds()) <= usize::MAX,
        ensures
            match r {
                Ok(img) => decode_spec(self.cmds(), source@) == Ok::<Seq<u8>, ErrorSpec>(img@),
                Err(e) => decode_spec(self.cmds(), source@) == Err::<Seq<u8>, ErrorSpec>(e@),
            },
    {
        let ghost cs = self.cmds();
        let (size, ops) = match self.plan() {
            Ok(p) => p,
            Err(e) => {
                return Err(e);
            },
        };
        let size_us = size as usize;
        let mut img: Vec<u8> = Vec::new();
        while img.len() < size_us
            invariant
                img@.len() <= size_us,
                forall|j: int| 0 <= j < img@.len() ==> img@[j] == 0u8,
            decreases size_us - img@.len(),
        {
            img.push(0u8);
        }
        let ghost zeros = zero_image(image_size(cs));
        proof {
            assert(img@ =~= zeros);
        }
        let nops = ops.len();
        let ghost ops0 = ops@;
        let mut pos: usize = 0;
        let mut i: usize = 0;
        proof {
            assert(ops0.skip(0) =~= ops0);
            assert(ops0.take(0) =~= Seq::<WriteOp>::empty());
        }
        while i < nops
            invariant
                0 <= i <= nops,
                nops == ops@.len(),
                ops@ == ops0,
                cs == self.cmds(),
                ops0 == ops_of(cs),
                range_count(cs) > 0,
                img@.len() == image_size(cs),
                image_size(cs) <= usize::MAX,
                forall|k: int|
                    0 <= k < ops0.len() ==> (#[trigger] ops0[k]).offset + ops0[k].length
                        <= image_size(cs),
                pos == ops_total_len(ops0.take(i as int)),
                pos <= source@.len(),
                replay_ops(zeros, source@, 0, ops0) == replay_ops(
                    img@,
                    source@,
                    pos as nat,
                    ops0.skip(i as int),
                ),
            decreases nops - i,
        {
            let op = ops[i];
            proof {
                assert(op.offset + op.length <= image_size(cs));
            }
            let len_us = op.length as usize;
            let off_us = op.offset as usize;
            if source.len() - pos < len_us {
                proof {
                    assert(ops0.take(i as int + 1).drop_last() =~= ops0.take(i as int));
                    assert(ops0.take(i as int + 1).last() == op);
                    assert(ops_total_len(ops0.take(i as int + 1)) == pos + op.length);
                    lemma_ops_total_prefix(ops0, i as int + 1);
                    assert(ops_total_len(ops0) > source@.len());
                }
                return Err(Error::TruncatedSource);
            }
            let ghost img_before = img@;
            write_at(&mut img, off_us, source, pos, len_us);
            proof {
                let sk = ops0.skip(i as int);
                assert(sk[0] == op);
                assert(sk.drop_first() =~= ops0.skip(i as int + 1));
                assert(img@ == splice(
                    img_before,
                    op.offset as int,
                    source@.subrange(pos as int, pos + op.length),
                ));
                assert(ops0.take(i as int + 1).drop_last() =~= ops0.take(i as int));
                assert(ops0.take(i as int + 1).last() == op);
            }
            pos = pos + len_us;
            i = i + 1;
        }
        proof {
            assert(ops0.skip(nops as int) =~= Seq::<WriteOp>::empty());
            assert(ops0.take(nops as int) =~= ops0);
            assert(replay_ops(zeros, source@, 0, ops0).0 == img@);
            assert(ops_total_len(ops0) == pos);
        }
        Ok(img)
    }
}

} // verus!
