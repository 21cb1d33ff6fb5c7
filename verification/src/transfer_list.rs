//! The transfer-list manifest: a version header, an expected new-block count,
//! and an ordered sequence of typed commands over range sets.
use crate::bytes::bytes_eq;
use crate::bytes::dec_val;
use crate::bytes::fields_of;
use crate::bytes::is_ascii_digit;
use crate::bytes::is_uint_token;
use crate::bytes::lines_of;
use crate::bytes::parse_u64;
use crate::bytes::split_fields;
use crate::bytes::split_lines;
use crate::error::Error;
use crate::error::ErrorSpec;
use crate::rangeset::parse_range_set_spec;
use crate::rangeset::Range;
use crate::rangeset::RangeSet;
use vstd::prelude::*;

verus! {

/// One manifest instruction. Only `New` draws bytes from the data stream;
/// `Erase` and `Zero` describe regions that stay zero-filled.
#[derive(Debug, Clone)]
pub enum Command {
    Erase(RangeSet),
    New(RangeSet),
    Zero(RangeSet),
}

/// Spec-level image of a [`Command`]: the variant with its ranges.
pub enum CommandModel {
    Erase(Seq<Range>),
    New(Seq<Range>),
    Zero(Seq<Range>),
}

impl View for Command {
    type V = CommandModel;

    open spec fn view(&self) -> CommandModel {
        match self {
            Command::Erase(rs) => CommandModel::Erase(rs@),
            Command::New(rs) => CommandModel::New(rs@),
            Command::Zero(rs) => CommandModel::Zero(rs@),
        }
    }
}

/// The ranges a command speaks of, whatever its variant.
pub open spec fn cmd_ranges(c: CommandModel) -> Seq<Range> {
    match c {
        CommandModel::Erase(r) => r,
        CommandModel::New(r) => r,
        CommandModel::Zero(r) => r,
    }
}

/// True when every range of the command covers at least one block.
pub open spec fn cmd_wf(c: CommandModel) -> bool {
    forall|k: int| 0 <= k < cmd_ranges(c).len() ==> (#[trigger] cmd_ranges(c)[k]).wf()
}

impl Command {
    /// The range set the command carries.
    pub fn rangeset(&self) -> (r: &RangeSet)
        ensures
            r@ == cmd_ranges(self@),
    {
        match self {
            Command::Erase(rs) => rs,
            Command::New(rs) => rs,
            Command::Zero(rs) => rs,
        }
    }

    /// Short name of the command kind, for progress messages.
    pub fn kind_name(&self) -> (r: &'static str)
        ensures
            r@ == match self@ {
                CommandModel::Erase(_) => "Erase"@,
                CommandModel::New(_) => "New"@,
                CommandModel::Zero(_) => "Zero"@,
            },
    {
        match self {
            Command::Erase(_) => "Erase",
            Command::New(_) => "New",
            Command::Zero(_) => "Zero",
        }
    }
}

/// The bytes of the keyword `erase`.
pub open spec fn kw_erase() -> Seq<u8> {
    seq![101u8, 114u8, 97u8, 115u8, 101u8]
}

/// The bytes of the keyword `new`.
pub open spec fn kw_new() -> Seq<u8> {
    seq![110u8, 101u8, 119u8]
}

/// The bytes of the keyword `zero`.
pub open spec fn kw_zero() -> Seq<u8> {
    seq![122u8, 101u8, 114u8, 111u8]
}

fn kw_erase_vec() -> (v: Vec<u8>)
    ensures
        v@ == kw_erase(),
{
    let mut v: Vec<u8> = Vec::new();
    v.push(101u8);
    v.push(114u8);
    v.push(97u8);
    v.push(115u8);
    v.push(101u8);
    proof {
        assert(v@ =~= kw_erase());
    }
    v
}

fn kw_new_vec() -> (v: Vec<u8>)
    ensures
        v@ == kw_new(),
{
    let mut v: Vec<u8> = Vec::new();
    v.push(110u8);
    v.push(101u8);
    v.push(119u8);
    proof {
        assert(v@ =~= kw_new());
    }
    v
}

fn kw_zero_vec() -> (v: Vec<u8>)
    ensures
        v@ == kw_zero(),
{
    let mut v: Vec<u8> = Vec::new();
    v.push(122u8);
    v.push(101u8);
    v.push(114u8);
    v.push(111u8);
    proof {
        assert(v@ =~= kw_zero());
    }
    v
}

/// What one command line means: `Ok(None)` for a line that is skipped (no
/// fields at all, or a keyword starting with a digit), `Ok(Some(c))` for a
/// recognized command with a valid range set, and the error otherwise. A
/// recognized keyword with no second field reads an empty range-set token,
/// which is malformed.
pub open spec fn line_command(l: Seq<u8>) -> Result<Option<CommandModel>, ErrorSpec> {
    let f = fields_of(l);
    if f.len() == 0 {
        Ok(None)
    } else if is_ascii_digit(f[0][0]) {
        Ok(None)
    } else {
        let kw = f[0];
        let tok = if f.len() >= 2 {
            f[1]
        } else {
            Seq::<u8>::empty()
        };
        if kw == kw_erase() || kw == kw_new() || kw == kw_zero() {
            match parse_range_set_spec(tok) {
                Some(rs) => Ok(
                    Some(
                        if kw == kw_new() {
                            CommandModel::New(rs)
                        } else if kw == kw_erase() {
                            CommandModel::Erase(rs)
                        } else {
                            CommandModel::Zero(rs)
                        },
                    ),
                ),
                None => Err(ErrorSpec::MalformedRangeSet),
            }
        } else {
            Err(ErrorSpec::UnknownCommand(kw))
        }
    }
}

/// The commands of a list of command lines, in file order; the first bad line
/// decides the error.
pub open spec fn parse_commands_spec(ls: Seq<Seq<u8>>) -> Result<Seq<CommandModel>, ErrorSpec>
    decreases ls.len(),
{
    if ls.len() == 0 {
        Ok(Seq::empty())
    } else {
        match line_command(ls[0]) {
            Err(e) => Err(e),
            Ok(opt) => match parse_commands_spec(ls.drop_first()) {
                Err(e) => Err(e),
                Ok(rest) => Ok(
                    match opt {
                        Some(c) => seq![c] + rest,
                        None => rest,
                    },
                ),
            },
        }
    }
}

/// Spec-level image of a [`TransferList`].
pub struct TransferListModel {
    pub version: u8,
    pub new_blocks: u64,
    pub commands: Seq<CommandModel>,
}

/// What a whole manifest means: line 1 is the version, line 2 the expected
/// new-block count (both decimal, `MalformedHeader` when missing or out of
/// width); with version 2 or later the next two lines are discarded unread;
/// every remaining line is read by `line_command`.
pub open spec fn transfer_list_spec(s: Seq<u8>) -> Result<TransferListModel, ErrorSpec> {
    let ls = lines_of(s);
    if ls.len() < 2 {
        Err(ErrorSpec::MalformedHeader)
    } else if !is_uint_token(ls[0], u8::MAX as nat) {
        Err(ErrorSpec::MalformedHeader)
    } else if !is_uint_token(ls[1], u64::MAX as nat) {
        Err(ErrorSpec::MalformedHeader)
    } else {
        let version = dec_val(ls[0]) as u8;
        let body = if version >= 2 {
            if ls.len() >= 4 {
                ls.skip(4)
            } else {
                Seq::<Seq<u8>>::empty()
            }
        } else {
            ls.skip(2)
        };
        match parse_commands_spec(body) {
            Err(e) => Err(e),
            Ok(cs) => Ok(
                TransferListModel { version, new_blocks: dec_val(ls[1]) as u64, commands: cs },
            ),
        }
    }
}

/// True when every range of every command covers at least one block.
pub open spec fn commands_wf(cs: Seq<CommandModel>) -> bool {
    forall|i: int| 0 <= i < cs.len() ==> cmd_wf(#[trigger] cs[i])
}

/// Whatever `parse_commands_spec` accepts is made of well-formed commands.
pub proof fn lemma_parsed_commands_wf(ls: Seq<Seq<u8>>)
    requires
        parse_commands_spec(ls) is Ok,
    ensures
        commands_wf(parse_commands_spec(ls)->Ok_0),
    decreases ls.len(),
{
    if ls.len() > 0 {
        lemma_parsed_commands_wf(ls.drop_first());
        let rest = parse_commands_spec(ls.drop_first())->Ok_0;
        let whole = parse_commands_spec(ls)->Ok_0;
        match line_command(ls[0]) {
            Err(_) => {},
            Ok(opt) => match opt {
                None => {},
                Some(c) => {
                    assert(whole == seq![c] + rest);
                    assert(cmd_wf(c));
                    assert forall|i: int| 0 <= i < whole.len() implies cmd_wf(
                        #[trigger] whole[i],
                    ) by {
                        if i > 0 {
                            assert(whole[i] == rest[i - 1]);
                        }
                    }
                },
            },
        }
    }
}

/// A parsed manifest: its format version, the expected total count of new
/// blocks (informational; not cross-checked against bytes consumed), and the
/// commands in file order.
#[derive(Debug, Clone)]
pub struct TransferList {
    pub version: u8,
    pub new_blocks: u64,
    pub commands: Vec<Command>,
}

impl View for TransferList {
    type V = TransferListModel;

    open spec fn view(&self) -> TransferListModel {
        TransferListModel {
            version: self.version,
            new_blocks: self.new_blocks,
            commands: self.commands@.map_values(|c: Command| c@),
        }
    }
}

impl TransferList {
    /// True when every range of every command covers at least one block;
    /// parsing only ever builds such lists.
    pub open spec fn wf(self) -> bool {
        commands_wf(self@.commands)
    }

    /// The manifest format version.
    pub fn version(&self) -> (r: u8)
        ensures
            r == self@.version,
    {
        self.version
    }

    /// The expected total number of new blocks, as declared by the header.
    pub fn new_blocks(&self) -> (r: u64)
        ensures
            r == self@.new_blocks,
    {
        self.new_blocks
    }

    /// The commands, in file order.
    pub fn commands(&self) -> (r: &Vec<Command>)
        ensures
            r@.map_values(|c: Command| c@) == self@.commands,
    {
        &self.commands
    }

    /// Test well-formedness at run time: true exactly when every range of
    /// every command covers at least one block.
    pub fn check_wf(&self) -> (r: bool)
        ensures
            r == self.wf(),
    {
        let ghost cs = self@.commands;
        let n = self.commands.len();
        let mut i: usize = 0;
        while i < n
            invariant
                0 <= i <= n,
                n == self.commands@.len(),
                cs == self@.commands,
                forall|x: int| 0 <= x < i ==> cmd_wf(#[trigger] cs[x]),
            decreases n - i,
        {
            let rs = self.commands[i].rangeset();
            let ghost ranges = cmd_ranges(cs[i as int]);
            proof {
                assert(self.commands@[i as int]@ == cs[i as int]);
                assert(rs@ == ranges);
            }
            let m = rs.pairs().len();
            let mut j: usize = 0;
            while j < m
                invariant
                    0 <= j <= m,
                    m == ranges.len(),
                    rs@ == ranges,
                    cs == self@.commands,
                    0 <= i < cs.len(),
                    ranges == cmd_ranges(cs[i as int]),
                    forall|y: int| 0 <= y < j ==> (#[trigger] ranges[y]).wf(),
                decreases m - j,
            {
                let r = rs.pairs()[j];
                if r.start >= r.end {
                    proof {
                        assert(!ranges[j as int].wf());
                        assert(!cmd_wf(cs[i as int]));
                    }
                    return false;
                }
                j = j + 1;
            }
            proof {
                assert(cmd_wf(cs[i as int]));
            }
            i = i + 1;
        }
        true
    }

    /// Parse a whole manifest, exactly as `transfer_list_spec` reads it.
    pub fn parse(input: &[u8]) -> (r: Result<TransferList, Error>)
        ensures
            match r {
                Ok(tl) => transfer_list_spec(input@) == Ok::<TransferListModel, ErrorSpec>(tl@)
                    && tl.wf(),
                Err(e) => transfer_list_spec(input@) == Err::<TransferListModel, ErrorSpec>(e@),
            },
    {
        let ls = split_lines(input);
        let ghost lines = lines_of(input@);
        proof {
            assert(ls@.map_values(|t: Vec<u8>| t@) == lines);
        }
        if ls.len() < 2 {
            return Err(Error::MalformedHeader);
        }
        proof {
            assert(ls@[0]@ == lines[0]);
            assert(ls@[1]@ == lines[1]);
        }
        let version: u8 = match parse_u64(ls[0].as_slice()) {
            Some(v) => {
                if v > 255 {
                    return Err(Error::MalformedHeader);
                }
                v as u8
            },
            None => {
                return Err(Error::MalformedHeader);
            },
        };
        let new_blocks: u64 = match parse_u64(ls[1].as_slice()) {
            Some(v) => v,
            None => {
                return Err(Error::MalformedHeader);
            },
        };
        let nlines = ls.len();
        let start: usize = if version >= 2 {
            if nlines >= 4 {
                4
            } else {
                nlines
            }
        } else {
            2
        };
        let ghost body = if version >= 2 {
            if lines.len() >= 4 {
                lines.skip(4)
            } else {
                Seq::<Seq<u8>>::empty()
            }
        } else {
            lines.skip(2)
        };
        proof {
            assert(body =~= lines.skip(start as int));
        }
        let mut commands: Vec<Command> = Vec::new();
        let mut i: usize = start;
        proof {
            assert(commands@.map_values(|c: Command| c@) =~= Seq::<CommandModel>::empty());
            let p0 = parse_commands_spec(body);
            if p0 is Ok {
                assert(Seq::<CommandModel>::empty() + p0->Ok_0 =~= p0->Ok_0);
            }
        }
        while i < nlines
            invariant
                start <= i <= nlines,
                nlines == ls@.len(),
                lines == lines_of(input@),
                ls@.map_values(|t: Vec<u8>| t@) == lines,
                body == lines.skip(start as int),
                parse_commands_spec(body) == match parse_commands_spec(lines.skip(i as int)) {
                    Ok(rest) => Ok::<Seq<CommandModel>, ErrorSpec>(
                        commands@.map_values(|c: Command| c@) + rest,
                    ),
                    Err(e) => Err::<Seq<CommandModel>, ErrorSpec>(e),
                },
                transfer_list_spec(input@) == match parse_commands_spec(body) {
                    Err(e) => Err::<TransferListModel, ErrorSpec>(e),
                    Ok(cs) => Ok::<TransferListModel, ErrorSpec>(
                        TransferListModel { version, new_blocks, commands: cs },
                    ),
                },
            decreases nlines - i,
        {
            let ghost sk = lines.skip(i as int);
            proof {
                assert(ls@[i as int]@ == lines[i as int]);
                assert(sk[0] == lines[i as int]);
                assert(sk.drop_first() =~= lines.skip(i as int + 1));
            }
            let line = &ls[i];
            let fields = split_fields(line.as_slice());
            let ghost f = fields_of(lines[i as int]);
            proof {
                assert(fields@.map_values(|t: Vec<u8>| t@) == f);
            }
            if fields.len() == 0 {
                proof {
                    assert(line_command(sk[0]) == Ok::<Option<CommandModel>, ErrorSpec>(None));
                }
            } else {
                proof {
                    assert(fields@[0]@ == f[0]);
                    assert(f[0].len() > 0);
                }
                let first = &fields[0];
                let b0 = first[0];
                if b0 >= 48 && b0 <= 57 {
                    proof {
                        assert(is_ascii_digit(f[0][0]));
                        assert(line_command(sk[0]) == Ok::<Option<CommandModel>, ErrorSpec>(None));
                    }
                } else {
                    let is_erase = bytes_eq(first.as_slice(), kw_erase_vec().as_slice());
                    let is_new = bytes_eq(first.as_slice(), kw_new_vec().as_slice());
                    let is_zero = bytes_eq(first.as_slice(), kw_zero_vec().as_slice());
                    if is_erase || is_new || is_zero {
                        let ghost tok = if f.len() >= 2 {
                            f[1]
                        } else {
                            Seq::<u8>::empty()
                        };
                        let parsed = if fields.len() >= 2 {
                            proof {
                                assert(fields@[1]@ == f[1]);
                            }
                            RangeSet::parse(fields[1].as_slice())
                        } else {
                            let empty_tok: Vec<u8> = Vec::new();
                            proof {
                                assert(empty_tok@ =~= tok);
                            }
                            RangeSet::parse(empty_tok.as_slice())
                        };
                        match parsed {
                            Err(e) => {
                                proof {
                                    assert(line_command(sk[0]) == Err::<
                                        Option<CommandModel>,
                                        ErrorSpec,
                                    >(ErrorSpec::MalformedRangeSet));
                                    assert(parse_commands_spec(sk) == Err::<
                                        Seq<CommandModel>,
                                        ErrorSpec,
                                    >(ErrorSpec::MalformedRangeSet));
                                }
                                return Err(e);
                            },
                            Ok(rs) => {
                                let cmd = if is_new {
                                    Command::New(rs)
                                } else if is_erase {
                                    Command::Erase(rs)
                                } else {
                                    Command::Zero(rs)
                                };
                                let ghost done = commands@.map_values(|c: Command| c@);
                                proof {
                                    assert(line_command(sk[0]) == Ok::<
                                        Option<CommandModel>,
                                        ErrorSpec,
                                    >(Some(cmd@)));
                                }
                                commands.push(cmd);
                                proof {
                                    assert(commands@.map_values(|c: Command| c@) =~= done.push(
                                        cmd@,
                                    ));
                                    let nxt = parse_commands_spec(lines.skip(i as int + 1));
                                    if nxt is Ok {
                                        assert(done + (seq![cmd@] + nxt->Ok_0) =~= done.push(cmd@)
                                            + nxt->Ok_0);
                                    }
                                }
                            },
                        }
                    } else {
                        let kwv = crate::bytes::copy_range(first.as_slice(), 0, first.len());
                        proof {
                            assert(kwv@ =~= f[0]);
                            assert(line_command(sk[0]) == Err::<Option<CommandModel>, ErrorSpec>(
                                ErrorSpec::UnknownCommand(f[0]),
                            ));
                            assert(parse_commands_spec(sk) == Err::<Seq<CommandModel>, ErrorSpec>(
                                ErrorSpec::UnknownCommand(f[0]),
                            ));
                        }
                        return Err(Error::UnknownCommand(kwv));
                    }
                }
            }
            i = i + 1;
        }
        proof {
            assert(lines.skip(nlines as int) =~= Seq::<Seq<u8>>::empty());
            assert(parse_commands_spec(lines.skip(nlines as int)) == Ok::<
                Seq<CommandModel>,
                ErrorSpec,
            >(Seq::empty()));
            assert(commands@.map_values(|c: Command| c@) + Seq::<CommandModel>::empty()
                =~= commands@.map_values(|c: Command| c@));
            lemma_parsed_commands_wf(body);
        }
        Ok(TransferList { version, new_blocks, commands })
    }
}

} // verus!
