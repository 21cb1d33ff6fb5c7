//! Byte-level text primitives shared by the parsers: decimal tokens,
//! separator splitting, line splitting, and whitespace fields.
use vstd::prelude::*;

verus! {

/// True of ASCII decimal digit bytes `'0'..='9'`.
pub open spec fn is_ascii_digit(b: u8) -> bool {
    48 <= b <= 57
}

/// Numeric value of a digit string, most significant digit first.
pub open spec fn dec_val(t: Seq<u8>) -> nat
    decreases t.len(),
{
    if t.len() == 0 {
        0
    } else {
        (dec_val(t.drop_last()) * 10 + (t.last() - 48)) as nat
    }
}

/// True of byte strings that encode, in plain decimal, an unsigned integer no
/// larger than `bound`.
pub open spec fn is_uint_token(t: Seq<u8>, bound: nat) -> bool {
    &&& t.len() > 0
    &&& forall|i: int| 0 <= i < t.len() ==> is_ascii_digit(#[trigger] t[i])
    &&& dec_val(t) <= bound
}

/// Index of the first occurrence of `sep` in `s`, or `s.len()` when absent.
pub open spec fn find_sep(s: Seq<u8>, sep: u8) -> nat
    decreases s.len(),
{
    if s.len() == 0 {
        0
    } else if s[0] == sep {
        0
    } else {
        (1 + find_sep(s.drop_first(), sep)) as nat
    }
}

/// The pieces of `s` between occurrences of `sep`, in order; always at least
/// one piece, and empty pieces are kept.
pub open spec fn split_on(s: Seq<u8>, sep: u8) -> Seq<Seq<u8>>
    decreases s.len(),
{
    let i = find_sep(s, sep) as int;
    if i < s.len() {
        seq![s.subrange(0, i)] + split_on(s.subrange(i + 1, s.len() as int), sep)
    } else {
        seq![s]
    }
}

pub proof fn lemma_find_sep(s: Seq<u8>, sep: u8)
    ensures
        find_sep(s, sep) <= s.len(),
        find_sep(s, sep) < s.len() ==> s[find_sep(s, sep) as int] == sep,
        forall|j: int| 0 <= j < find_sep(s, sep) ==> s[j] != sep,
    decreases s.len(),
{
    if s.len() == 0 {
    } else if s[0] == sep {
    } else {
        lemma_find_sep(s.drop_first(), sep);
        assert forall|j: int| 0 <= j < find_sep(s, sep) implies s[j] != sep by {
            if j > 0 {
                assert(s.drop_first()[j - 1] == s[j]);
            }
        }
    }
}

/// Unfolding of `split_on` at the first separator position.
pub proof fn lemma_split_on_at(s: Seq<u8>, sep: u8, i: int)
    requires
        0 <= i < s.len(),
        s[i] == sep,
        forall|j: int| 0 <= j < i ==> s[j] != sep,
    ensures
        split_on(s, sep) == seq![s.subrange(0, i)] + split_on(
            s.subrange(i + 1, s.len() as int),
            sep,
        ),
{
    lemma_find_sep(s, sep);
    let f = find_sep(s, sep) as int;
    if f < i {
        assert(s[f] == sep);
        assert(false);
    }
    if f > i {
        assert(s[i] != sep);
        assert(false);
    }
}

/// `split_on` of a separator-free string is that string alone.
pub proof fn lemma_split_on_whole(s: Seq<u8>, sep: u8)
    requires
        forall|j: int| 0 <= j < s.len() ==> s[j] != sep,
    ensures
        split_on(s, sep) == seq![s],
{
    lemma_find_sep(s, sep);
    if find_sep(s, sep) < s.len() {
        assert(s[find_sep(s, sep) as int] == sep);
        assert(false);
    }
}

/// The value of a longer digit prefix is at least that of a shorter one.
pub proof fn lemma_dec_val_prefix_le(t: Seq<u8>, i: int, j: int)
    requires
        0 <= i <= j <= t.len(),
        forall|k: int| 0 <= k < j ==> is_ascii_digit(#[trigger] t[k]),
    ensures
        dec_val(t.subrange(0, i)) <= dec_val(t.subrange(0, j)),
    decreases j - i,
{
    if i < j {
        lemma_dec_val_prefix_le(t, i, j - 1);
        assert(t.subrange(0, j).drop_last() =~= t.subrange(0, j - 1));
        assert(is_ascii_digit(t[j - 1]));
        assert(dec_val(t.subrange(0, j - 1)) * 10 >= dec_val(t.subrange(0, j - 1)));
    }
}

/// Copy of `s[from..to]` as a fresh vector.
pub fn copy_range(s: &[u8], from: usize, to: usize) -> (r: Vec<u8>)
    requires
        from <= to <= s@.len(),
    ensures
        r@ == s@.subrange(from as int, to as int),
{
    let mut r: Vec<u8> = Vec::new();
    let mut i: usize = from;
    proof {
        assert(r@ =~= s@.subrange(from as int, from as int));
    }
    while i < to
        invariant
            from <= i <= to <= s@.len(),
            r@ == s@.subrange(from as int, i as int),
        decreases to - i,
    {
        r.push(s[i]);
        proof {
            assert(r@ =~= s@.subrange(from as int, (i + 1) as int));
        }
        i = i + 1;
    }
    r
}

/// Whether two byte strings hold the same bytes.
pub fn bytes_eq(a: &[u8], b: &[u8]) -> (r: bool)
    ensures
        r == (a@ == b@),
{
    if a.len() != b.len() {
        return false;
    }
    let mut i: usize = 0;
    while i < a.len()
        invariant
            a@.len() == b@.len(),
            0 <= i <= a@.len(),
            forall|j: int| 0 <= j < i ==> a@[j] == b@[j],
        decreases a@.len() - i,
    {
        if a[i] != b[i] {
            return false;
        }
        i = i + 1;
    }
    proof {
        assert(a@ =~= b@);
    }
    true
}

/// Parse a whole byte string as a decimal `u64`; `None` exactly when the
/// string is empty, holds a non-digit, or encodes a value above `u64::MAX`.
pub fn parse_u64(t: &[u8]) -> (r: Option<u64>)
    ensures
        r is Some <==> is_uint_token(t@, u64::MAX as nat),
        r is Some ==> r == Some((dec_val(t@) as u64)),
{
    if t.len() == 0 {
        return None;
    }
    let mut acc: u64 = 0;
    let mut i: usize = 0;
    while i < t.len()
        invariant
            0 <= i <= t@.len(),
            forall|j: int| 0 <= j < i ==> is_ascii_digit(#[trigger] t@[j]),
            acc == dec_val(t@.subrange(0, i as int)),
        decreases t@.len() - i,
    {
        let b = t[i];
        if b < 48 || b > 57 {
            proof {
                assert(!is_ascii_digit(t@[i as int]));
            }
            return None;
        }
        let d = (b - 48) as u64;
        let ghost prefix1 = t@.subrange(0, (i + 1) as int);
        proof {
            assert(prefix1.drop_last() =~= t@.subrange(0, i as int));
            assert(dec_val(prefix1) == (acc * 10 + d) as nat);
        }
        let acc10 = match acc.checked_mul(10) {
            Some(v) => v,
            None => {
                proof {
                    if is_uint_token(t@, u64::MAX as nat) {
                        lemma_dec_val_prefix_le(t@, i + 1, t@.len() as int);
                        assert(t@.subrange(0, t@.len() as int) =~= t@);
                        assert(false);
                    }
                }
                return None;
            },
        };
        let acc2 = match acc10.checked_add(d) {
            Some(v) => v,
            None => {
                proof {
                    if is_uint_token(t@, u64::MAX as nat) {
                        lemma_dec_val_prefix_le(t@, i + 1, t@.len() as int);
                        assert(t@.subrange(0, t@.len() as int) =~= t@);
                        assert(false);
                    }
                }
                return None;
            },
        };
        acc = acc2;
        i = i + 1;
    }
    proof {
        assert(t@.subrange(0, t@.len() as int) =~= t@);
    }
    Some(acc)
}

/// Split `s` on the byte `sep`, keeping empty pieces, as `split_on` does.
pub fn split_bytes(s: &[u8], sep: u8) -> (r: Vec<Vec<u8>>)
    ensures
        r@.map_values(|t: Vec<u8>| t@) == split_on(s@, sep),
{
    let mut r: Vec<Vec<u8>> = Vec::new();
    let mut start: usize = 0;
    let mut i: usize = 0;
    proof {
        assert(s@.subrange(0, s@.len() as int) =~= s@);
        assert(r@.map_values(|t: Vec<u8>| t@) =~= Seq::<Seq<u8>>::empty());
    }
    while i < s.len()
        invariant
            0 <= start <= i <= s@.len(),
            forall|j: int| start <= j < i ==> s@[j] != sep,
            split_on(s@, sep) == r@.map_values(|t: Vec<u8>| t@) + split_on(
                s@.subrange(start as int, s@.len() as int),
                sep,
            ),
        decreases s@.len() - i,
    {
        if s[i] == sep {
            let tok = copy_range(s, start, i);
            let ghost done = r@.map_values(|t: Vec<u8>| t@);
            let ghost rest = s@.subrange(start as int, s@.len() as int);
            let ghost k = i - start;
            proof {
                assert(rest[k as int] == sep);
                assert forall|j: int| 0 <= j < k implies rest[j] != sep by {
                    assert(s@[start + j] != sep);
                }
                lemma_split_on_at(rest, sep, k as int);
                assert(rest.subrange(0, k as int) =~= s@.subrange(start as int, i as int));
                assert(rest.subrange(k as int + 1, rest.len() as int) =~= s@.subrange(
                    i as int + 1,
                    s@.len() as int,
                ));
            }
            r.push(tok);
            proof {
                assert(r@.map_values(|t: Vec<u8>| t@) =~= done.push(s@.subrange(
                    start as int,
                    i as int,
                )));
                assert(done + (seq![s@.subrange(start as int, i as int)] + split_on(
                    s@.subrange(i as int + 1, s@.len() as int),
                    sep,
                )) =~= r@.map_values(|t: Vec<u8>| t@) + split_on(
                    s@.subrange(i as int + 1, s@.len() as int),
                    sep,
                ));
            }
            start = i + 1;
        }
        i = i + 1;
    }
    let tok = copy_range(s, start, s.len());
    let ghost done = r@.map_values(|t: Vec<u8>| t@);
    let ghost rest = s@.subrange(start as int, s@.len() as int);
    proof {
        assert forall|j: int| 0 <= j < rest.len() implies rest[j] != sep by {
            assert(s@[start + j] != sep);
        }
        lemma_split_on_whole(rest, sep);
    }
    r.push(tok);
    proof {
        assert(r@.map_values(|t: Vec<u8>| t@) =~= done.push(rest));
        assert(done + seq![rest] =~= done.push(rest));
    }
    r
}

/// A line with a trailing carriage return removed, as `lines` of a text file
/// with CRLF endings would see it.
pub open spec fn strip_cr(l: Seq<u8>) -> Seq<u8> {
    if l.len() > 0 && l.last() == 13 {
        l.drop_last()
    } else {
        l
    }
}

/// The lines of `s`: pieces between newline bytes, without a final empty
/// piece after a trailing newline, each with a trailing carriage return
/// removed.
pub open spec fn lines_of(s: Seq<u8>) -> Seq<Seq<u8>> {
    let raw = split_on(s, 10);
    let cut = if raw.len() > 0 && raw.last().len() == 0 {
        raw.drop_last()
    } else {
        raw
    };
    cut.map_values(|l: Seq<u8>| strip_cr(l))
}

/// Split `s` into its lines, as `lines_of` describes them.
pub fn split_lines(s: &[u8]) -> (r: Vec<Vec<u8>>)
    ensures
        r@.map_values(|t: Vec<u8>| t@) == lines_of(s@),
{
    let raw = split_bytes(s, 10);
    let ghost rawv = raw@.map_values(|t: Vec<u8>| t@);
    let n: usize = if raw.len() > 0 && raw[raw.len() - 1].len() == 0 {
        raw.len() - 1
    } else {
        raw.len()
    };
    let ghost cut = if rawv.len() > 0 && rawv.last().len() == 0 {
        rawv.drop_last()
    } else {
        rawv
    };
    proof {
        assert(cut.len() == n);
        assert(forall|j: int| 0 <= j < n ==> cut[j] == rawv[j]);
    }
    let mut out: Vec<Vec<u8>> = Vec::new();
    let mut i: usize = 0;
    while i < n
        invariant
            0 <= i <= n <= raw@.len(),
            rawv == raw@.map_values(|t: Vec<u8>| t@),
            out@.len() == i,
            forall|j: int| 0 <= j < i ==> (#[trigger] out@[j])@ == strip_cr(rawv[j]),
        decreases n - i,
    {
        let l = &raw[i];
        proof {
            assert(l@ == rawv[i as int]);
        }
        let m: usize = if l.len() > 0 && l[l.len() - 1] == 13 {
            l.len() - 1
        } else {
            l.len()
        };
        let t = copy_range(l.as_slice(), 0, m);
        proof {
            if l@.len() > 0 && l@.last() == 13 {
                assert(t@ =~= strip_cr(rawv[i as int]));
            } else {
                assert(t@ =~= strip_cr(rawv[i as int]));
            }
        }
        out.push(t);
        i = i + 1;
    }
    proof {
        assert(out@.map_values(|t: Vec<u8>| t@) =~= lines_of(s@));
    }
    out
}

/// True of the bytes the transfer-list format treats as in-line whitespace.
pub open spec fn is_space(b: u8) -> bool {
    b == 32 || b == 9
}

/// Index of the first whitespace byte in `s`, or `s.len()` when none occurs.
pub open spec fn find_ws(s: Seq<u8>) -> nat
    decreases s.len(),
{
    if s.len() == 0 {
        0
    } else if is_space(s[0]) {
        0
    } else {
        (1 + find_ws(s.drop_first())) as nat
    }
}

/// The pieces of `s` between whitespace bytes, empty pieces kept.
pub open spec fn split_ws(s: Seq<u8>) -> Seq<Seq<u8>>
    decreases s.len(),
{
    let i = find_ws(s) as int;
    if i < s.len() {
        seq![s.subrange(0, i)] + split_ws(s.subrange(i + 1, s.len() as int))
    } else {
        seq![s]
    }
}

/// The non-empty members of `ts`, in order.
pub open spec fn nonempty(ts: Seq<Seq<u8>>) -> Seq<Seq<u8>>
    decreases ts.len(),
{
    if ts.len() == 0 {
        Seq::empty()
    } else if ts[0].len() > 0 {
        seq![ts[0]] + nonempty(ts.drop_first())
    } else {
        nonempty(ts.drop_first())
    }
}

/// The whitespace-separated fields of a line, in order: maximal non-empty
/// runs of non-whitespace bytes.
pub open spec fn fields_of(s: Seq<u8>) -> Seq<Seq<u8>> {
    nonempty(split_ws(s))
}

pub proof fn lemma_find_ws(s: Seq<u8>)
    ensures
        find_ws(s) <= s.len(),
        find_ws(s) < s.len() ==> is_space(s[find_ws(s) as int]),
        forall|j: int| 0 <= j < find_ws(s) ==> !is_space(s[j]),
    decreases s.len(),
{
    if s.len() == 0 {
    } else if is_space(s[0]) {
    } else {
        lemma_find_ws(s.drop_first());
        assert forall|j: int| 0 <= j < find_ws(s) implies !is_space(s[j]) by {
            if j > 0 {
                assert(s.drop_first()[j - 1] == s[j]);
            }
        }
    }
}

/// Unfolding of `split_ws` at the first whitespace position.
pub proof fn lemma_split_ws_at(s: Seq<u8>, i: int)
    requires
        0 <= i < s.len(),
        is_space(s[i]),
        forall|j: int| 0 <= j < i ==> !is_space(s[j]),
    ensures
        split_ws(s) == seq![s.subrange(0, i)] + split_ws(s.subrange(i + 1, s.len() as int)),
{
    lemma_find_ws(s);
    let f = find_ws(s) as int;
    if f < i {
        assert(is_space(s[f]));
        assert(false);
    }
    if f > i {
        assert(!is_space(s[i]));
        assert(false);
    }
}

/// `split_ws` of a whitespace-free string is that string alone.
pub proof fn lemma_split_ws_whole(s: Seq<u8>)
    requires
        forall|j: int| 0 <= j < s.len() ==> !is_space(s[j]),
    ensures
        split_ws(s) == seq![s],
{
    lemma_find_ws(s);
    if find_ws(s) < s.len() {
        assert(is_space(s[find_ws(s) as int]));
        assert(false);
    }
}

/// Every field of a line is non-empty.
pub proof fn lemma_nonempty_members(ts: Seq<Seq<u8>>)
    ensures
        forall|k: int| 0 <= k < nonempty(ts).len() ==> (#[trigger] nonempty(ts)[k]).len() > 0,
    decreases ts.len(),
{
    if ts.len() > 0 {
        lemma_nonempty_members(ts.drop_first());
        let rest = nonempty(ts.drop_first());
        if ts[0].len() > 0 {
            assert forall|k: int| 0 <= k < nonempty(ts).len() implies (#[trigger] nonempty(
                ts,
            )[k]).len() > 0 by {
                if k > 0 {
                    assert(nonempty(ts)[k] == rest[k - 1]);
                }
            }
        }
    }
}

/// Split a line into its whitespace-separated fields, as `fields_of`
/// describes them.
pub fn split_fields(s: &[u8]) -> (r: Vec<Vec<u8>>)
    ensures
        r@.map_values(|t: Vec<u8>| t@) == fields_of(s@),
        forall|k: int| 0 <= k < r@.len() ==> (#[trigger] r@[k])@.len() > 0,
{
    let mut r: Vec<Vec<u8>> = Vec::new();
    let mut start: usize = 0;
    let mut i: usize = 0;
    proof {
        assert(s@.subrange(0, s@.len() as int) =~= s@);
        assert(r@.map_values(|t: Vec<u8>| t@) =~= Seq::<Seq<u8>>::empty());
    }
    while i < s.len()
        invariant
            0 <= start <= i <= s@.len(),
            forall|j: int| start <= j < i ==> !is_space(s@[j]),
            fields_of(s@) == r@.map_values(|t: Vec<u8>| t@) + nonempty(
                split_ws(s@.subrange(start as int, s@.len() as int)),
            ),
            forall|k: int| 0 <= k < r@.len() ==> (#[trigger] r@[k])@.len() > 0,
        decreases s@.len() - i,
    {
        let b = s[i];
        if b == 32 || b == 9 {
            let ghost done = r@.map_values(|t: Vec<u8>| t@);
            let ghost rest = s@.subrange(start as int, s@.len() as int);
            let ghost k = i - start;
            proof {
                assert(is_space(rest[k as int]));
                assert forall|j: int| 0 <= j < k implies !is_space(rest[j]) by {
                    assert(!is_space(s@[start + j]));
                }
                lemma_split_ws_at(rest, k as int);
                assert(rest.subrange(0, k as int) =~= s@.subrange(start as int, i as int));
                assert(rest.subrange(k as int + 1, rest.len() as int) =~= s@.subrange(
                    i as int + 1,
                    s@.len() as int,
                ));
                let tokv = s@.subrange(start as int, i as int);
                let tail = split_ws(s@.subrange(i as int + 1, s@.len() as int));
                assert((seq![tokv] + tail)[0] == tokv);
                assert((seq![tokv] + tail).drop_first() =~= tail);
            }
            if i > start {
                let tok = copy_range(s, start, i);
                r.push(tok);
                proof {
                    assert(r@.map_values(|t: Vec<u8>| t@) =~= done.push(s@.subrange(
                        start as int,
                        i as int,
                    )));
                    assert(done + (seq![s@.subrange(start as int, i as int)] + nonempty(
                        split_ws(s@.subrange(i as int + 1, s@.len() as int)),
                    )) =~= r@.map_values(|t: Vec<u8>| t@) + nonempty(
                        split_ws(s@.subrange(i as int + 1, s@.len() as int)),
                    ));
                }
            } else {
                proof {
                    assert(s@.subrange(start as int, i as int).len() == 0);
                }
            }
            start = i + 1;
        }
        i = i + 1;
    }
    let ghost done = r@.map_values(|t: Vec<u8>| t@);
    let ghost rest = s@.subrange(start as int, s@.len() as int);
    proof {
        assert forall|j: int| 0 <= j < rest.len() implies !is_space(rest[j]) by {
            assert(!is_space(s@[start + j]));
        }
        lemma_split_ws_whole(rest);
        assert((seq![rest])[0] == rest);
        assert((seq![rest]).drop_first() =~= Seq::<Seq<u8>>::empty());
    }
    if start < s.len() {
        let tok = copy_range(s, start, s.len());
        r.push(tok);
        proof {
            assert(r@.map_values(|t: Vec<u8>| t@) =~= done.push(rest));
            assert(done + (seq![rest] + Seq::<Seq<u8>>::empty()) =~= done.push(rest));
            assert(nonempty(Seq::<Seq<u8>>::empty()) =~= Seq::<Seq<u8>>::empty());
            assert(r@.map_values(|t: Vec<u8>| t@) =~= fields_of(s@));
        }
    } else {
        proof {
            assert(rest.len() == 0);
            assert(nonempty(Seq::<Seq<u8>>::empty()) =~= Seq::<Seq<u8>>::empty());
            assert(done + nonempty(seq![rest].drop_first()) =~= done);
            assert(r@.map_values(|t: Vec<u8>| t@) =~= fields_of(s@));
        }
    }
    r
}

} // verus!
