//! Self-describing binary form of a tree of named regions and fields.
//!
//! A tree is written as a flat stream of records: entering a named region,
//! leaving the innermost open region, or a named primitive field. Each record
//! is encoded as an eight-byte little-endian name length, the name, a kind
//! byte, a payload-length byte and the payload. A record's extent never
//! depends on its kind byte, so a kind byte that does not fit its payload is
//! caught at that record, and a stream reads back without an outside schema.

use vstd::prelude::*;

verus! {

/// Kind byte of a record that opens a region.
pub const KIND_REGION: u8 = 1;
/// Kind byte of a record that closes the innermost open region.
pub const KIND_END: u8 = 2;
/// Kind byte of a 32-bit integer field (four little-endian bytes follow).
pub const KIND_INT: u8 = 3;
/// Kind byte of a boolean field (one byte, 0 or 1, follows).
pub const KIND_BOOL: u8 = 4;

/// One record of the stream.
#[derive(Debug, PartialEq, Eq)]
pub enum Record {
    Enter(Vec<u8>),
    Leave,
    Int(Vec<u8>, u32),
    Bool(Vec<u8>, bool),
}

/// Mathematical value of a record.
pub enum RecordV {
    Enter(Seq<u8>),
    Leave,
    Int(Seq<u8>, u32),
    Bool(Seq<u8>, bool),
}

impl View for Record {
    type V = RecordV;

    open spec fn view(&self) -> RecordV {
        match self {
            Record::Enter(n) => RecordV::Enter(n@),
            Record::Leave => RecordV::Leave,
            Record::Int(n, v) => RecordV::Int(n@, *v),
            Record::Bool(n, v) => RecordV::Bool(n@, *v),
        }
    }
}

/// Why a stream could not be read back. A path lists the names of the open
/// regions followed by the name of the offending record.
#[derive(Debug, PartialEq, Eq)]
pub enum LoadError {
    /// The bytes end inside a record.
    Truncated,
    /// A region is closed that was never opened, or left open at the end.
    Unbalanced,
    /// A record's kind byte is no known kind.
    BadKind(Vec<Vec<u8>>),
    /// A boolean field holds a byte other than 0 or 1.
    BadValue(Vec<Vec<u8>>),
    /// A region or field looked up by name is absent.
    Missing(Vec<Vec<u8>>),
    /// The saved bytes could not be read at all.
    Unreadable,
}

/// Mathematical value of a `LoadError`.
pub enum LoadErrorV {
    Truncated,
    Unbalanced,
    BadKind(Seq<Seq<u8>>),
    BadValue(Seq<Seq<u8>>),
    Missing(Seq<Seq<u8>>),
    Unreadable,
}

pub open spec fn names_view(p: Seq<Vec<u8>>) -> Seq<Seq<u8>> {
    p.map_values(|n: Vec<u8>| n@)
}

pub open spec fn records_view(rs: Seq<Record>) -> Seq<RecordV> {
    rs.map_values(|r: Record| r@)
}

impl View for LoadError {
    type V = LoadErrorV;

    open spec fn view(&self) -> LoadErrorV {
        match self {
            LoadError::Truncated => LoadErrorV::Truncated,
            LoadError::Unbalanced => LoadErrorV::Unbalanced,
            LoadError::BadKind(p) => LoadErrorV::BadKind(names_view(p@)),
            LoadError::BadValue(p) => LoadErrorV::BadValue(names_view(p@)),
            LoadError::Missing(p) => LoadErrorV::Missing(names_view(p@)),
            LoadError::Unreadable => LoadErrorV::Unreadable,
        }
    }
}

pub open spec fn name_of(r: RecordV) -> Seq<u8> {
    match r {
        RecordV::Enter(n) => n,
        RecordV::Leave => seq![],
        RecordV::Int(n, _) => n,
        RecordV::Bool(n, _) => n,
    }
}

pub open spec fn kind_of(r: RecordV) -> u8 {
    match r {
        RecordV::Enter(_) => KIND_REGION,
        RecordV::Leave => KIND_END,
        RecordV::Int(_, _) => KIND_INT,
        RecordV::Bool(_, _) => KIND_BOOL,
    }
}

/// Little-endian bytes of a 32-bit value.
pub open spec fn u32_bytes(v: u32) -> Seq<u8> {
    seq![(v & 0xff) as u8, ((v >> 8u32) & 0xff) as u8, ((v >> 16u32) & 0xff) as u8, (v >> 24u32) as u8]
}

/// The 32-bit value of four little-endian bytes.
pub open spec fn u32_of(b0: u8, b1: u8, b2: u8, b3: u8) -> u32 {
    (b0 as u32) | ((b1 as u32) << 8u32) | ((b2 as u32) << 16u32) | ((b3 as u32) << 24u32)
}

/// Little-endian bytes of a 64-bit value.
pub open spec fn u64_bytes(v: u64) -> Seq<u8> {
    seq![
        (v & 0xff) as u8, ((v >> 8u64) & 0xff) as u8, ((v >> 16u64) & 0xff) as u8, ((v >> 24u64) & 0xff) as u8,
        ((v >> 32u64) & 0xff) as u8, ((v >> 40u64) & 0xff) as u8, ((v >> 48u64) & 0xff) as u8, (v >> 56u64) as u8,
    ]
}

/// The 64-bit value of the eight little-endian bytes at `p`.
pub open spec fn u64_at(b: Seq<u8>, p: int) -> u64 {
    (b[p] as u64) | ((b[p + 1] as u64) << 8u64) | ((b[p + 2] as u64) << 16u64) | ((b[p + 3] as u64) << 24u64)
        | ((b[p + 4] as u64) << 32u64) | ((b[p + 5] as u64) << 40u64) | ((b[p + 6] as u64) << 48u64)
        | ((b[p + 7] as u64) << 56u64)
}

pub open spec fn payload(r: RecordV) -> Seq<u8> {
    match r {
        RecordV::Int(_, v) => u32_bytes(v),
        RecordV::Bool(_, v) => seq![if v { 1u8 } else { 0u8 }],
        _ => seq![],
    }
}

/// A record's name length fits its eight-byte prefix.
pub open spec fn record_wf(r: RecordV) -> bool {
    name_of(r).len() <= u64::MAX
}

pub open spec fn records_wf(rs: Seq<RecordV>) -> bool {
    forall|i: int| 0 <= i < rs.len() ==> record_wf(#[trigger] rs[i])
}

/// Encoding of one record.
pub open spec fn enc(r: RecordV) -> Seq<u8> {
    u64_bytes(name_of(r).len() as u64) + name_of(r) + seq![kind_of(r), payload(r).len() as u8] + payload(r)
}

/// Encoding of a stream: the records' encodings one after another.
pub open spec fn encode_all(rs: Seq<RecordV>) -> Seq<u8>
    decreases rs.len(),
{
    if rs.len() == 0 {
        seq![]
    } else {
        encode_all(rs.drop_last()) + enc(rs.last())
    }
}

/// Names of the regions still open after a stream, or `None` where a
/// `Leave` has no region to close.
pub open spec fn open_path(rs: Seq<RecordV>) -> Option<Seq<Seq<u8>>>
    decreases rs.len(),
{
    if rs.len() == 0 {
        Some(seq![])
    } else {
        match open_path(rs.drop_last()) {
            None => None,
            Some(p) => match rs.last() {
                RecordV::Enter(n) => Some(p.push(n)),
                RecordV::Leave => if p.len() == 0 { None } else { Some(p.drop_last()) },
                _ => Some(p),
            },
        }
    }
}

/// A stream that describes a tree: every region opened is closed, in order.
pub open spec fn balanced(rs: Seq<RecordV>) -> bool {
    open_path(rs) == Some(Seq::<Seq<u8>>::empty())
}

/// Reads the record that starts at `p`, with `path` the open regions. A
/// payload whose length does not fit the kind is a bad kind.
pub open spec fn parse_one(b: Seq<u8>, p: int, path: Seq<Seq<u8>>) -> Result<(RecordV, int), LoadErrorV> {
    if p + 8 > b.len() {
        Err(LoadErrorV::Truncated)
    } else {
        let q = p + 8 + u64_at(b, p) as int;
        if q + 2 > b.len() {
            Err(LoadErrorV::Truncated)
        } else {
            let name = b.subrange(p + 8, q);
            let k = b[q];
            let m = b[q + 1] as int;
            let end = q + 2 + m;
            let bad = Err(LoadErrorV::BadKind(path.push(name)));
            if end > b.len() {
                Err(LoadErrorV::Truncated)
            } else if k == KIND_REGION {
                if m == 0 { Ok((RecordV::Enter(name), end)) } else { bad }
            } else if k == KIND_END {
                if m == 0 { Ok((RecordV::Leave, end)) } else { bad }
            } else if k == KIND_INT {
                if m == 4 {
                    Ok((RecordV::Int(name, u32_of(b[q + 2], b[q + 3], b[q + 4], b[q + 5])), end))
                } else {
                    bad
                }
            } else if k == KIND_BOOL {
                if m != 1 {
                    bad
                } else if b[q + 2] == 0 {
                    Ok((RecordV::Bool(name, false), end))
                } else if b[q + 2] == 1 {
                    Ok((RecordV::Bool(name, true), end))
                } else {
                    Err(LoadErrorV::BadValue(path.push(name)))
                }
            } else {
                bad
            }
        }
    }
}

/// Reads the rest of a stream from `p`, given the open regions and the
/// records read so far.
pub open spec fn decode_from(b: Seq<u8>, p: int, path: Seq<Seq<u8>>, acc: Seq<RecordV>) -> Result<Seq<RecordV>, LoadErrorV>
    decreases b.len() - p,
{
    if p < 0 || p >= b.len() {
        if path.len() == 0 { Ok(acc) } else { Err(LoadErrorV::Unbalanced) }
    } else {
        match parse_one(b, p, path) {
            Err(e) => Err(e),
            Ok((r, q)) => {
                if q <= p {
                    Err(LoadErrorV::Truncated)
                } else {
                    match r {
                        RecordV::Enter(n) => decode_from(b, q, path.push(n), acc.push(r)),
                        RecordV::Leave => if path.len() == 0 {
                            Err(LoadErrorV::Unbalanced)
                        } else {
                            decode_from(b, q, path.drop_last(), acc.push(r))
                        },
                        _ => decode_from(b, q, path, acc.push(r)),
                    }
                }
            },
        }
    }
}

/// What reading a whole byte stream gives.
pub open spec fn decode_spec(b: Seq<u8>) -> Result<Seq<RecordV>, LoadErrorV> {
    decode_from(b, 0, seq![], seq![])
}


/// Appends `src` to `out`.
fn push_bytes(out: &mut Vec<u8>, src: &Vec<u8>)
    ensures
        final(out)@ == old(out)@ + src@,
{
    let ghost start = out@;
    let mut i: usize = 0;
    while i < src.len()
        invariant
            i <= src.len(),
            out@ == start + src@.take(i as int),
        decreases src.len() - i,
    {
        out.push(src[i]);
        i = i + 1;
        proof {
            assert(src@.take(i as int) =~= src@.take(i - 1).push(src@[i - 1]));
        }
    }
    proof {
        assert(src@.take(i as int) =~= src@);
    }
}

/// The bytes of `b` from `start` up to `end`.
fn copy_range(b: &Vec<u8>, start: usize, end: usize) -> (r: Vec<u8>)
    requires
        start <= end <= b.len(),
    ensures
        r@ == b@.subrange(start as int, end as int),
{
    let mut r: Vec<u8> = Vec::new();
    let mut i: usize = start;
    while i < end
        invariant
            start <= i <= end,
            end <= b.len(),
            r@ == b@.subrange(start as int, i as int),
        decreases end - i,
    {
        r.push(b[i]);
        i = i + 1;
        proof {
            assert(b@.subrange(start as int, i as int) =~= b@.subrange(start as int, i - 1).push(b@[i - 1]));
        }
    }
    r
}

/// Appends the eight little-endian bytes of `v`.
fn push_u64(out: &mut Vec<u8>, v: u64)
    ensures
        final(out)@ == old(out)@ + u64_bytes(v),
{
    let ghost start = out@;
    out.push((v & 0xff) as u8);
    out.push(((v >> 8u64) & 0xff) as u8);
    out.push(((v >> 16u64) & 0xff) as u8);
    out.push(((v >> 24u64) & 0xff) as u8);
    out.push(((v >> 32u64) & 0xff) as u8);
    out.push(((v >> 40u64) & 0xff) as u8);
    out.push(((v >> 48u64) & 0xff) as u8);
    out.push((v >> 56u64) as u8);
    proof {
        assert(out@ =~= start + u64_bytes(v));
    }
}

/// Appends the encoding of one record.
fn encode_record(out: &mut Vec<u8>, r: &Record)
    ensures
        final(out)@ == old(out)@ + enc(r@),
{
    let ghost start = out@;
    match r {
        Record::Enter(n) => {
            push_u64(out, n.len() as u64);
            push_bytes(out, n);
            out.push(KIND_REGION);
            out.push(0u8);
        },
        Record::Leave => {
            push_u64(out, 0u64);
            out.push(KIND_END);
            out.push(0u8);
        },
        Record::Int(n, v) => {
            push_u64(out, n.len() as u64);
            push_bytes(out, n);
            out.push(KIND_INT);
            out.push(4u8);
            let v = *v;
            out.push((v & 0xff) as u8);
            out.push(((v >> 8u32) & 0xff) as u8);
            out.push(((v >> 16u32) & 0xff) as u8);
            out.push((v >> 24u32) as u8);
        },
        Record::Bool(n, v) => {
            push_u64(out, n.len() as u64);
            push_bytes(out, n);
            out.push(KIND_BOOL);
            out.push(1u8);
            out.push(if *v { 1u8 } else { 0u8 });
        },
    }
    proof {
        assert(out@ =~= start + enc(r@));
    }
}

/// Writes a stream of records in its binary form.
pub fn encode(rs: &Vec<Record>) -> (b: Vec<u8>)
    ensures
        b@ == encode_all(records_view(rs@)),
{
    let mut out: Vec<u8> = Vec::new();
    let mut i: usize = 0;
    while i < rs.len()
        invariant
            i <= rs.len(),
            out@ == encode_all(records_view(rs@).take(i as int)),
        decreases rs.len() - i,
    {
        encode_record(&mut out, &rs[i]);
        i = i + 1;
        proof {
            let v = records_view(rs@);
            assert(v.take(i as int).drop_last() =~= v.take(i - 1));
        }
    }
    proof {
        assert(records_view(rs@).take(i as int) =~= records_view(rs@));
    }
    out
}

/// Reads a stream of records back from its binary form.
pub fn decode(b: &Vec<u8>) -> (r: Result<Vec<Record>, LoadError>)
    ensures
        match r {
            Ok(rs) => decode_spec(b@) == Ok::<Seq<RecordV>, LoadErrorV>(records_view(rs@)),
            Err(e) => decode_spec(b@) == Err::<Seq<RecordV>, LoadErrorV>(e@),
        },
{
    let mut pos: usize = 0;
    let mut path: Vec<Vec<u8>> = Vec::new();
    let mut out: Vec<Record> = Vec::new();
    proof {
        assert(names_view(path@) =~= seq![]);
        assert(records_view(out@) =~= seq![]);
    }
    while pos < b.len()
        invariant
            pos <= b.len(),
            decode_from(b@, pos as int, names_view(path@), records_view(out@)) == decode_spec(b@),
        decreases b.len() - pos,
    {
        let ghost gpath = names_view(path@);
        let ghost gout = records_view(out@);
        if b.len() - pos < 8 {
            return Err(LoadError::Truncated);
        }
        let n: u64 = (b[pos] as u64) | ((b[pos + 1] as u64) << 8u64) | ((b[pos + 2] as u64) << 16u64)
            | ((b[pos + 3] as u64) << 24u64) | ((b[pos + 4] as u64) << 32u64) | ((b[pos + 5] as u64) << 40u64)
            | ((b[pos + 6] as u64) << 48u64) | ((b[pos + 7] as u64) << 56u64);
        let room = b.len() - pos - 8;
        if n > room as u64 || room - (n as usize) < 2 {
            return Err(LoadError::Truncated);
        }
        let q = pos + 8 + n as usize;
        let name = copy_range(b, pos + 8, q);
        let k = b[q];
        let m = b[q + 1] as usize;
        if b.len() - q - 2 < m {
            return Err(LoadError::Truncated);
        }
        let end = q + 2 + m;
        let fits = if k == KIND_REGION || k == KIND_END {
            m == 0
        } else if k == KIND_INT {
            m == 4
        } else if k == KIND_BOOL {
            m == 1
        } else {
            false
        };
        if !fits {
            let ghost nm = name@;
            path.push(name);
            proof {
                assert(names_view(path@) =~= gpath.push(nm));
            }
            return Err(LoadError::BadKind(path));
        }
        if k == KIND_REGION {
            let entry = copy_range(b, pos + 8, q);
            path.push(entry);
            out.push(Record::Enter(name));
            proof {
                assert(names_view(path@) =~= gpath.push(entry@));
                assert(records_view(out@) =~= gout.push(RecordV::Enter(entry@)));
            }
        } else if k == KIND_END {
            if path.len() == 0 {
                return Err(LoadError::Unbalanced);
            }
            path.pop();
            out.push(Record::Leave);
            proof {
                assert(names_view(path@) =~= gpath.drop_last());
                assert(records_view(out@) =~= gout.push(RecordV::Leave));
            }
        } else if k == KIND_INT {
            let v = (b[q + 2] as u32) | ((b[q + 3] as u32) << 8u32) | ((b[q + 4] as u32) << 16u32)
                | ((b[q + 5] as u32) << 24u32);
            out.push(Record::Int(name, v));
            proof {
                assert(records_view(out@) =~= gout.push(RecordV::Int(name@, v)));
            }
        } else {
            if b[q + 2] == 0 {
                out.push(Record::Bool(name, false));
                proof {
                    assert(records_view(out@) =~= gout.push(RecordV::Bool(name@, false)));
                }
            } else if b[q + 2] == 1 {
                out.push(Record::Bool(name, true));
                proof {
                    assert(records_view(out@) =~= gout.push(RecordV::Bool(name@, true)));
                }
            } else {
                let ghost nm = name@;
                path.push(name);
                proof {
                    assert(names_view(path@) =~= gpath.push(nm));
                }
                return Err(LoadError::BadValue(path));
            }
        }
        pos = end;
    }
    if path.len() == 0 {
        Ok(out)
    } else {
        Err(LoadError::Unbalanced)
    }
}

/// Nesting depth before the record at `i`: how many regions are open there.
pub open spec fn depth_at(rs: Seq<RecordV>, i: int) -> int {
    match open_path(rs.take(i)) {
        Some(p) => p.len() as int,
        None => -1,
    }
}

/// The record at `i` opens a region named `name` at depth `d`.
pub open spec fn opens_at(rs: Seq<RecordV>, i: int, d: int, name: Seq<u8>) -> bool {
    depth_at(rs, i) == d && rs[i] == RecordV::Enter(name)
}

proof fn lemma_depth_step(rs: Seq<RecordV>, i: int)
    requires
        0 <= i < rs.len(),
        open_path(rs.take(i)) is Some,
    ensures
        depth_at(rs, i + 1) == match rs[i] {
            RecordV::Enter(_) => depth_at(rs, i) + 1,
            RecordV::Leave => if depth_at(rs, i) == 0 { -1 } else { depth_at(rs, i) - 1 },
            _ => depth_at(rs, i),
        },
        open_path(rs.take(i + 1)) is Some <==> !(rs[i] is Leave && depth_at(rs, i) == 0),
{
    assert(rs.take(i + 1).drop_last() =~= rs.take(i));
    assert(rs.take(i + 1).last() == rs[i]);
}

proof fn lemma_some_prefix(rs: Seq<RecordV>, i: int)
    requires
        0 <= i <= rs.len(),
        open_path(rs) is Some,
    ensures
        open_path(rs.take(i)) is Some,
    decreases rs.len() - i,
{
    if i < rs.len() {
        lemma_some_prefix(rs, i + 1);
        assert(rs.take(i + 1).drop_last() =~= rs.take(i));
    } else {
        assert(rs.take(i) =~= rs);
    }
}

/// Whether two names are the same bytes.
pub fn same_name(a: &Vec<u8>, b: &Vec<u8>) -> (r: bool)
    ensures
        r == (a@ == b@),
{
    if a.len() != b.len() {
        return false;
    }
    let mut i: usize = 0;
    while i < a.len()
        invariant
            i <= a.len(),
            a.len() == b.len(),
            a@.take(i as int) == b@.take(i as int),
        decreases a.len() - i,
    {
        if a[i] != b[i] {
            assert(a@[i as int] != b@[i as int]);
            return false;
        }
        i = i + 1;
        proof {
            assert(a@.take(i as int) =~= a@.take(i - 1).push(a@[i - 1]));
            assert(b@.take(i as int) =~= b@.take(i - 1).push(b@[i - 1]));
        }
    }
    proof {
        assert(a@.take(i as int) =~= a@);
        assert(b@.take(i as int) =~= b@);
    }
    true
}

/// Finds the first top-level region named `name` in a balanced stream:
/// the index of its `Enter` record and of the `Leave` that closes it.
pub fn find_region(rs: &Vec<Record>, name: &Vec<u8>) -> (r: Option<(usize, usize)>)
    requires
        balanced(records_view(rs@)),
    ensures
        match r {
            Some((s, e)) => {
                let v = records_view(rs@);
                &&& s < e < rs.len()
                &&& opens_at(v, s as int, 0, name@)
                &&& forall|i: int| 0 <= i < s ==> !opens_at(v, i, 0, name@)
                &&& v[e as int] == RecordV::Leave
                &&& depth_at(v, e as int + 1) == 0
                &&& forall|j: int| s < j <= e ==> depth_at(v, j) >= 1
            },
            None => forall|i: int| 0 <= i < rs.len() ==> !opens_at(records_view(rs@), i, 0, name@),
        },
{
    let ghost v = records_view(rs@);
    let mut i: usize = 0;
    let mut depth: usize = 0;
    let mut start: Option<usize> = None;
    while i < rs.len()
        invariant
            v == records_view(rs@),
            balanced(v),
            i <= rs.len(),
            open_path(v.take(i as int)) is Some,
            depth as int == depth_at(v, i as int),
            depth <= i,
            match start {
                None => forall|j: int| 0 <= j < i ==> !opens_at(v, j, 0, name@),
                Some(s) => {
                    &&& s < i
                    &&& opens_at(v, s as int, 0, name@)
                    &&& forall|j: int| 0 <= j < s ==> !opens_at(v, j, 0, name@)
                    &&& forall|j: int| s < j <= i ==> depth_at(v, j) >= 1
                },
            },
        decreases rs.len() - i,
    {
        proof {
            lemma_some_prefix(v, i as int + 1);
            lemma_depth_step(v, i as int);
            assert(v[i as int] == rs@[i as int]@);
        }
        match &rs[i] {
            Record::Enter(n) => {
                if start.is_none() && depth == 0 && same_name(n, name) {
                    start = Some(i);
                }
                depth = depth + 1;
            },
            Record::Leave => {
                depth = depth - 1;
                if let Some(s) = start {
                    if depth == 0 {
                        return Some((s, i));
                    }
                }
            },
            _ => {},
        }
        i = i + 1;
    }
    proof {
        if start is Some {
            assert(v.take(i as int) =~= v);
            assert(depth_at(v, i as int) == 0);
        }
    }
    None
}

/// The record at `j` is a direct child named `name` of a top-level region.
pub open spec fn child_at(rs: Seq<RecordV>, j: int, name: Seq<u8>) -> bool {
    &&& depth_at(rs, j) == 1
    &&& !(rs[j] is Leave)
    &&& name_of(rs[j]) == name
}

/// Finds the first direct child named `name` of the region that opens at
/// `s` and closes at `e`.
fn find_child(rs: &Vec<Record>, s: usize, e: usize, name: &Vec<u8>) -> (r: Option<usize>)
    requires
        balanced(records_view(rs@)),
        s < e < rs.len(),
        depth_at(records_view(rs@), s as int + 1) == 1,
    ensures
        match r {
            Some(j) => s < j < e && child_at(records_view(rs@), j as int, name@)
                && forall|i: int| s < i < j ==> !child_at(records_view(rs@), i, name@),
            None => forall|i: int| s < i < e ==> !child_at(records_view(rs@), i, name@),
        },
{
    let ghost v = records_view(rs@);
    let mut i: usize = s + 1;
    let mut depth: usize = 1;
    proof {
        lemma_some_prefix(v, i as int);
    }
    while i < e
        invariant
            v == records_view(rs@),
            balanced(v),
            s < i <= e,
            e < rs.len(),
            open_path(v.take(i as int)) is Some,
            depth as int == depth_at(v, i as int),
            depth <= i,
            forall|j: int| s < j < i ==> !child_at(v, j, name@),
        decreases e - i,
    {
        proof {
            lemma_some_prefix(v, i as int + 1);
            lemma_depth_step(v, i as int);
            assert(v[i as int] == rs@[i as int]@);
        }
        let hit = match &rs[i] {
            Record::Enter(n) => depth == 1 && same_name(n, name),
            Record::Leave => false,
            Record::Int(n, _) => depth == 1 && same_name(n, name),
            Record::Bool(n, _) => depth == 1 && same_name(n, name),
        };
        if hit {
            return Some(i);
        }
        match &rs[i] {
            Record::Enter(_) => {
                depth = depth + 1;
            },
            Record::Leave => {
                depth = depth - 1;
            },
            _ => {},
        }
        i = i + 1;
    }
    None
}

/// The first top-level region named `name` opens at `s` and closes at `e`.
pub open spec fn region_span(v: Seq<RecordV>, s: int, e: int, name: Seq<u8>) -> bool {
    &&& 0 <= s < e < v.len()
    &&& opens_at(v, s, 0, name)
    &&& forall|i: int| 0 <= i < s ==> !opens_at(v, i, 0, name)
    &&& v[e] == RecordV::Leave
    &&& depth_at(v, e + 1) == 0
    &&& forall|i: int| s < i <= e ==> depth_at(v, i) >= 1
}

/// The first direct child named `name` of the region from `s` to `e`
/// stands at `j`.
pub open spec fn first_child(v: Seq<RecordV>, s: int, e: int, j: int, name: Seq<u8>) -> bool {
    &&& s < j < e
    &&& child_at(v, j, name)
    &&& forall|i: int| s < i < j ==> !child_at(v, i, name)
}

/// Reads the integer field `field` directly inside the top-level region
/// `region`, by name. Fails with the full path of the first name that is
/// absent, or of a field that is not an integer.
pub fn read_int(rs: &Vec<Record>, region: &Vec<u8>, field: &Vec<u8>) -> (r: Result<u32, LoadError>)
    requires
        balanced(records_view(rs@)),
    ensures
        ({
            let v = records_view(rs@);
            match r {
                Ok(x) => exists|s: int, e: int, j: int|
                    #![trigger region_span(v, s, e, region@), first_child(v, s, e, j, field@)]
                    region_span(v, s, e, region@) && first_child(v, s, e, j, field@)
                    && v[j] == RecordV::Int(field@, x),
                Err(err) => match err@ {
                    LoadErrorV::Missing(p) => {
                        ||| p == seq![region@] && (forall|i: int| 0 <= i < v.len() ==> !opens_at(v, i, 0, region@))
                        ||| p == seq![region@, field@] && exists|s: int, e: int|
                            #![trigger region_span(v, s, e, region@)]
                            region_span(v, s, e, region@) && forall|i: int| s < i < e ==> !child_at(v, i, field@)
                    },
                    LoadErrorV::BadKind(p) => p == seq![region@, field@] && exists|s: int, e: int, j: int|
                        #![trigger region_span(v, s, e, region@), first_child(v, s, e, j, field@)]
                        region_span(v, s, e, region@) && first_child(v, s, e, j, field@) && !(v[j] is Int),
                    _ => false,
                },
            }
        }),
        (forall|i: int| 0 <= i < rs.len() ==> !opens_at(records_view(rs@), i, 0, region@))
            ==> r is Err && r->Err_0@ == LoadErrorV::Missing(seq![region@]),
{
    let ghost v = records_view(rs@);
    match find_region(rs, region) {
        None => {
            let p = vec![copy_range(region, 0, region.len())];
            proof {
                assert(region@.subrange(0, region@.len() as int) =~= region@);
                assert(names_view(p@) =~= seq![region@]);
            }
            Err(LoadError::Missing(p))
        },
        Some((s, e)) => {
            proof {
                lemma_some_prefix(v, s as int);
                lemma_depth_step(v, s as int);
            }
            let p = vec![copy_range(region, 0, region.len()), copy_range(field, 0, field.len())];
            proof {
                assert(region@.subrange(0, region@.len() as int) =~= region@);
                assert(field@.subrange(0, field@.len() as int) =~= field@);
                assert(names_view(p@) =~= seq![region@, field@]);
            }
            match find_child(rs, s, e, field) {
                None => {
                    proof {
                        assert(region_span(v, s as int, e as int, region@));
                    }
                    Err(LoadError::Missing(p))
                },
                Some(j) => {
                    proof {
                        assert(v[j as int] == rs@[j as int]@);
                        assert(region_span(v, s as int, e as int, region@));
                        assert(first_child(v, s as int, e as int, j as int, field@));
                    }
                    match &rs[j] {
                        Record::Int(_, x) => Ok(*x),
                        _ => Err(LoadError::BadKind(p)),
                    }
                },
            }
        },
    }
}

/// Reads the boolean field `field` directly inside the top-level region
/// `region`, by name. Fails with the full path of the first name that is
/// absent, or of a field that is not a boolean.
pub fn read_bool(rs: &Vec<Record>, region: &Vec<u8>, field: &Vec<u8>) -> (r: Result<bool, LoadError>)
    requires
        balanced(records_view(rs@)),
    ensures
        ({
            let v = records_view(rs@);
            match r {
                Ok(x) => exists|s: int, e: int, j: int|
                    #![trigger region_span(v, s, e, region@), first_child(v, s, e, j, field@)]
                    region_span(v, s, e, region@) && first_child(v, s, e, j, field@)
                    && v[j] == RecordV::Bool(field@, x),
                Err(err) => match err@ {
                    LoadErrorV::Missing(p) => {
                        ||| p == seq![region@] && (forall|i: int| 0 <= i < v.len() ==> !opens_at(v, i, 0, region@))
                        ||| p == seq![region@, field@] && exists|s: int, e: int|
                            #![trigger region_span(v, s, e, region@)]
                            region_span(v, s, e, region@) && forall|i: int| s < i < e ==> !child_at(v, i, field@)
                    },
                    LoadErrorV::BadKind(p) => p == seq![region@, field@] && exists|s: int, e: int, j: int|
                        #![trigger region_span(v, s, e, region@), first_child(v, s, e, j, field@)]
                        region_span(v, s, e, region@) && first_child(v, s, e, j, field@) && !(v[j] is Bool),
                    _ => false,
                },
            }
        }),
        (forall|i: int| 0 <= i < rs.len() ==> !opens_at(records_view(rs@), i, 0, region@))
            ==> r is Err && r->Err_0@ == LoadErrorV::Missing(seq![region@]),
{
    let ghost v = records_view(rs@);
    match find_region(rs, region) {
        None => {
            let p = vec![copy_range(region, 0, region.len())];
            proof {
                assert(region@.subrange(0, region@.len() as int) =~= region@);
                assert(names_view(p@) =~= seq![region@]);
            }
            Err(LoadError::Missing(p))
        },
        Some((s, e)) => {
            proof {
                lemma_some_prefix(v, s as int);
                lemma_depth_step(v, s as int);
            }
            let p = vec![copy_range(region, 0, region.len()), copy_range(field, 0, field.len())];
            proof {
                assert(region@.subrange(0, region@.len() as int) =~= region@);
                assert(field@.subrange(0, field@.len() as int) =~= field@);
                assert(names_view(p@) =~= seq![region@, field@]);
            }
            match find_child(rs, s, e, field) {
                None => {
                    proof {
                        assert(region_span(v, s as int, e as int, region@));
                    }
                    Err(LoadError::Missing(p))
                },
                Some(j) => {
                    proof {
                        assert(v[j as int] == rs@[j as int]@);
                        assert(region_span(v, s as int, e as int, region@));
                        assert(first_child(v, s as int, e as int, j as int, field@));
                    }
                    match &rs[j] {
                        Record::Bool(_, x) => Ok(*x),
                        _ => Err(LoadError::BadKind(p)),
                    }
                },
            }
        },
    }
}

/// A record read from the stream is well formed.
proof fn lemma_parse_wf(b: Seq<u8>, p: int, path: Seq<Seq<u8>>)
    requires
        0 <= p < b.len(),
        parse_one(b, p, path) is Ok,
    ensures
        record_wf(parse_one(b, p, path)->Ok_0.0),
{
}

/// Whatever a successful read gives is a well-formed, balanced stream.
proof fn lemma_decode_from_ok(b: Seq<u8>, p: int, path: Seq<Seq<u8>>, acc: Seq<RecordV>)
    requires
        open_path(acc) == Some(path),
        records_wf(acc),
        decode_from(b, p, path, acc) is Ok,
    ensures
        balanced(decode_from(b, p, path, acc)->Ok_0),
        records_wf(decode_from(b, p, path, acc)->Ok_0),
    decreases b.len() - p,
{
    if p < 0 || p >= b.len() {
        assert(path =~= Seq::<Seq<u8>>::empty());
    } else {
        let (r, q) = parse_one(b, p, path)->Ok_0;
        lemma_parse_wf(b, p, path);
        let acc2 = acc.push(r);
        assert(acc2.drop_last() =~= acc);
        assert(records_wf(acc2)) by {
            assert forall|i: int| 0 <= i < acc2.len() implies record_wf(#[trigger] acc2[i]) by {
                if i < acc.len() {
                    assert(acc2[i] == acc[i]);
                }
            }
        }
        match r {
            RecordV::Enter(n) => lemma_decode_from_ok(b, q, path.push(n), acc2),
            RecordV::Leave => lemma_decode_from_ok(b, q, path.drop_last(), acc2),
            _ => lemma_decode_from_ok(b, q, path, acc2),
        }
    }
}

/// Whatever `decode` accepts is a well-formed, balanced stream.
pub proof fn lemma_decode_ok(b: Seq<u8>)
    requires
        decode_spec(b) is Ok,
    ensures
        balanced(decode_spec(b)->Ok_0),
        records_wf(decode_spec(b)->Ok_0),
{
    let e = Seq::<RecordV>::empty();
    assert(open_path(e) == Some(Seq::<Seq<u8>>::empty()));
    lemma_decode_from_ok(b, 0, seq![], e);
}

/// Builds a stream by entering regions, writing fields and leaving regions.
/// Its bytes are handed out only once the whole tree is built.
#[derive(Debug)]
pub struct Visitor {
    records: Vec<Record>,
    open: usize,
}

impl View for Visitor {
    type V = Seq<RecordV>;

    closed spec fn view(&self) -> Seq<RecordV> {
        records_view(self.records@)
    }
}

proof fn lemma_push_wf(v: Seq<RecordV>, r: RecordV)
    requires
        records_wf(v),
        record_wf(r),
    ensures
        records_wf(v.push(r)),
        v.push(r).drop_last() == v,
{
    assert(v.push(r).drop_last() =~= v);
    assert forall|i: int| 0 <= i < v.push(r).len() implies record_wf(#[trigger] v.push(r)[i]) by {
        if i < v.len() {
            assert(v.push(r)[i] == v[i]);
        }
    }
}

impl Visitor {
    pub closed spec fn wf(&self) -> bool {
        &&& records_wf(self@)
        &&& open_path(self@) is Some
        &&& open_path(self@)->Some_0.len() == self.open
        &&& self.open <= self.records.len()
    }

    /// Number of regions entered and not yet left.
    pub closed spec fn depth(&self) -> nat {
        self.open as nat
    }

    pub fn new() -> (v: Visitor)
        ensures
            v.wf(),
            v@ == Seq::<RecordV>::empty(),
            v.depth() == 0,
    {
        let v = Visitor { records: Vec::new(), open: 0 };
        proof {
            assert(v@ =~= Seq::<RecordV>::empty());
        }
        v
    }

    fn push_record(&mut self, r: Record)
        requires
            old(self).wf(),
            record_wf(r@),
            !(r is Leave),
        ensures
            final(self).wf(),
            final(self)@ == old(self)@.push(r@),
            final(self).depth() == old(self).depth() + (if r is Enter { 1int } else { 0int }),
    {
        let ghost before = self@;
        let ghost rv = r@;
        let enters = match &r {
            Record::Enter(_) => true,
            _ => false,
        };
        self.records.push(r);
        assert(self.open < self.records.len());
        if enters {
            self.open = self.open + 1;
        }
        proof {
            assert(self@ =~= before.push(rv));
            lemma_push_wf(before, rv);
        }
    }

    /// Opens a region named `name`.
    pub fn enter_region(&mut self, name: Vec<u8>)
        requires
            old(self).wf(),
        ensures
            final(self).wf(),
            final(self)@ == old(self)@.push(RecordV::Enter(name@)),
            final(self).depth() == old(self).depth() + 1,
    {
        assert(name@.len() == name.len());
        self.push_record(Record::Enter(name));
    }

    /// Closes the innermost open region; refused where none is open.
    pub fn leave_region(&mut self) -> (ok: bool)
        requires
            old(self).wf(),
        ensures
            final(self).wf(),
            ok == (old(self).depth() > 0),
            ok ==> final(self)@ == old(self)@.push(RecordV::Leave) && final(self).depth() == old(self).depth() - 1,
            !ok ==> final(self)@ == old(self)@ && final(self).depth() == old(self).depth(),
    {
        if self.open == 0 {
            return false;
        }
        let ghost before = self@;
        self.records.push(Record::Leave);
        self.open = self.open - 1;
        proof {
            assert(self@ =~= before.push(RecordV::Leave));
            lemma_push_wf(before, RecordV::Leave);
        }
        true
    }

    /// Writes an integer field into the innermost open region.
    pub fn field_int(&mut self, name: Vec<u8>, value: u32)
        requires
            old(self).wf(),
        ensures
            final(self).wf(),
            final(self).depth() == old(self).depth(),
            final(self)@ == old(self)@.push(RecordV::Int(name@, value)),
    {
        assert(name@.len() == name.len());
        self.push_record(Record::Int(name, value));
    }

    /// Writes a boolean field into the innermost open region.
    pub fn field_bool(&mut self, name: Vec<u8>, value: bool)
        requires
            old(self).wf(),
        ensures
            final(self).wf(),
            final(self).depth() == old(self).depth(),
            final(self)@ == old(self)@.push(RecordV::Bool(name@, value)),
    {
        assert(name@.len() == name.len());
        self.push_record(Record::Bool(name, value));
    }

    /// The binary form of the tree, once every region is closed; `None`
    /// while one is open. What it returns reads back as the same tree.
    pub fn save_binary(&self) -> (r: Option<Vec<u8>>)
        requires
            self.wf(),
        ensures
            r is Some <==> self.depth() == 0,
            r is Some ==> r->Some_0@ == encode_all(self@),
            r is Some ==> decode_spec(r->Some_0@) == Ok::<Seq<RecordV>, LoadErrorV>(self@),
    {
        if self.open != 0 {
            return None;
        }
        proof {
            assert(open_path(self@)->Some_0 =~= Seq::<Seq<u8>>::empty());
            lemma_round_trip(self@);
        }
        Some(encode(&self.records))
    }

    /// The records written so far.
    pub fn into_records(self) -> (r: Vec<Record>)
        requires
            self.wf(),
        ensures
            records_view(r@) == self@,
            records_wf(records_view(r@)),
            self.depth() == 0 ==> balanced(records_view(r@)),
    {
        proof {
            if self.open == 0 {
                assert(open_path(self@)->Some_0 =~= Seq::<Seq<u8>>::empty());
            }
        }
        self.records
    }
}

/// Regions still open after two streams one after the other.
pub proof fn lemma_open_path_append(a: Seq<RecordV>, b: Seq<RecordV>)
    requires
        open_path(a) is Some,
        open_path(b) is Some,
    ensures
        open_path(a + b) == Some(open_path(a)->Some_0 + open_path(b)->Some_0),
    decreases b.len(),
{
    let p = open_path(a)->Some_0;
    if b.len() == 0 {
        assert(a + b =~= a);
        assert(p + open_path(b)->Some_0 =~= p);
    } else {
        let b0 = b.drop_last();
        assert((a + b).drop_last() =~= a + b0);
        assert((a + b).last() == b.last());
        lemma_open_path_append(a, b0);
        let q0 = open_path(b0)->Some_0;
        match b.last() {
            RecordV::Enter(n) => {
                assert((p + q0).push(n) =~= p + q0.push(n));
            },
            RecordV::Leave => {
                assert((p + q0).drop_last() =~= p + q0.drop_last());
            },
            _ => {},
        }
    }
}

proof fn lemma_u32_round_trip(v: u32)
    ensures
        u32_of((v & 0xff) as u8, ((v >> 8u32) & 0xff) as u8, ((v >> 16u32) & 0xff) as u8, (v >> 24u32) as u8) == v,
{
    assert(u32_of((v & 0xff) as u8, ((v >> 8u32) & 0xff) as u8, ((v >> 16u32) & 0xff) as u8, (v >> 24u32) as u8) == v) by (bit_vector);
}

proof fn lemma_u64_at(b: Seq<u8>, p: int, v: u64)
    requires
        0 <= p,
        p + 8 <= b.len(),
        b.subrange(p, p + 8) == u64_bytes(v),
    ensures
        u64_at(b, p) == v,
{
    let e = u64_bytes(v);
    assert forall|j: int| 0 <= j < 8 implies b[p + j] == e[j] by {
        assert(b.subrange(p, p + 8)[j] == b[p + j]);
    }
    assert(b[p] == e[0] && b[p + 1] == e[1] && b[p + 2] == e[2] && b[p + 3] == e[3]);
    assert(b[p + 4] == e[4] && b[p + 5] == e[5] && b[p + 6] == e[6] && b[p + 7] == e[7]);
    assert((((v & 0xff) as u8) as u64) | (((((v >> 8u64) & 0xff) as u8) as u64) << 8u64)
        | (((((v >> 16u64) & 0xff) as u8) as u64) << 16u64) | (((((v >> 24u64) & 0xff) as u8) as u64) << 24u64)
        | (((((v >> 32u64) & 0xff) as u8) as u64) << 32u64) | (((((v >> 40u64) & 0xff) as u8) as u64) << 40u64)
        | (((((v >> 48u64) & 0xff) as u8) as u64) << 48u64) | ((((v >> 56u64) as u8) as u64) << 56u64) == v)
        by (bit_vector);
}

/// The name and the kind byte of a record read at `p`: reading as far as the
/// kind byte depends only on the name-length prefix and the name.
proof fn lemma_parse_head(b: Seq<u8>, p: int, r: RecordV)
    requires
        record_wf(r),
        0 <= p,
        p + 8 + name_of(r).len() <= b.len(),
        b.subrange(p, p + 8) == u64_bytes(name_of(r).len() as u64),
        b.subrange(p + 8, p + 8 + name_of(r).len()) == name_of(r),
    ensures
        u64_at(b, p) as int == name_of(r).len(),
{
    lemma_u64_at(b, p, name_of(r).len() as u64);
}

/// Reading a record back from its encoding, wherever it stands in a stream.
proof fn lemma_parse_enc(b: Seq<u8>, p: int, r: RecordV, path: Seq<Seq<u8>>)
    requires
        record_wf(r),
        0 <= p,
        p + enc(r).len() <= b.len(),
        b.subrange(p, p + enc(r).len()) == enc(r),
    ensures
        parse_one(b, p, path) == Ok::<(RecordV, int), LoadErrorV>((r, p + enc(r).len())),
{
    let e = enc(r);
    let name = name_of(r);
    let n = name.len() as int;
    let q = p + 8 + n;
    assert forall|j: int| 0 <= j < e.len() implies b[p + j] == e[j] by {
        assert(b.subrange(p, p + e.len())[j] == b[p + j]);
    }
    assert(b.subrange(p, p + 8) =~= u64_bytes(n as u64)) by {
        assert forall|j: int| 0 <= j < 8 implies #[trigger] b.subrange(p, p + 8)[j] == u64_bytes(n as u64)[j] by {
            assert(b[p + j] == e[j]);
        }
    }
    assert(b.subrange(p + 8, q) =~= name) by {
        assert forall|j: int| 0 <= j < n implies b.subrange(p + 8, q)[j] == name[j] by {
            assert(b[p + 8 + j] == e[8 + j]);
        }
    }
    lemma_parse_head(b, p, r);
    assert(b[q] == e[8 + n]);
    assert(b[q + 1] == e[9 + n]);
    match r {
        RecordV::Int(_, v) => {
            assert(b[q + 2] == e[10 + n]);
            assert(b[q + 3] == e[11 + n]);
            assert(b[q + 4] == e[12 + n]);
            assert(b[q + 5] == e[13 + n]);
            lemma_u32_round_trip(v);
        },
        RecordV::Bool(_, v) => {
            assert(b[q + 2] == e[10 + n]);
        },
        _ => {},
    }
}

/// Reading a stream that begins with the encoding of `rs` reaches the end
/// of that encoding with exactly `rs` read and its regions open.
proof fn lemma_decode_prefix(b: Seq<u8>, rs: Seq<RecordV>)
    requires
        records_wf(rs),
        open_path(rs) is Some,
        encode_all(rs).len() <= b.len(),
        b.subrange(0, encode_all(rs).len() as int) == encode_all(rs),
    ensures
        decode_spec(b) == decode_from(b, encode_all(rs).len() as int, open_path(rs)->Some_0, rs),
    decreases rs.len(),
{
    if rs.len() == 0 {
        assert(rs =~= seq![]);
    } else {
        let pre = rs.drop_last();
        let r = rs.last();
        let e = encode_all(pre);
        let p = e.len() as int;
        assert(encode_all(rs) == e + enc(r));
        assert(b.subrange(0, p) =~= encode_all(rs).subrange(0, p));
        assert(encode_all(rs).subrange(0, p) =~= e);
        assert(records_wf(pre)) by {
            assert forall|i: int| 0 <= i < pre.len() implies record_wf(#[trigger] pre[i]) by {
                assert(pre[i] == rs[i]);
            }
        }
        lemma_decode_prefix(b, pre);
        assert(record_wf(rs[rs.len() - 1]));
        assert(b.subrange(p, p + enc(r).len()) =~= enc(r)) by {
            assert forall|j: int| 0 <= j < enc(r).len() implies b.subrange(p, p + enc(r).len())[j] == enc(r)[j] by {
                assert(b[p + j] == b.subrange(0, encode_all(rs).len() as int)[p + j]);
                assert(encode_all(rs)[p + j] == enc(r)[j]);
            }
        }
        let path = open_path(pre)->Some_0;
        lemma_parse_enc(b, p, r, path);
        assert(pre.push(r) =~= rs);
        assert(enc(r).len() > 0);
    }
}

/// Writing a tree and reading it back gives the same records: the same
/// regions, names and values in the same nesting.
pub proof fn lemma_round_trip(rs: Seq<RecordV>)
    requires
        records_wf(rs),
        balanced(rs),
    ensures
        decode_spec(encode_all(rs)) == Ok::<Seq<RecordV>, LoadErrorV>(rs),
{
    let b = encode_all(rs);
    assert(b.subrange(0, b.len() as int) =~= b);
    lemma_decode_prefix(b, rs);
}

/// A field whose kind byte was overwritten with any other byte makes reading
/// fail at that field, and the error names the field under its full region
/// path, whatever follows it.
pub proof fn lemma_corrupt_kind(pre: Seq<RecordV>, field: RecordV, k: u8, post: Seq<u8>)
    requires
        records_wf(pre),
        record_wf(field),
        open_path(pre) is Some,
        field is Int || field is Bool,
        k != kind_of(field),
    ensures
        decode_spec(encode_all(pre) + enc(field).update(8 + name_of(field).len() as int, k) + post)
            == Err::<Seq<RecordV>, LoadErrorV>(LoadErrorV::BadKind(open_path(pre)->Some_0.push(name_of(field)))),
{
    let name = name_of(field);
    let n = name.len() as int;
    let c = enc(field).update(8 + n, k);
    let e = encode_all(pre);
    let b = e + c + post;
    let p = e.len() as int;
    let q = p + 8 + n;
    assert(b.subrange(0, p) =~= e);
    lemma_decode_prefix(b, pre);
    assert forall|j: int| 0 <= j < c.len() implies b[p + j] == c[j] by {}
    assert(b.subrange(p, p + 8) =~= u64_bytes(n as u64)) by {
        assert forall|j: int| 0 <= j < 8 implies #[trigger] b.subrange(p, p + 8)[j] == u64_bytes(n as u64)[j] by {
            assert(b[p + j] == c[j]);
        }
    }
    assert(b.subrange(p + 8, q) =~= name) by {
        assert forall|j: int| 0 <= j < n implies b.subrange(p + 8, q)[j] == name[j] by {
            assert(b[p + 8 + j] == c[8 + j]);
        }
    }
    lemma_parse_head(b, p, field);
    assert(b[q] == c[8 + n]);
    assert(b[q] == k);
    assert(b[q + 1] == c[9 + n]);
    assert(b[q + 1] as int == payload(field).len());
    assert(q + 2 + payload(field).len() <= b.len());
}

} // verus!
