//! Splitting one record stream into chunks of a fixed number of records,
//! each chunk going to a sink of its own.
use vstd::prelude::*;

use vstd::arithmetic::div_mod::{
    lemma_div_multiples_vanish_fancy,
    lemma_fundamental_div_mod,
    lemma_mod_multiples_basic,
};

use crate::record::{Record, records_view};

verus! {

/// Why a split cannot begin.
#[derive(Debug)]
pub enum SplitError {
    /// The chunk size is zero.
    ZeroSize,
}

/// What to do with the sinks before writing the next record.
#[derive(Debug, PartialEq, Eq, Structural)]
pub enum Step {
    /// Open the first sink, for the chunk that starts at this record index,
    /// and write the header into it when headers are enabled.
    Open(usize),
    /// Flush and close the current sink, then open one for the chunk that
    /// starts at this record index, and write the header into it when headers
    /// are enabled.
    Rotate(usize),
    /// Keep writing into the current sink.
    Write,
}

/// The state of a split in progress: the chunk size and the number of
/// records seen so far.
pub struct Splitter {
    size: usize,
    count: usize,
}

impl Splitter {
    /// The number of records in a full chunk.
    pub closed spec fn size(&self) -> nat {
        self.size as nat
    }

    /// The number of records seen so far.
    pub closed spec fn count(&self) -> nat {
        self.count as nat
    }

    /// Starts a split into chunks of `size` records; a size of zero is refused.
    pub fn new(size: usize) -> (r: Result<Splitter, SplitError>)
        ensures
            r is Err <==> size == 0,
            match r {
                Ok(s) => s.size() == size && s.count() == 0,
                Err(e) => e is ZeroSize,
            },
    {
        if size == 0 {
            Err(SplitError::ZeroSize)
        } else {
            Ok(Splitter { size, count: 0 })
        }
    }

    /// Records the arrival of the next record and says what to do with the
    /// sinks before writing it.
    pub fn next_record(&mut self) -> (step: Step)
        requires
            old(self).size() > 0,
            old(self).count() < usize::MAX,
        ensures
            final(self).size() == old(self).size(),
            final(self).count() == old(self).count() + 1,
            step == (if old(self).count() == 0 {
                Step::Open(0)
            } else if old(self).count() % old(self).size() == 0 {
                Step::Rotate(old(self).count() as usize)
            } else {
                Step::Write
            }),
    {
        let step = if self.count == 0 {
            Step::Open(0)
        } else if self.count % self.size == 0 {
            Step::Rotate(self.count)
        } else {
            Step::Write
        };
        self.count = self.count + 1;
        step
    }

    /// Whether a sink is open at the end of the stream and must be flushed
    /// and closed; none is when the stream held no record.
    pub fn finish(&self) -> (open: bool)
        ensures
            open == (self.count() > 0),
    {
        self.count > 0
    }
}

/// The number of chunks that `len` records make at `size` records each.
pub open spec fn chunk_count(len: nat, size: nat) -> nat {
    if len == 0 {
        0
    } else {
        ((len - 1) as nat / size + 1) as nat
    }
}

/// The index one past the last record of chunk `k`.
pub open spec fn chunk_end(k: int, len: nat, size: nat) -> int {
    if k * size + size <= len {
        k * size + size
    } else {
        len as int
    }
}

/// What the sink of one chunk receives: the header, when headers are
/// enabled, then the chunk's records.
pub open spec fn chunk_lines(
    header: Option<Seq<Seq<u8>>>,
    records: Seq<Seq<Seq<u8>>>,
    k: int,
    size: nat,
) -> Seq<Seq<Seq<u8>>> {
    let body = records.subrange(k * size, chunk_end(k, records.len(), size));
    match header {
        Some(h) => seq![h] + body,
        None => body,
    }
}

/// With headers enabled, the sink of every chunk receives the header once,
/// before any record, followed by the chunk's data records alone: between one
/// and `size` of them, which are all that counts toward the chunk size.
pub proof fn lemma_header_first(
    header: Seq<Seq<u8>>,
    records: Seq<Seq<Seq<u8>>>,
    k: int,
    size: nat,
)
    requires
        size > 0,
        0 <= k < chunk_count(records.len(), size),
    ensures
        chunk_lines(Some(header), records, k, size)[0] == header,
        chunk_lines(Some(header), records, k, size) == seq![header] + chunk_lines(
            None,
            records,
            k,
            size,
        ),
        1 <= chunk_lines(None, records, k, size).len() <= size,
{
    lemma_chunk_sizes(records.len(), size);
    let c = chunk_count(records.len(), size) as int;
    let n = size as int;
    assert(k * n + n <= c * n) by (nonlinear_arith)
        requires
            k < c,
            n > 0,
    ;
    assert(c * n == (c - 1) * n + n) by (nonlinear_arith);
    assert(k * n >= 0) by (nonlinear_arith)
        requires
            k >= 0,
            n > 0,
    ;
    if k < c - 1 {
        assert(chunk_end(k, records.len(), size) - k * n == n);
    } else {
        assert(records.len() - (c - 1) * n >= 1);
    }
}

/// One chunk: the index of its first record, and what its sink receives.
pub struct Chunk {
    pub start: usize,
    pub lines: Vec<Record>,
}

proof fn lemma_position_in_chunk(c: int, t: int, n: int)
    requires
        n > 0,
        c >= 0,
        1 <= t <= n,
    ensures
        (c * n + t) % n == 0 <==> t == n,
{
    if t == n {
        assert(c * n + t == (c + 1) * n) by (nonlinear_arith)
            requires
                t == n,
        ;
        lemma_mod_multiples_basic(c + 1, n);
    } else {
        assert(n * c == c * n) by (nonlinear_arith);
        lemma_div_multiples_vanish_fancy(c, t, n);
        lemma_fundamental_div_mod(c * n + t, n);
    }
}

/// The chunk sizes of a split: `len` records at `size` each make
/// ceil(len / size) chunks, none when there is no record; every chunk but the
/// last holds `size` records; the last holds `len % size` records, or `size`
/// when that is zero, and ends with the last record.
pub proof fn lemma_chunk_sizes(len: nat, size: nat)
    requires
        size > 0,
    ensures
        chunk_count(len, size) == (len + size - 1) / (size as int),
        len == 0 ==> chunk_count(len, size) == 0,
        forall|k: int|
            0 <= k < chunk_count(len, size) - 1 ==> #[trigger] chunk_end(k, len, size) - k * size
                == size,
        chunk_count(len, size) > 0 ==> chunk_end(chunk_count(len, size) - 1, len, size) == len,
        chunk_count(len, size) > 0 ==> len - (chunk_count(len, size) - 1) * size == (if len % size
            == 0 {
            size as int
        } else {
            (len % size) as int
        }),
{
    let n = size as int;
    if len == 0 {
        assert((n - 1) / n == 0) by {
            lemma_div_multiples_vanish_fancy(0, n - 1, n);
        }
    } else {
        let c = (len - 1) / n;
        let t = (len - 1) % n;
        lemma_fundamental_div_mod(len - 1, n);
        assert(n * c == c * n) by (nonlinear_arith);
        assert(0 <= t < n);
        assert(len + n - 1 == n * (c + 1) + t) by (nonlinear_arith)
            requires
                len - 1 == n * c + t,
        ;
        lemma_div_multiples_vanish_fancy(c + 1, t, n);
        assert(c >= 0) by (nonlinear_arith)
            requires
                len - 1 >= 0,
                n > 0,
                c == (len - 1) / n,
        ;
        assert forall|k: int| 0 <= k < c implies #[trigger] chunk_end(k, len, size) - k * size
            == size by {
            assert(k * n + n <= c * n) by (nonlinear_arith)
                requires
                    k < c,
                    n > 0,
            ;
        }
        lemma_position_in_chunk(c, t + 1, n);
        if t + 1 < n {
            assert(n * c + (t + 1) == len);
            lemma_div_multiples_vanish_fancy(c, t + 1, n);
            lemma_fundamental_div_mod(len as int, n);
        }
    }
}

/// Splits `records` into chunks of `size` records, as a split run does: each
/// chunk starts at a multiple of `size` and its sink receives the header, when
/// there is one, then the chunk's records. No record makes no chunk.
pub fn split(records: &Vec<Record>, header: Option<&Record>, size: usize) -> (r: Result<
    Vec<Chunk>,
    SplitError,
>)
    ensures
        r is Err <==> size == 0,
        match r {
            Ok(chunks) => {
                &&& chunks@.len() == chunk_count(records@.len(), size as nat)
                &&& forall|k: int|
                    0 <= k < chunks@.len() ==> (#[trigger] chunks@[k]).start == k * size
                        && records_view(chunks@[k].lines@) == chunk_lines(
                        match header {
                            Some(h) => Some(h@),
                            None => None,
                        },
                        records_view(records@),
                        k,
                        size as nat,
                    )
            },
            Err(e) => e is ZeroSize,
        },
{
    let mut sp = match Splitter::new(size) {
        Ok(sp) => sp,
        Err(e) => {
            return Err(e);
        },
    };
    let ghost hv: Option<Seq<Seq<u8>>> = match header {
        Some(h) => Some(h@),
        None => None,
    };
    let ghost rv = records_view(records@);
    let ghost n = size as int;
    let mut chunks: Vec<Chunk> = Vec::new();
    let mut current: Vec<Record> = Vec::new();
    let mut start: usize = 0;
    let ghost mut c: int = 0;
    let mut i: usize = 0;
    while i < records.len()
        invariant
            0 <= i <= records@.len(),
            n == size as int,
            n > 0,
            sp.size() == size,
            sp.count() == i,
            rv == records_view(records@),
            hv == (match header {
                Some(h) => Some(h@),
                None => None::<Seq<Seq<u8>>>,
            }),
            c >= 0,
            chunks@.len() == c,
            i == 0 ==> c == 0,
            i > 0 ==> start == c * n && c * n + 1 <= i <= c * n + n,
            i > 0 ==> records_view(current@) == (match hv {
                Some(h) => seq![h] + rv.subrange(c * n, i as int),
                None => rv.subrange(c * n, i as int),
            }),
            forall|k: int|
                0 <= k < c ==> (#[trigger] chunks@[k]).start == k * n
                    && records_view(chunks@[k].lines@) == chunk_lines(hv, rv, k, size as nat),
        decreases records@.len() - i,
    {
        let step = sp.next_record();
        proof {
            if i > 0 {
                lemma_position_in_chunk(c, i as int - c * n, n);
            }
        }
        match step {
            Step::Write => {},
            Step::Open(s) => {
                assert(i == 0);
                start = s;
                current = Vec::new();
                match header {
                    Some(h) => current.push(h.duplicate()),
                    None => {},
                }
            },
            Step::Rotate(s) => {
                assert(i > 0 && s == i);
                assert(i == c * n + n);
                let ghost prev = chunks@;
                let full = Chunk { start, lines: current };
                chunks.push(full);
                proof {
                    assert(chunk_end(c, rv.len(), size as nat) == i);
                    assert(records_view(chunks@[c].lines@) == chunk_lines(hv, rv, c, size as nat));
                    assert forall|k: int| 0 <= k < c + 1 implies (#[trigger] chunks@[k]).start == k
                        * n && records_view(chunks@[k].lines@) == chunk_lines(
                        hv,
                        rv,
                        k,
                        size as nat,
                    ) by {
                        if k < c {
                            assert(chunks@[k] == prev[k]);
                        }
                    }
                    assert((c + 1) * n == c * n + n) by (nonlinear_arith);
                    c = c + 1;
                }
                start = s;
                current = Vec::new();
                match header {
                    Some(h) => current.push(h.duplicate()),
                    None => {},
                }
            },
        }
        let ghost before = records_view(current@);
        current.push(records[i].duplicate());
        assert(rv.subrange(c * n, i + 1) =~= rv.subrange(c * n, i as int).push(rv[i as int]));
        assert(records_view(current@) =~= before.push(rv[i as int]));
        proof {
            if let Some(h) = hv {
                assert(seq![h] + rv.subrange(c * n, i + 1) =~= (seq![h] + rv.subrange(
                    c * n,
                    i as int,
                )).push(rv[i as int]));
            }
        }
        i = i + 1;

    }
    if sp.finish() {
        proof {
            assert(chunk_end(c, rv.len(), size as nat) == i);
        }
        chunks.push(Chunk { start, lines: current });
        proof {
            assert(chunk_lines(hv, rv, c, size as nat) == records_view(chunks@[c].lines@));
            c = c + 1;
        }
    }
    proof {
        let len = records@.len();
        if len > 0 {
            let t = len - (c - 1) * n;
            assert(len - 1 == n * (c - 1) + (t - 1)) by (nonlinear_arith)
                requires
                    t == len - (c - 1) * n,
            ;
            lemma_div_multiples_vanish_fancy(c - 1, t - 1, n);
        }
    }
    Ok(chunks)
}

} // verus!
